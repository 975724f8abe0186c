use vstd::prelude::*;

use std::collections::HashMap;

verus! {

broadcast use vstd::std_specs::hash::group_hash_axioms;

/// The bit of slot `i` of a race.
pub open spec fn slot_bit(i: int) -> u8 {
    if i == 0 {
        1u8
    } else if i == 1 {
        2u8
    } else if i == 2 {
        4u8
    } else {
        8u8
    }
}

/// At least two of the four are set.
pub open spec fn two_or_more(a: bool, b: bool, c: bool, d: bool) -> bool {
    (a && b) || (a && c) || (a && d) || (b && c) || (b && d) || (c && d)
}

/// What a race holds: for each of four slots, the index written there last, if any.
pub type RaceView = Seq<Option<usize>>;

/// The race where nothing is written.
pub open spec fn empty_race() -> RaceView {
    seq![None, None, None, None]
}

/// More than one slot of `r` is written.
pub open spec fn race_conflict(r: RaceView) -> bool {
    two_or_more(r[0] is Some, r[1] is Some, r[2] is Some, r[3] is Some)
}

/// The written slots of `r` in slot order, each as `(index, slot)`.
pub open spec fn race_whom(r: RaceView) -> Seq<(usize, usize)> {
    let s0 = if r[0] is Some {
        seq![(r[0]->0, 0usize)]
    } else {
        Seq::empty()
    };
    let s1 = if r[1] is Some {
        seq![(r[1]->0, 1usize)]
    } else {
        Seq::empty()
    };
    let s2 = if r[2] is Some {
        seq![(r[2]->0, 2usize)]
    } else {
        Seq::empty()
    };
    let s3 = if r[3] is Some {
        seq![(r[3]->0, 3usize)]
    } else {
        Seq::empty()
    };
    s0 + s1 + s2 + s3
}

/// The indices written at one point, one slot per direction of arrival.
#[derive(Clone, Copy, Debug, Default)]
pub struct Race {
    mark: u8,
    data: [usize; 4],
}

impl View for Race {
    type V = RaceView;

    closed spec fn view(&self) -> RaceView {
        Seq::new(
            4,
            |i: int|
                if self.mark & slot_bit(i) != 0 {
                    Some(self.data@[i])
                } else {
                    None
                },
        )
    }
}

proof fn lemma_bits(m: u8, b: u8)
    requires
        m < 16,
        b == 1 || b == 2 || b == 4 || b == 8,
    ensures
        (m | b) < 16,
        (m | b) & b != 0,
        b != 1 ==> ((m | b) & 1 != 0 <==> m & 1 != 0),
        b != 2 ==> ((m | b) & 2 != 0 <==> m & 2 != 0),
        b != 4 ==> ((m | b) & 4 != 0 <==> m & 4 != 0),
        b != 8 ==> ((m | b) & 8 != 0 <==> m & 8 != 0),
{
    assert((m | b) < 16 && (m | b) & b != 0) by (bit_vector)
        requires
            m < 16,
            b == 1 || b == 2 || b == 4 || b == 8,
    ;
    assert(b != 1 ==> ((m | b) & 1 != 0 <==> m & 1 != 0)) by (bit_vector)
        requires
            b == 1 || b == 2 || b == 4 || b == 8,
    ;
    assert(b != 2 ==> ((m | b) & 2 != 0 <==> m & 2 != 0)) by (bit_vector)
        requires
            b == 1 || b == 2 || b == 4 || b == 8,
    ;
    assert(b != 4 ==> ((m | b) & 4 != 0 <==> m & 4 != 0)) by (bit_vector)
        requires
            b == 1 || b == 2 || b == 4 || b == 8,
    ;
    assert(b != 8 ==> ((m | b) & 8 != 0 <==> m & 8 != 0)) by (bit_vector)
        requires
            b == 1 || b == 2 || b == 4 || b == 8,
    ;
}

proof fn lemma_conflict_bits(m: u8)
    requires
        0 < m < 16,
    ensures
        (m & ((m - 1) as u8) != 0) <==> two_or_more(m & 1 != 0, m & 2 != 0, m & 4 != 0, m & 8 != 0),
{
    assert((m & ((m - 1) as u8) != 0) <==> two_or_more(
        m & 1 != 0,
        m & 2 != 0,
        m & 4 != 0,
        m & 8 != 0,
    )) by (bit_vector)
        requires
            0 < m < 16,
    ;
}

impl Race {
    pub closed spec fn wf(self) -> bool {
        self.mark < 16
    }

    /// The race where nothing is written.
    pub fn new() -> (r: Race)
        ensures
            r.wf(),
            r@ == empty_race(),
    {
        let r = Race { mark: 0, data: [0, 0, 0, 0] };
        proof {
            assert(0u8 & 1 == 0 && 0u8 & 2 == 0 && 0u8 & 4 == 0 && 0u8 & 8 == 0) by (bit_vector);
            assert(r@ =~= empty_race());
        }
        r
    }

    /// Writes `index` into slot `i`.
    pub fn set(&mut self, i: usize, index: usize)
        requires
            old(self).wf(),
            i < 4,
        ensures
            final(self).wf(),
            final(self)@ == old(self)@.update(i as int, Some(index)),
    {
        let ghost before = *self;
        let bit: u8 = if i == 0 {
            1
        } else if i == 1 {
            2
        } else if i == 2 {
            4
        } else {
            8
        };
        self.mark = self.mark | bit;
        self.data[i] = index;
        proof {
            lemma_bits(before.mark, bit);
            assert(self@ =~= before@.update(i as int, Some(index)));
        }
    }

    /// Whether more than one slot is written.
    pub fn conflict(&self) -> (r: bool)
        requires
            self.wf(),
        ensures
            r == race_conflict(self@),
    {
        if self.mark == 0 {
            proof {
                assert(0u8 & 1 == 0 && 0u8 & 2 == 0 && 0u8 & 4 == 0 && 0u8 & 8 == 0) by (bit_vector);
            }
            false
        } else {
            proof {
                lemma_conflict_bits(self.mark);
            }
            self.mark & (self.mark - 1) != 0
        }
    }

    /// Whether slot `i` is written.
    pub fn has(&self, i: usize) -> (r: bool)
        requires
            i < 4,
        ensures
            r == self@[i as int] is Some,
    {
        let bit: u8 = if i == 0 {
            1
        } else if i == 1 {
            2
        } else if i == 2 {
            4
        } else {
            8
        };
        self.mark & bit != 0
    }

    /// What slot `i` holds, when written.
    pub fn get(&self, i: usize) -> (r: Option<usize>)
        requires
            i < 4,
        ensures
            r == self@[i as int],
    {
        if self.has(i) {
            Some(self.data[i])
        } else {
            None
        }
    }

    /// The written slots in slot order, each as `(index, slot)`.
    pub fn whom(&self) -> (r: Vec<(usize, usize)>)
        ensures
            r@ == race_whom(self@),
    {
        let mut r: Vec<(usize, usize)> = Vec::new();
        let ghost v = self@;
        if self.has(0) {
            r.push((self.data[0], 0));
        }
        assert(r@ =~= if v[0] is Some { seq![(v[0]->0, 0usize)] } else { Seq::empty() });
        let ghost r0 = r@;
        if self.has(1) {
            r.push((self.data[1], 1));
        }
        assert(r@ =~= r0 + if v[1] is Some { seq![(v[1]->0, 1usize)] } else { Seq::empty() });
        let ghost r1 = r@;
        if self.has(2) {
            r.push((self.data[2], 2));
        }
        assert(r@ =~= r1 + if v[2] is Some { seq![(v[2]->0, 2usize)] } else { Seq::empty() });
        let ghost r2 = r@;
        if self.has(3) {
            r.push((self.data[3], 3));
        }
        assert(r@ =~= r2 + if v[3] is Some { seq![(v[3]->0, 3usize)] } else { Seq::empty() });
        r
    }
}

/// Where key `k` stands in `e`, if it does.
pub open spec fn position_of(e: Seq<(u64, RaceView)>, k: u64) -> Option<int> {
    if exists|j: int| 0 <= j < e.len() && e[j].0 == k {
        Some(choose|j: int| 0 <= j < e.len() && e[j].0 == k)
    } else {
        None
    }
}

/// `e` after writing `id` into slot `i` of the race at key `k`; a new key goes last.
pub open spec fn put_one(e: Seq<(u64, RaceView)>, k: u64, i: int, id: usize) -> Seq<(u64, RaceView)> {
    match position_of(e, k) {
        Some(j) => e.update(j, (k, e[j].1.update(i, Some(id)))),
        None => e.push((k, empty_race().update(i, Some(id)))),
    }
}

/// `e` after `put_one` for each key of `ks` in turn.
pub open spec fn put_all(e: Seq<(u64, RaceView)>, ks: Seq<u64>, i: int, id: usize) -> Seq<(u64, RaceView)>
    decreases ks.len(),
{
    if ks.len() == 0 {
        e
    } else {
        put_one(put_all(e, ks.drop_last(), i, id), ks.last(), i, id)
    }
}

/// The written slots of each race with more than one written slot, in key order.
pub open spec fn overlaps_of(e: Seq<(u64, RaceView)>) -> Seq<Seq<(usize, usize)>> {
    e.filter(|x: (u64, RaceView)| race_conflict(x.1)).map_values(|x: (u64, RaceView)| race_whom(x.1))
}

/// Races keyed by point, kept in the order their keys first came.
pub struct RaceTable {
    index: HashMap<u64, usize>,
    keys: Vec<u64>,
    races: Vec<Race>,
}

impl View for RaceTable {
    type V = Seq<(u64, RaceView)>;

    closed spec fn view(&self) -> Seq<(u64, RaceView)> {
        Seq::new(self.keys@.len(), |j: int| (self.keys@[j], self.races@[j]@))
    }
}

impl RaceTable {
    pub closed spec fn wf(self) -> bool {
        &&& self.keys@.len() == self.races@.len()
        &&& self.keys@.no_duplicates()
        &&& forall|j: int| 0 <= j < self.races@.len() ==> #[trigger] self.races@[j].wf()
        &&& forall|k: u64| #[trigger] self.index@.contains_key(k) <==> self.keys@.contains(k)
        &&& forall|j: int|
            0 <= j < self.keys@.len() ==> #[trigger] self.index@[self.keys@[j]] == j as usize
    }

    pub fn new() -> (r: RaceTable)
        ensures
            r.wf(),
            r@ == Seq::<(u64, RaceView)>::empty(),
    {
        let r = RaceTable { index: HashMap::new(), keys: Vec::new(), races: Vec::new() };
        assert(r@ =~= Seq::<(u64, RaceView)>::empty());
        r
    }

    /// Writes `id` into slot `i` of the race at key `k`.
    pub fn put(&mut self, k: u64, i: usize, id: usize)
        requires
            old(self).wf(),
            i < 4,
        ensures
            final(self).wf(),
            final(self)@ == put_one(old(self)@, k, i as int, id),
    {
        let ghost before = self@;
        match self.index.get(&k) {
            Some(j) => {
                let j = *j;
                let _n = self.keys.len();
                proof {
                    assert(self.index@.contains_key(k));
                    assert(self.index@[k] == j);
                    assert(self.keys@.contains(k));
                    let jj = choose|jj: int| 0 <= jj < self.keys@.len() && self.keys@[jj] == k;
                    assert(self.index@[self.keys@[jj]] == jj as usize);
                    assert(jj == j as int);
                    assert(self.keys@[j as int] == k);
                    assert(before[j as int].0 == self.keys@[j as int]);
                    assert(before[j as int].0 == k);
                    let w = position_of(before, k)->0;
                    assert(self.keys@[w] == k);
                    assert(w == j as int);
                }
                let mut race = self.races[j];
                race.set(i, id);
                self.races.set(j, race);
                proof {
                    assert(self@ =~= put_one(before, k, i as int, id));
                }
            },
            None => {
                proof {
                    if exists|jj: int| 0 <= jj < before.len() && before[jj].0 == k {
                        let jj = choose|jj: int| 0 <= jj < before.len() && before[jj].0 == k;
                        assert(self.keys@[jj] == k);
                    }
                }
                let mut race = Race::new();
                race.set(i, id);
                let n = self.keys.len();
                let ghost old_keys = self.keys@;
                self.index.insert(k, n);
                self.keys.push(k);
                self.races.push(race);
                proof {
                    assert(self@ =~= put_one(before, k, i as int, id));
                    assert forall|k2: u64| #[trigger] self.index@.contains_key(k2) <==> self.keys@.contains(k2) by {
                        if self.keys@.contains(k2) && k2 != k {
                            let jj = choose|jj: int| 0 <= jj < self.keys@.len() && self.keys@[jj] == k2;
                            assert(old_keys[jj] == k2);
                        }
                        if old_keys.contains(k2) {
                            let jj = choose|jj: int| 0 <= jj < old_keys.len() && old_keys[jj] == k2;
                            assert(self.keys@[jj] == k2);
                        }
                        if k2 == k {
                            assert(self.keys@[n as int] == k);
                        }
                    }
                    assert forall|j: int| 0 <= j < self.keys@.len() implies #[trigger] self.index@[self.keys@[j]] == j as usize by {
                        if j < n {
                            assert(self.keys@[j] == old_keys[j]);
                            assert(old_keys[j] != k);
                        }
                    }
                }
            },
        }
    }

    /// The written slots of each race with more than one written slot.
    pub fn overlaps(&self) -> (r: Vec<Vec<(usize, usize)>>)
        requires
            self.wf(),
        ensures
            r@.map_values(|v: Vec<(usize, usize)>| v@) == overlaps_of(self@),
    {
        let mut r: Vec<Vec<(usize, usize)>> = Vec::new();
        let mut j: usize = 0;
        while j < self.races.len()
            invariant
                self.wf(),
                j <= self.races@.len(),
                r@.map_values(|v: Vec<(usize, usize)>| v@) == overlaps_of(self@.take(j as int)),
            decreases self.races@.len() - j,
        {
            let ghost e = self@.take(j as int);
            let ghost e1 = self@.take(j + 1);
            proof {
                reveal_with_fuel(Seq::filter, 1);
                assert(e1.drop_last() =~= e);
                assert(e1.last() == self@[j as int]);
            }
            if self.races[j].conflict() {
                let w = self.races[j].whom();
                let ghost before = r@;
                r.push(w);
                proof {
                    let p = |x: (u64, RaceView)| race_conflict(x.1);
                    let f = |x: (u64, RaceView)| race_whom(x.1);
                    assert(e1.filter(p) == e.filter(p).push(e1.last()));
                    assert(r@.map_values(|v: Vec<(usize, usize)>| v@) =~= before.map_values(|v: Vec<(usize, usize)>| v@).push(w@));
                }
            }
            j = j + 1;
        }
        assert(self@.take(self.races@.len() as int) =~= self@);
        r
    }
}

} // verus!
