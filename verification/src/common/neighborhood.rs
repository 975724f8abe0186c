use vstd::prelude::*;

use super::point::Point;

verus! {

/// One of the eight cells around a cell, or `NONE`.
#[derive(Clone, Copy, Debug, Default, PartialEq, Eq, Structural)]
#[allow(non_camel_case_types)]
pub enum Adjacence {
    #[default]
    NONE,
    LEFT,
    LEFT_TOP,
    TOP,
    RIGHT_TOP,
    RIGHT,
    RIGHT_BOTTOM,
    BOTTOM,
    LEFT_BOTTOM,
}

impl Adjacence {
    /// The bit that stands for this adjacence in a `Neighborhood`.
    pub open spec fn spec_mask(self) -> u8 {
        match self {
            Adjacence::NONE => 0u8,
            Adjacence::LEFT => 0x80u8,
            Adjacence::LEFT_TOP => 0x40u8,
            Adjacence::TOP => 0x20u8,
            Adjacence::RIGHT_TOP => 0x10u8,
            Adjacence::RIGHT => 0x08u8,
            Adjacence::RIGHT_BOTTOM => 0x04u8,
            Adjacence::BOTTOM => 0x02u8,
            Adjacence::LEFT_BOTTOM => 0x01u8,
        }
    }

    /// The step from a cell to this neighbour (`y` grows downwards).
    pub open spec fn spec_offset(self) -> (int, int) {
        match self {
            Adjacence::NONE => (0, 0),
            Adjacence::LEFT => (-1, 0),
            Adjacence::LEFT_TOP => (-1, -1),
            Adjacence::TOP => (0, -1),
            Adjacence::RIGHT_TOP => (1, -1),
            Adjacence::RIGHT => (1, 0),
            Adjacence::RIGHT_BOTTOM => (1, 1),
            Adjacence::BOTTOM => (0, 1),
            Adjacence::LEFT_BOTTOM => (-1, 1),
        }
    }

    pub fn mask(&self) -> (r: u8)
        ensures
            r == self.spec_mask(),
    {
        match self {
            Adjacence::NONE => 0u8,
            Adjacence::LEFT => 0x80u8,
            Adjacence::LEFT_TOP => 0x40u8,
            Adjacence::TOP => 0x20u8,
            Adjacence::RIGHT_TOP => 0x10u8,
            Adjacence::RIGHT => 0x08u8,
            Adjacence::RIGHT_BOTTOM => 0x04u8,
            Adjacence::BOTTOM => 0x02u8,
            Adjacence::LEFT_BOTTOM => 0x01u8,
        }
    }

    /// The step from a cell to this neighbour as a point.
    pub fn into_point(self) -> (r: Point)
        ensures
            r.x == self.spec_offset().0,
            r.y == self.spec_offset().1,
    {
        match self {
            Adjacence::NONE => Point { x: 0, y: 0 },
            Adjacence::LEFT => Point { x: -1, y: 0 },
            Adjacence::LEFT_TOP => Point { x: -1, y: -1 },
            Adjacence::TOP => Point { x: 0, y: -1 },
            Adjacence::RIGHT_TOP => Point { x: 1, y: -1 },
            Adjacence::RIGHT => Point { x: 1, y: 0 },
            Adjacence::RIGHT_BOTTOM => Point { x: 1, y: 1 },
            Adjacence::BOTTOM => Point { x: 0, y: 1 },
            Adjacence::LEFT_BOTTOM => Point { x: -1, y: 1 },
        }
    }
}

/// The `i`-th adjacence of `Neighborhood::AROUND`.
pub open spec fn around(i: int) -> Adjacence {
    if i == 0 {
        Adjacence::LEFT
    } else if i == 1 {
        Adjacence::LEFT_TOP
    } else if i == 2 {
        Adjacence::TOP
    } else if i == 3 {
        Adjacence::RIGHT_TOP
    } else if i == 4 {
        Adjacence::RIGHT
    } else if i == 5 {
        Adjacence::RIGHT_BOTTOM
    } else if i == 6 {
        Adjacence::BOTTOM
    } else {
        Adjacence::LEFT_BOTTOM
    }
}

/// The bits of all adjacences of `s`, or-ed together.
pub open spec fn mask_of(s: Seq<Adjacence>) -> u8
    decreases s.len(),
{
    if s.len() == 0 {
        0u8
    } else {
        mask_of(s.drop_last()) | s.last().spec_mask()
    }
}

/// The set of neighbours around one cell, one bit for each of the eight adjacences.
#[derive(Clone, Copy, Debug, Default, PartialEq, Eq, Structural)]
pub struct Neighborhood(u8);

impl View for Neighborhood {
    type V = u8;

    closed spec fn view(&self) -> u8 {
        self.0
    }
}

/// Two different adjacences share no bit, and each but `NONE` has one.
pub proof fn lemma_mask_disjoint(a: Adjacence, b: Adjacence)
    ensures
        a != b ==> a.spec_mask() & b.spec_mask() == 0,
        a != Adjacence::NONE ==> a.spec_mask() & a.spec_mask() != 0,
        a.spec_mask() & 0 == 0,
{
    let x = a.spec_mask();
    let y = b.spec_mask();
    assert(x != y ==> x & y == 0u8 && x & 0 == 0u8 && (x != 0 ==> x & x != 0)) by (bit_vector)
        requires
            x == 0 || x == 1 || x == 2 || x == 4 || x == 8 || x == 16 || x == 32 || x == 64
                || x == 128,
            y == 0 || y == 1 || y == 2 || y == 4 || y == 8 || y == 16 || y == 32 || y == 64
                || y == 128,
    ;
    assert(x & 0 == 0u8) by (bit_vector);
    assert(x == y ==> x & x != 0u8 || x == 0) by (bit_vector)
        requires
            x == 0 || x == 1 || x == 2 || x == 4 || x == 8 || x == 16 || x == 32 || x == 64
                || x == 128,
    ;
}

/// Bit facts behind `set` and `unset`.
proof fn lemma_or_and_not(x: u8, m: u8, d: u8)
    ensures
        ((x | m) & d != 0) <==> (x & d != 0 || m & d != 0),
        m & d == 0 ==> ((x & !m) & d != 0 <==> x & d != 0),
        (x & !m) & m == 0,
{
    assert(((x | m) & d != 0) <==> (x & d != 0 || m & d != 0)) by (bit_vector);
    assert(m & d == 0 ==> ((x & !m) & d != 0 <==> x & d != 0)) by (bit_vector);
    assert((x & !m) & m == 0) by (bit_vector);
}

impl Neighborhood {
    /// The eight adjacences, clockwise from the left.
    pub const AROUND: [Adjacence; 8] = [
        Adjacence::LEFT,
        Adjacence::LEFT_TOP,
        Adjacence::TOP,
        Adjacence::RIGHT_TOP,
        Adjacence::RIGHT,
        Adjacence::RIGHT_BOTTOM,
        Adjacence::BOTTOM,
        Adjacence::LEFT_BOTTOM,
    ];

    /// Whether the neighbour at `a` is present.
    pub open spec fn spec_has(self, a: Adjacence) -> bool {
        self@ & a.spec_mask() != 0
    }

    pub fn new() -> (r: Neighborhood)
        ensures
            r@ == 0,
    {
        Neighborhood(0)
    }

    /// The neighbourhood made of the given adjacences.
    pub fn from(it: &[Adjacence]) -> (r: Neighborhood)
        ensures
            r@ == mask_of(it@),
            forall|a: Adjacence| a != Adjacence::NONE ==> (r.spec_has(a) <==> it@.contains(a)),
    {
        let mut n = Neighborhood::new();
        let mut i: usize = 0;
        while i < it.len()
            invariant
                0 <= i <= it.len(),
                n@ == mask_of(it@.take(i as int)),
            decreases it.len() - i,
        {
            assert(it@.take(i + 1).drop_last() =~= it@.take(i as int));
            n.set(it[i]);
            i = i + 1;
        }
        assert(it@.take(it.len() as int) =~= it@);
        proof {
            assert forall|a: Adjacence| a != Adjacence::NONE implies (n.spec_has(a)
                <==> it@.contains(a)) by {
                lemma_mask_of_has(it@, a);
            }
        }
        n
    }

    pub fn set(&mut self, mask: Adjacence)
        ensures
            final(self)@ == old(self)@ | mask.spec_mask(),
    {
        self.0 = self.0 | mask.mask();
    }

    pub fn unset(&mut self, mask: Adjacence)
        ensures
            final(self)@ == old(self)@ & !mask.spec_mask(),
    {
        self.0 = self.0 & !mask.mask();
    }

    pub fn has(&self, mask: Adjacence) -> (r: bool)
        ensures
            r == self.spec_has(mask),
    {
        self.0 & mask.mask() != 0
    }

    /// Whether every neighbour of `other` is also in `self`.
    pub fn contains(&self, other: &Self) -> (r: bool)
        ensures
            r == (self@ & other@ == other@),
    {
        self.0 & other.0 == other.0
    }

    /// The presence of each neighbour, in the order of `AROUND`.
    pub fn states(&self) -> (r: [bool; 8])
        ensures
            forall|i: int| 0 <= i < 8 ==> r[i] == self.spec_has(#[trigger] around(i)),
    {
        [
            self.has(Adjacence::LEFT),
            self.has(Adjacence::LEFT_TOP),
            self.has(Adjacence::TOP),
            self.has(Adjacence::RIGHT_TOP),
            self.has(Adjacence::RIGHT),
            self.has(Adjacence::RIGHT_BOTTOM),
            self.has(Adjacence::BOTTOM),
            self.has(Adjacence::LEFT_BOTTOM),
        ]
    }

    /// The four orthogonal neighbours: left, top, right and bottom.
    pub fn cross() -> (r: Neighborhood)
        ensures
            r@ == 0xAAu8,
    {
        Neighborhood(0xAA)
    }
}

/// `mask_of(s)` has the bit of `a` exactly when `s` holds `a`.
pub proof fn lemma_mask_of_has(s: Seq<Adjacence>, a: Adjacence)
    requires
        a != Adjacence::NONE,
    ensures
        (mask_of(s) & a.spec_mask() != 0) <==> s.contains(a),
    decreases s.len(),
{
    if s.len() == 0 {
        let m = a.spec_mask();
        assert(0u8 & m == 0) by (bit_vector);
    } else {
        lemma_mask_of_has(s.drop_last(), a);
        lemma_or_and_not(mask_of(s.drop_last()), s.last().spec_mask(), a.spec_mask());
        lemma_mask_disjoint(s.last(), a);
        if s.contains(a) && !s.drop_last().contains(a) {
            let k = choose|k: int| 0 <= k < s.len() && s[k] == a;
            if k < s.len() - 1 {
                assert(s.drop_last()[k] == a);
            }
        }
        if s.drop_last().contains(a) {
            let k = choose|k: int| 0 <= k < s.drop_last().len() && s.drop_last()[k] == a;
            assert(s[k] == a);
        }
        if s.last() == a {
            assert(s[s.len() - 1] == a);
        }
    }
}

/// After `set(a)`, the neighbour at `a` is present and no other one changed.
pub proof fn lemma_set_has(n: u8, a: Adjacence, b: Adjacence)
    requires
        a != Adjacence::NONE,
    ensures
        (n | a.spec_mask()) & b.spec_mask() != 0 <==> (b == a || n & b.spec_mask() != 0),
{
    lemma_or_and_not(n, a.spec_mask(), b.spec_mask());
    lemma_mask_disjoint(a, b);
    lemma_mask_disjoint(b, a);
}

/// After `unset(a)`, the neighbour at `a` is absent and no other one changed.
pub proof fn lemma_unset_has(n: u8, a: Adjacence, b: Adjacence)
    ensures
        (n & !a.spec_mask()) & b.spec_mask() != 0 <==> (b != a && n & b.spec_mask() != 0),
{
    lemma_or_and_not(n, a.spec_mask(), b.spec_mask());
    lemma_mask_disjoint(a, b);
}

/// Both coordinates of `p` are away from the ends of `i32`, so each neighbour of `p` exists.
pub open spec fn interior(p: Point) -> bool {
    i32::MIN < p.x < i32::MAX && i32::MIN < p.y < i32::MAX
}

/// The neighbour of `p` at `d`.
pub open spec fn neighbor(p: Point, d: Adjacence) -> Point {
    Point { x: (p.x + d.spec_offset().0) as i32, y: (p.y + d.spec_offset().1) as i32 }
}

/// The `i`-th adjacence of `Neighborhood::AROUND`, for `i < 8`.
pub fn adjacence_at(i: usize) -> (r: Adjacence)
    requires
        i < 8,
    ensures
        r == around(i as int),
{
    if i == 0 {
        Adjacence::LEFT
    } else if i == 1 {
        Adjacence::LEFT_TOP
    } else if i == 2 {
        Adjacence::TOP
    } else if i == 3 {
        Adjacence::RIGHT_TOP
    } else if i == 4 {
        Adjacence::RIGHT
    } else if i == 5 {
        Adjacence::RIGHT_BOTTOM
    } else if i == 6 {
        Adjacence::BOTTOM
    } else {
        Adjacence::LEFT_BOTTOM
    }
}

/// Every adjacence but `NONE` stands in `AROUND`.
pub proof fn lemma_around(d: Adjacence)
    requires
        d != Adjacence::NONE,
    ensures
        exists|j: int| 0 <= j < 8 && #[trigger] around(j) == d,
{
    match d {
        Adjacence::LEFT => assert(around(0) == d),
        Adjacence::LEFT_TOP => assert(around(1) == d),
        Adjacence::TOP => assert(around(2) == d),
        Adjacence::RIGHT_TOP => assert(around(3) == d),
        Adjacence::RIGHT => assert(around(4) == d),
        Adjacence::RIGHT_BOTTOM => assert(around(5) == d),
        Adjacence::BOTTOM => assert(around(6) == d),
        Adjacence::LEFT_BOTTOM => assert(around(7) == d),
        Adjacence::NONE => {},
    }
}

/// The neighbourhood of `p` given which cells are occupied: the neighbour at `d` is
/// present exactly when the cell next to `p` at `d` is occupied.
pub(crate) fn neighborhood_with<F: Fn(Point) -> bool>(
    p: Point,
    hit: &F,
    Ghost(occupied): Ghost<spec_fn(Point) -> bool>,
) -> (r: Neighborhood)
    requires
        interior(p),
        forall|q: Point| #[trigger] hit.requires((q,)),
        forall|q: Point, b: bool| hit.ensures((q,), b) ==> b == occupied(q),
    ensures
        forall|d: Adjacence| d != Adjacence::NONE ==> (r.spec_has(d) <==> occupied(#[trigger] neighbor(p, d))),
        !r.spec_has(Adjacence::NONE),
{
    let mut n = Neighborhood::new();
    assert(forall|m: u8| #[trigger] (0u8 & m) == 0) by (bit_vector);
    let mut i: usize = 0;
    while i < 8
        invariant
            i <= 8,
            interior(p),
            forall|q: Point| #[trigger] hit.requires((q,)),
            forall|q: Point, b: bool| hit.ensures((q,), b) ==> b == occupied(q),
            forall|j: int| 0 <= j < i ==> (n.spec_has(#[trigger] around(j)) <==> occupied(neighbor(p, around(j)))),
            forall|j: int| i <= j < 8 ==> !n.spec_has(#[trigger] around(j)),
            !n.spec_has(Adjacence::NONE),
        decreases 8 - i,
    {
        let a = adjacence_at(i);
        let q = p.add(a.into_point());
        let ghost before = n;
        if hit(q) {
            n.set(a);
            proof {
                assert forall|j: int| 0 <= j < 8 implies (n.spec_has(#[trigger] around(j)) <==> (around(j) == a || before.spec_has(around(j)))) by {
                    lemma_set_has(before@, a, around(j));
                }
                lemma_set_has(before@, a, Adjacence::NONE);
            }
        }
        proof {
            assert(q == neighbor(p, a));
            assert forall|j: int| 0 <= j < 8 && j != i implies around(j) != a by {}
        }
        i = i + 1;
    }
    proof {
        assert forall|d: Adjacence| d != Adjacence::NONE implies (n.spec_has(d) <==> occupied(#[trigger] neighbor(p, d))) by {
            lemma_around(d);
            let j = choose|j: int| 0 <= j < 8 && around(j) == d;
        }
    }
    n
}

} // verus!
