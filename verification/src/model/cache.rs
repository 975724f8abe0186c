use vstd::prelude::*;

use super::movement::Movement;
use crate::common::neighborhood::{Adjacence, Neighborhood};
use crate::refactor::cube::lbtr;

verus! {

/// The units that have a neighbour on side `a`, in order.
pub open spec fn bordered(it: Seq<(usize, Neighborhood)>, a: Adjacence) -> Seq<usize> {
    it.filter(|o: (usize, Neighborhood)| o.1.spec_has(a)).map_values(
        |o: (usize, Neighborhood)| o.0,
    )
}

/// Units grouped by the sides on which they have a neighbour: left, bottom, top, right.
pub struct Borders {
    size: [usize; 3],
    data: Vec<usize>,
}

fn side_at(i: usize) -> (r: Adjacence)
    requires
        i < 4,
    ensures
        r == lbtr(i as int),
{
    if i == 0 {
        Adjacence::LEFT
    } else if i == 1 {
        Adjacence::BOTTOM
    } else if i == 2 {
        Adjacence::TOP
    } else {
        Adjacence::RIGHT
    }
}

impl Borders {
    pub closed spec fn wf(self) -> bool {
        self.size@[0] <= self.size@[1] <= self.size@[2] <= self.data@.len()
    }

    /// The units kept for side `i` of `lbtr`.
    pub closed spec fn sides(self, i: int) -> Seq<usize> {
        let c = self.size@;
        let n = self.data@.len() as int;
        let lo = if i == 0 { 0 } else { c[i - 1] as int };
        let hi = if i == 3 { n } else { c[i] as int };
        self.data@.subrange(lo, hi)
    }

    /// Every unit kept, side by side.
    pub closed spec fn all(self) -> Seq<usize> {
        self.data@
    }

    pub fn new(it: &[(usize, Neighborhood)]) -> (r: Borders)
        ensures
            r.wf(),
            forall|i: int| 0 <= i < 4 ==> #[trigger] r.sides(i) == bordered(it@, lbtr(i)),
    {
        let mut size: [usize; 3] = [0, 0, 0];
        let mut data: Vec<usize> = Vec::new();
        let mut i: usize = 0;
        while i < 4
            invariant
                i <= 4,
                data@ == (if i == 0 {
                    Seq::<usize>::empty()
                } else if i == 1 {
                    bordered(it@, lbtr(0))
                } else if i == 2 {
                    bordered(it@, lbtr(0)) + bordered(it@, lbtr(1))
                } else if i == 3 {
                    bordered(it@, lbtr(0)) + bordered(it@, lbtr(1)) + bordered(it@, lbtr(2))
                } else {
                    bordered(it@, lbtr(0)) + bordered(it@, lbtr(1)) + bordered(it@, lbtr(2))
                        + bordered(it@, lbtr(3))
                }),
                i >= 1 ==> size@[0] == bordered(it@, lbtr(0)).len(),
                i >= 2 ==> size@[1] == bordered(it@, lbtr(0)).len() + bordered(it@, lbtr(1)).len(),
                i >= 3 ==> size@[2] == bordered(it@, lbtr(0)).len() + bordered(it@, lbtr(1)).len()
                    + bordered(it@, lbtr(2)).len(),
            decreases 4 - i,
        {
            let a = side_at(i);
            let ghost start = data@;
            let mut k: usize = 0;
            while k < it.len()
                invariant
                    i < 4,
                    k <= it@.len(),
                    a == lbtr(i as int),
                    data@ == start + bordered(it@.take(k as int), a),
                decreases it@.len() - k,
            {
                let o = it[k];
                proof {
                    assert(it@.take(k + 1) =~= it@.take(k as int).push(o));
                    it@.take(k as int).lemma_filter_push(o, |o: (usize, Neighborhood)| o.1.spec_has(a));
                }
                if o.1.has(a) {
                    data.push(o.0);
                    proof {
                        let f = it@.take(k as int).filter(|o: (usize, Neighborhood)| o.1.spec_has(a));
                        assert(f.push(o).map_values(|o: (usize, Neighborhood)| o.0) =~= f.map_values(
                            |o: (usize, Neighborhood)| o.0,
                        ).push(o.0));
                    }
                }
                k = k + 1;
            }
            proof {
                assert(it@.take(it@.len() as int) =~= it@);
            }
            if i < 3 {
                size[i] = data.len();
            }
            i = i + 1;
        }
        let r = Borders { size, data };
        proof {
            assert(r.sides(0) =~= bordered(it@, lbtr(0)));
            assert(r.sides(1) =~= bordered(it@, lbtr(1)));
            assert(r.sides(2) =~= bordered(it@, lbtr(2)));
            assert(r.sides(3) =~= bordered(it@, lbtr(3)));
        }
        r
    }

    /// The units bordered on the side that `m` faces; every unit for no movement.
    pub fn get(&self, m: Option<Movement>) -> (r: &[usize])
        requires
            self.wf(),
        ensures
            r@ == match m {
                None => self.all(),
                Some(Movement::Left) => self.sides(0),
                Some(Movement::Down) => self.sides(1),
                Some(Movement::Up) => self.sides(2),
                Some(Movement::Right) => self.sides(3),
            },
    {
        let n = self.data.len();
        match m {
            None => self.data.as_slice(),
            Some(Movement::Left) => slice_of(&self.data, 0, self.size[0]),
            Some(Movement::Down) => slice_of(&self.data, self.size[0], self.size[1]),
            Some(Movement::Up) => slice_of(&self.data, self.size[1], self.size[2]),
            Some(Movement::Right) => slice_of(&self.data, self.size[2], n),
        }
    }
}

/// The part of `v` from `lo` up to `hi`.
fn slice_of(v: &Vec<usize>, lo: usize, hi: usize) -> (r: &[usize])
    requires
        lo <= hi <= v@.len(),
    ensures
        r@ == v@.subrange(lo as int, hi as int),
{
    vstd::slice::slice_subrange(v.as_slice(), lo, hi)
}

} // verus!
