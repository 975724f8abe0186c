use vstd::prelude::*;

use super::vicinity::Vicinity;
use crate::common::neighborhood::around;

verus! {

/// How one corner of a cell's outline is drawn, from the neighbour on one side of it, the
/// neighbour across it and the neighbour on its other side. The outline of a corner has
/// four points: 0 and 2 on the inner square's edges, 1 at the inner square's corner, 3 at
/// the cell's corner.
#[derive(Clone, Copy, Debug, PartialEq, Eq, Structural)]
pub enum Corner {
    /// All three neighbours taken: the cell's corner (point 3).
    Outer,
    /// Both sides taken but not across: a notch (points 0, 1, 2).
    Notch,
    /// Only the first side taken (point 0).
    First,
    /// Only the other side taken (point 2).
    Last,
    /// Neither side taken: the inner square's corner (point 1).
    Inner,
}

/// The corner drawn between sides `a` and `c`, with `b` the neighbour across.
pub open spec fn corner_of(a: bool, b: bool, c: bool) -> Corner {
    if a && b && c {
        Corner::Outer
    } else if a && c {
        Corner::Notch
    } else if a {
        Corner::First
    } else if c {
        Corner::Last
    } else {
        Corner::Inner
    }
}

/// The points of a corner's outline that a corner draws, in order.
pub open spec fn corner_points(c: Corner) -> Seq<usize> {
    match c {
        Corner::Outer => seq![3usize],
        Corner::Notch => seq![0usize, 1usize, 2usize],
        Corner::First => seq![0usize],
        Corner::Last => seq![2usize],
        Corner::Inner => seq![1usize],
    }
}

/// What a corner draws follows the sides taken: point 0 (on the first side's edge) when the
/// first side is taken, point 2 (on the other side's edge) when the other side is, each
/// unless all three neighbours are taken; then point 3, the cell's own corner, alone;
/// point 1, the inner corner, when neither side is taken or both are but not across. The
/// points come in increasing order, each once.
pub proof fn lemma_corner_draws(a: bool, b: bool, c: bool)
    ensures
        corner_points(corner_of(a, b, c)).contains(0) <==> (a && !(a && b && c)),
        corner_points(corner_of(a, b, c)).contains(2) <==> (c && !(a && b && c)),
        corner_points(corner_of(a, b, c)).contains(3) <==> (a && b && c),
        corner_points(corner_of(a, b, c)).contains(1) <==> ((!a && !c) || (a && c && !b)),
        forall|i: int, j: int|
            0 <= i < j < corner_points(corner_of(a, b, c)).len() ==> corner_points(corner_of(a, b, c))[i]
                < corner_points(corner_of(a, b, c))[j],
{
    let p = corner_points(corner_of(a, b, c));
    assert(p.contains(p[0]));
    if p.len() == 3 {
        assert(p.contains(p[1]) && p.contains(p[2]));
    }
}

/// The four corners of a cell's outline, one per turn around it: corner `i` lies between
/// neighbours `2i` and `2i + 2` (mod 8) of `Vicinity::AROUND`, across from `2i + 1`.
pub fn corners(near: &Vicinity) -> (r: [Corner; 4])
    ensures
        forall|i: int|
            0 <= i < 4 ==> r@[i] == corner_of(
                near.spec_has(#[trigger] around(2 * i)),
                near.spec_has(around(2 * i + 1)),
                near.spec_has(around((2 * i + 2) % 8)),
            ),
{
    let s = near.states();
    let c0 = corner(s[0], s[1], s[2]);
    let c1 = corner(s[2], s[3], s[4]);
    let c2 = corner(s[4], s[5], s[6]);
    let c3 = corner(s[6], s[7], s[0]);
    let r = [c0, c1, c2, c3];
    assert forall|i: int|
        0 <= i < 4 implies r@[i] == corner_of(
            near.spec_has(#[trigger] around(2 * i)),
            near.spec_has(around(2 * i + 1)),
            near.spec_has(around((2 * i + 2) % 8)),
        ) by {
        assert(s[2 * i] == near.spec_has(around(2 * i)));
        assert(s[2 * i + 1] == near.spec_has(around(2 * i + 1)));
        assert(s[(2 * i + 2) % 8] == near.spec_has(around((2 * i + 2) % 8)));
    }
    r
}

/// The corner drawn between sides `a` and `c`, with `b` the neighbour across.
pub fn corner(a: bool, b: bool, c: bool) -> (r: Corner)
    ensures
        r == corner_of(a, b, c),
{
    match (a, b, c) {
        (true, true, true) => Corner::Outer,
        (true, _, true) => Corner::Notch,
        (true, _, _) => Corner::First,
        (_, _, true) => Corner::Last,
        _ => Corner::Inner,
    }
}

/// The points of a corner's outline that corner `c` draws, in order.
pub fn points_of(c: Corner) -> (r: Vec<usize>)
    ensures
        r@ == corner_points(c),
{
    let r = match c {
        Corner::Outer => vec![3usize],
        Corner::Notch => vec![0usize, 1usize, 2usize],
        Corner::First => vec![0usize],
        Corner::Last => vec![2usize],
        Corner::Inner => vec![1usize],
    };
    assert(r@ =~= corner_points(c));
    r
}

} // verus!
