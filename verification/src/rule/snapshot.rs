use vstd::prelude::*;

use std::sync::Arc;

use super::frozen::{points_of, Frozen};
use super::item::{Diff, Item};
use crate::common::neighborhood::Neighborhood;
use crate::common::point::Point;
use crate::refactor::kind::Kind;
use crate::refactor::lookup::in_bounds;
use crate::refactor::movement::Constraint;

verus! {

/// The moving units of a state, over the frozen area they share.
#[derive(Clone, Debug)]
pub struct Snapshot {
    active: Vec<Item>,
    forzen: Arc<Frozen>,
}

/// The two units differ in something other than their ids.
pub open spec fn differs(l: Item, r: Item) -> bool {
    l.kind != r.kind || l.position != r.position || l.movement != r.movement || l.constraint
        != r.constraint || l.neighborhood != r.neighborhood
}

/// What changed from `l` to `r`, under the id of `r`.
pub open spec fn item_diff(l: Item, r: Item) -> Diff {
    Diff {
        id: r.id,
        kind: if l.kind != r.kind { Some(r.kind) } else { None },
        position: if l.position != r.position { Some(r.position) } else { None },
        movement: if l.movement != r.movement { Some(r.movement) } else { None },
        constraint: if l.constraint != r.constraint { Some(r.constraint) } else { None },
        neighborhood: if l.neighborhood != r.neighborhood { Some(r.neighborhood) } else { None },
    }
}

/// The changes over the first `n` pairs of units, in order.
pub open spec fn diffs_upto(l: Seq<Item>, r: Seq<Item>, n: nat) -> Seq<Diff>
    decreases n,
{
    if n == 0 {
        Seq::empty()
    } else {
        let k = n - 1;
        let before = diffs_upto(l, r, k as nat);
        if differs(l[k], r[k]) {
            before.push(item_diff(l[k], r[k]))
        } else {
            before
        }
    }
}

/// The changes from `l` to `r`, pair by pair; none unless they are as long.
pub open spec fn diffs(l: Seq<Item>, r: Seq<Item>) -> Seq<Diff> {
    if l.len() == r.len() {
        diffs_upto(l, r, l.len())
    } else {
        Seq::empty()
    }
}

/// Comparing a list of units with itself finds no change.
pub proof fn lemma_no_change(l: Seq<Item>)
    ensures
        diffs(l, l) == Seq::<Diff>::empty(),
{
    lemma_no_change_upto(l, l.len());
}

proof fn lemma_no_change_upto(l: Seq<Item>, n: nat)
    ensures
        diffs_upto(l, l, n) == Seq::<Diff>::empty(),
    decreases n,
{
    if n > 0 {
        lemma_no_change_upto(l, (n - 1) as nat);
    }
}

/// The unit that stands for frozen cell `c` at place `k` after `offset` moving units.
pub open spec fn frozen_item(offset: int, k: int, c: (Point, Neighborhood)) -> Item {
    Item {
        id: (k + offset) as usize,
        kind: Kind::White,
        position: c.0,
        movement: None,
        constraint: Constraint::Free,
        neighborhood: c.1,
    }
}

/// Whether two handles share one frozen area, by `std::sync::Arc::ptr_eq`, which
/// compares the addresses the handles point to. What is claimed: when it answers yes,
/// both handles point to one value, so the areas are equal. Nothing is claimed of a no:
/// two equal areas may live at two addresses.
#[verifier::external_body]
fn same_frozen(a: &Arc<Frozen>, b: &Arc<Frozen>) -> (r: bool)
    ensures
        r ==> *a == *b,
{
    Arc::ptr_eq(a, b)
}

/// The changes from `l` to `r` when `comparable`; none otherwise.
pub fn changes(l: &[Item], r: &[Item], comparable: bool) -> (out: Vec<Diff>)
    ensures
        out@ == (if comparable {
            diffs(l@, r@)
        } else {
            Seq::<Diff>::empty()
        }),
{
    let mut out: Vec<Diff> = Vec::new();
    if !comparable || l.len() != r.len() {
        return out;
    }
    let mut i: usize = 0;
    while i < l.len()
        invariant
            i <= l@.len(),
            l@.len() == r@.len(),
            out@ == diffs_upto(l@, r@, i as nat),
        decreases l@.len() - i,
    {
        let a = l[i];
        let b = r[i];
        let kind_changed = a.kind != b.kind;
        let position_changed = a.position != b.position;
        let movement_changed = a.movement != b.movement;
        let constraint_changed = a.constraint != b.constraint;
        let neighborhood_changed = a.neighborhood != b.neighborhood;
        if kind_changed || position_changed || movement_changed || constraint_changed
            || neighborhood_changed {
            out.push(
                Diff {
                    id: b.id,
                    kind: if kind_changed {
                        Some(b.kind)
                    } else {
                        None
                    },
                    position: if position_changed {
                        Some(b.position)
                    } else {
                        None
                    },
                    movement: if movement_changed {
                        Some(b.movement)
                    } else {
                        None
                    },
                    constraint: if constraint_changed {
                        Some(b.constraint)
                    } else {
                        None
                    },
                    neighborhood: if neighborhood_changed {
                        Some(b.neighborhood)
                    } else {
                        None
                    },
                },
            );
        }
        i = i + 1;
    }
    out
}

impl Snapshot {
    pub closed spec fn wf(self) -> bool {
        &&& self.forzen.wf()
        &&& self.active@.len() + self.forzen.cells().len() <= usize::MAX
    }

    /// The moving units.
    pub closed spec fn active(self) -> Seq<Item> {
        self.active@
    }

    /// The frozen area.
    pub closed spec fn frozen(self) -> Frozen {
        *self.forzen
    }

    /// Every unit: the moving ones, then one white, free unit per frozen cell, numbered on.
    pub open spec fn items(self) -> Seq<Item> {
        let n = self.active().len() as int;
        self.active() + self.frozen().cells().map(
            |k: int, c: (Point, Neighborhood)| frozen_item(n, k, c),
        )
    }

    pub fn new(active: Vec<Item>, forzen: Arc<Frozen>) -> (r: Snapshot)
        requires
            forzen.wf(),
            active@.len() + forzen.cells().len() <= usize::MAX,
        ensures
            r.wf(),
            r.active() == active@,
            r.frozen() == *forzen,
    {
        Snapshot { active, forzen }
    }

    /// A moving unit stands at `position`, or the frozen area blocks it.
    pub fn contains(&self, position: Point) -> (r: bool)
        requires
            self.wf(),
        ensures
            r == ((exists|k: int| 0 <= k < self.active().len() && #[trigger] self.active()[k].position == position)
                || !in_bounds(self.frozen().width(), self.frozen().height(), position)
                || points_of(self.frozen().cells()).contains(position)),
    {
        let mut i: usize = 0;
        while i < self.active.len()
            invariant
                i <= self.active@.len(),
                forall|k: int| 0 <= k < i ==> #[trigger] self.active@[k].position != position,
            decreases self.active@.len() - i,
        {
            if self.active[i].position == position {
                return true;
            }
            i = i + 1;
        }
        self.forzen.blocked(position)
    }

    /// The changes from this snapshot to `that`: none unless both share one frozen
    /// area and have as many moving units.
    pub fn differ(&self, that: &Self) -> (r: Vec<Diff>)
        ensures
            r@ == Seq::<Diff>::empty() || (self.frozen() == that.frozen() && r@ == diffs(
                self.active(),
                that.active(),
            )),
            self.active() == that.active() ==> r@ == Seq::<Diff>::empty(),
    {
        proof {
            lemma_no_change(self.active@);
        }
        let same_source = same_frozen(&self.forzen, &that.forzen);
        changes(self.active.as_slice(), that.active.as_slice(), same_source)
    }

    /// A cursor over every unit, from the first.
    pub fn iter(&self) -> (r: SnapshotIter<'_>)
        requires
            self.wf(),
        ensures
            r.wf(),
            r.items() == self.items(),
            r.index() == 0,
    {
        SnapshotIter { source: self, index: 0 }
    }
}

/// A cursor over the units of a `Snapshot`.
pub struct SnapshotIter<'a> {
    source: &'a Snapshot,
    index: usize,
}

impl<'a> SnapshotIter<'a> {
    pub closed spec fn wf(self) -> bool {
        &&& self.source.wf()
        &&& self.index <= self.source.items().len()
    }

    pub closed spec fn items(self) -> Seq<Item> {
        self.source.items()
    }

    pub closed spec fn index(self) -> nat {
        self.index as nat
    }

    /// The number of units not yet taken, as a lower and an upper bound.
    pub fn size_hint(&self) -> (r: (usize, Option<usize>))
        requires
            self.wf(),
        ensures
            r == ((self.items().len() - self.index()) as usize, Some((self.items().len() - self.index()) as usize)),
            r.0 == self.items().len() - self.index(),
    {
        let total = self.source.active.len() + self.source.forzen.len();
        let left = total - self.index;
        (left, Some(left))
    }

    /// The next unit, if any is left.
    pub fn next(&mut self) -> (r: Option<Item>)
        requires
            old(self).wf(),
        ensures
            final(self).wf(),
            final(self).items() == old(self).items(),
            old(self).index() < old(self).items().len() ==> r == Some(
                old(self).items()[old(self).index() as int],
            ) && final(self).index() == old(self).index() + 1,
            old(self).index() >= old(self).items().len() ==> r is None && final(self).index()
                == old(self).index(),
    {
        let n = self.source.active.len();
        let total = n + self.source.forzen.len();
        if self.index < n {
            let item = self.source.active[self.index];
            self.index = self.index + 1;
            Some(item)
        } else if self.index < total {
            let k = self.index - n;
            let (position, neighborhood) = self.source.forzen.cell(k);
            let item = Item {
                id: k + n,
                kind: Kind::White,
                position,
                movement: None,
                constraint: Constraint::Free,
                neighborhood,
            };
            self.index = self.index + 1;
            Some(item)
        } else {
            None
        }
    }
}

} // verus!
