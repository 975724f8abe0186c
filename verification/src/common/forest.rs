use vstd::prelude::*;

verus! {

/// The root that `i` reaches by following parent links, as long as each link climbs to
/// a node of higher rank; any node without such a link is its own root.
pub open spec fn find_in(parents: Seq<Option<usize>>, rank: Seq<nat>, bound: nat, i: int) -> int
    decreases bound - rank[i],
{
    if 0 <= i < parents.len() && i < rank.len() && rank[i] <= bound && parents[i] is Some {
        let p = parents[i]->0 as int;
        if p != i && 0 <= p < parents.len() && p < rank.len() && rank[i] < rank[p] && rank[p]
            <= bound {
            find_in(parents, rank, bound, p)
        } else {
            i
        }
    } else {
        i
    }
}

/// `t` with `x` added at the end, unless it holds `x` already.
pub open spec fn touch_seq(t: Seq<usize>, x: usize) -> Seq<usize> {
    if t.contains(x) {
        t
    } else {
        t.push(x)
    }
}

/// Whether `i` is a root: untouched, or its own parent.
pub open spec fn is_root_in(parents: Seq<Option<usize>>, i: int) -> bool {
    parents[i] is None || parents[i]->0 == i
}

/// A union-find forest over `0..parents.len()` with path compression.
///
/// A node is "touched" once an operation has reached it; `existed` lists the touched
/// nodes in the order they were reached. The ghost `rank` climbs strictly along each
/// parent link, which is what makes every walk to a root finite.
pub struct Forest {
    parents: Vec<Option<usize>>,
    existed: Vec<usize>,
    rank: Ghost<Seq<nat>>,
    bound: Ghost<nat>,
}

impl Forest {
    pub closed spec fn wf(self) -> bool {
        let parents = self.parents@;
        let rank = self.rank@;
        &&& rank.len() == parents.len()
        &&& parents.len() <= usize::MAX
        &&& forall|i: int| 0 <= i < rank.len() ==> #[trigger] rank[i] <= self.bound@
        &&& forall|i: int|
            0 <= i < parents.len() && #[trigger] parents[i] is Some ==> {
                let p = parents[i]->0 as int;
                &&& 0 <= p < parents.len()
                &&& parents[p] is Some
                &&& p != i ==> rank[i] < rank[p]
            }
        &&& self.existed@.no_duplicates()
        &&& forall|k: int|
            0 <= k < self.existed@.len() ==> {
                let e = #[trigger] self.existed@[k] as int;
                0 <= e < parents.len() && parents[e] is Some
            }
        &&& forall|i: int|
            0 <= i < parents.len() && #[trigger] parents[i] is Some ==> self.existed@.contains(
                i as usize,
            )
    }

    /// Number of nodes.
    pub closed spec fn size(self) -> nat {
        self.parents@.len()
    }

    /// The representative of `i`'s class.
    pub closed spec fn rep(self, i: int) -> int {
        find_in(self.parents@, self.rank@, self.bound@, i)
    }

    /// The touched nodes, in the order they were reached.
    pub closed spec fn touched(self) -> Seq<usize> {
        self.existed@
    }

    pub open spec fn same(self, a: int, b: int) -> bool {
        self.rep(a) == self.rep(b)
    }

    proof fn lemma_find(self, i: int)
        requires
            self.wf(),
            0 <= i < self.size(),
        ensures
            0 <= self.rep(i) < self.size(),
            is_root_in(self.parents@, self.rep(i)),
            self.rep(self.rep(i)) == self.rep(i),
            self.rep(i) != i ==> self.rank@[i] < self.rank@[self.rep(i)] && self.parents@[i] is Some,
            is_root_in(self.parents@, i) <==> self.rep(i) == i,
            self.parents@[i] is Some ==> self.parents@[self.rep(i)] is Some,
            self.parents@[i] is Some && self.parents@[i]->0 != i ==> self.rep(i) == self.rep(
                self.parents@[i]->0 as int,
            ),
        decreases self.bound@ - self.rank@[i],
    {
        let parents = self.parents@;
        let rank = self.rank@;
        assert(rank[i] <= self.bound@);
        if parents[i] is Some {
            let p = parents[i]->0 as int;
            if p != i {
                assert(rank[p] <= self.bound@);
                self.lemma_find(p);
                assert(self.rank@[p] <= self.rank@[self.rep(p)]);
            }
        }
    }

    /// An untouched node is alone in its class.
    pub proof fn lemma_fresh_alone(self, i: int, j: int)
        requires
            self.wf(),
            0 <= i < self.size(),
            0 <= j < self.size(),
            i != j,
            !self.touched().contains(i as usize),
        ensures
            self.rep(i) != self.rep(j),
    {
        if self.parents@[i] is Some {
            assert(self.existed@.contains(i as usize));
        }
        self.lemma_find(i);
        self.lemma_find(j);
    }

    /// Every node that is not its own representative is touched.
    proof fn lemma_rep_touched(self, i: int)
        requires
            self.wf(),
            0 <= i < self.size(),
            self.rep(i) != i,
        ensures
            self.parents@[i] is Some,
            self.parents@[self.rep(i)] is Some,
    {
        self.lemma_find(i);
    }

    pub fn new(size: usize) -> (r: Forest)
        ensures
            r.wf(),
            r.size() == size,
            r.touched() == Seq::<usize>::empty(),
            forall|i: int| 0 <= i < size ==> #[trigger] r.rep(i) == i,
    {
        let mut parents: Vec<Option<usize>> = Vec::new();
        let mut i: usize = 0;
        while i < size
            invariant
                i <= size,
                parents@.len() == i,
                forall|j: int| 0 <= j < i ==> parents@[j] is None,
            decreases size - i,
        {
            parents.push(None);
            i = i + 1;
        }
        let r = Forest {
            parents,
            existed: Vec::new(),
            rank: Ghost(Seq::new(size as nat, |j: int| 0nat)),
            bound: Ghost(0nat),
        };
        assert forall|i: int| 0 <= i < size implies #[trigger] r.rep(i) == i by {
            r.lemma_find(i);
        }
        r
    }

    /// The number of nodes.
    pub fn len(&self) -> (r: usize)
        ensures
            r == self.size(),
    {
        self.parents.len()
    }

    /// The representative of `index`, without changing anything.
    pub fn root(&self, index: usize) -> (r: usize)
        requires
            self.wf(),
            index < self.size(),
        ensures
            r == self.rep(index as int),
            r < self.size(),
    {
        let mut index = index;
        let ghost start = index as int;
        proof {
            self.lemma_find(start);
        }
        loop
            invariant
                self.wf(),
                index < self.size(),
                self.rep(index as int) == self.rep(start),
            ensures
                index < self.size(),
                self.rep(index as int) == self.rep(start),
                is_root_in(self.parents@, index as int),
            decreases self.bound@ - self.rank@[index as int],
        {
            proof {
                self.lemma_find(index as int);
            }
            match self.parents[index] {
                Some(upper) => {
                    if upper != index {
                        index = upper;
                        continue ;
                    }
                },
                None => {},
            }
            break ;
        }
        proof {
            self.lemma_find(index as int);
        }
        index
    }

    /// Marks `index` as touched; an untouched node becomes its own parent.
    /// Returns the parent of `index`.
    fn touch(&mut self, index: usize) -> (r: usize)
        requires
            old(self).wf(),
            index < old(self).size(),
        ensures
            final(self).wf(),
            final(self).size() == old(self).size(),
            final(self).parents@[index as int] == Some(r),
            final(self).rank@ == old(self).rank@,
            final(self).bound@ == old(self).bound@,
            forall|i: int| 0 <= i < final(self).size() ==> #[trigger] final(self).rep(i) == old(self).rep(i),
            old(self).parents@[index as int] is Some ==> final(self).parents@ == old(self).parents@
                && final(self).existed@ == old(self).existed@,
            old(self).parents@[index as int] is None ==> final(self).existed@ == old(
                self,
            ).existed@.push(index) && r == index,
            forall|x: usize|
                #[trigger] final(self).touched().contains(x) <==> (old(self).touched().contains(x)
                    || x == index),
    {
        match self.parents[index] {
            Some(p) => {
                assert(self.existed@.contains(index));
                p
            },
            None => {
                let ghost old_self = *self;
                self.parents.set(index, Some(index));
                self.existed.push(index);
                proof {
                    assert forall|i: int|
                        0 <= i < self.parents@.len() && #[trigger] self.parents@[i]
                            is Some implies self.existed@.contains(i as usize) by {
                        if i != index {
                            assert(old_self.parents@[i] is Some);
                            let k = choose|k: int|
                                0 <= k < old_self.existed@.len() && old_self.existed@[k] == i
                                    as usize;
                            assert(self.existed@[k] == i as usize);
                        } else {
                            assert(self.existed@[self.existed@.len() - 1] == index);
                        }
                    }
                    assert forall|k: int| 0 <= k < self.existed@.len() implies {
                        let e = #[trigger] self.existed@[k] as int;
                        0 <= e < self.parents@.len() && self.parents@[e] is Some
                    } by {
                        if k < old_self.existed@.len() {
                            assert(self.existed@[k] == old_self.existed@[k]);
                        }
                    }
                    assert(!old_self.existed@.contains(index));
                    assert forall|i: int| 0 <= i < self.parents@.len() implies #[trigger] self.rep(
                        i,
                    ) == old_self.rep(i) by {
                        Self::lemma_touch_rep(old_self, *self, index as int, i);
                    }
                    assert forall|x: usize|
                        #[trigger] self.touched().contains(x) <==> (old_self.touched().contains(x)
                            || x == index) by {
                        if self.touched().contains(x) && x != index {
                            let k = choose|k: int|
                                0 <= k < self.existed@.len() && self.existed@[k] == x;
                            assert(k < old_self.existed@.len());
                            assert(old_self.existed@[k] == x);
                        }
                        if old_self.touched().contains(x) {
                            let k = choose|k: int|
                                0 <= k < old_self.existed@.len() && old_self.existed@[k] == x;
                            assert(self.existed@[k] == x);
                        }
                        if x == index {
                            assert(self.existed@[self.existed@.len() - 1] == index);
                        }
                    }
                }
                index
            },
        }
    }

    proof fn lemma_touch_rep(a: Forest, b: Forest, t: int, i: int)
        requires
            a.wf(),
            b.wf(),
            0 <= t < a.size(),
            a.parents@[t] is None,
            b.parents@ == a.parents@.update(t, Some(t as usize)),
            b.rank@ == a.rank@,
            b.bound@ == a.bound@,
            0 <= i < a.size(),
        ensures
            b.rep(i) == a.rep(i),
        decreases a.bound@ - a.rank@[i],
    {
        a.lemma_find(i);
        b.lemma_find(i);
        if i == t {
            assert(is_root_in(b.parents@, i));
            assert(b.rep(i) == i);
            assert(a.rep(i) == i);
        } else if a.parents@[i] is Some && a.parents@[i]->0 != i {
            let p = a.parents@[i]->0 as int;
            assert(a.rank@[p] <= a.bound@);
            Self::lemma_touch_rep(a, b, t, p);
            assert(b.parents@[i] == a.parents@[i]);
            assert(b.rep(i) == b.rep(p));
            assert(a.rep(i) == a.rep(p));
        } else {
            assert(b.parents@[i] == a.parents@[i]);
            assert(is_root_in(b.parents@, i));
            assert(b.rep(i) == i);
        }
    }

    /// Points `j` directly at `r`, where `r` is `j`'s representative.
    proof fn lemma_compress_rep(a: Forest, b: Forest, j: int, r: int, i: int)
        requires
            a.wf(),
            b.wf(),
            0 <= j < a.size(),
            a.parents@[j] is Some,
            r == a.rep(j),
            b.parents@ == a.parents@.update(j, Some(r as usize)),
            b.rank@ == a.rank@,
            b.bound@ == a.bound@,
            0 <= i < a.size(),
        ensures
            b.rep(i) == a.rep(i),
        decreases a.bound@ - a.rank@[i],
    {
        a.lemma_find(i);
        b.lemma_find(i);
        a.lemma_find(j);
        if i == j {
            if r != j {
                a.lemma_find(r);
                b.lemma_find(r);
                assert(b.parents@[r] == a.parents@[r]);
            }
        } else if a.parents@[i] is Some && a.parents@[i]->0 != i {
            let p = a.parents@[i]->0 as int;
            assert(a.rank@[p] <= a.bound@);
            Self::lemma_compress_rep(a, b, j, r, p);
        }
    }

    /// The representative of `index`, after pointing every node on the way straight at it.
    fn root_mut(&mut self, index: usize) -> (r: usize)
        requires
            old(self).wf(),
            index < old(self).size(),
        ensures
            final(self).wf(),
            final(self).size() == old(self).size(),
            r == old(self).rep(index as int),
            r < final(self).size(),
            final(self).parents@[r as int] == Some(r),
            forall|i: int| 0 <= i < final(self).size() ==> #[trigger] final(self).rep(i) == old(self).rep(i),
            forall|x: usize|
                #[trigger] final(self).touched().contains(x) <==> (old(self).touched().contains(x)
                    || x == index),
            old(self).touched().len() <= final(self).touched().len() <= old(self).touched().len()
                + 1,
            forall|k: int|
                0 <= k < old(self).touched().len() ==> final(self).touched()[k] == old(
                    self,
                ).touched()[k],
            final(self).touched() == touch_seq(old(self).touched(), index),
    {
        let ghost orig = *self;
        proof {
            if orig.touched().contains(index) {
                let k = choose|k: int| 0 <= k < orig.existed@.len() && orig.existed@[k] == index;
                assert(orig.parents@[orig.existed@[k] as int] is Some);
            }
            if orig.parents@[index as int] is Some {
                assert(orig.existed@.contains(index));
            }
        }
        self.touch(index);
        let ghost touched_once = *self;
        let root = self.root(index);
        proof {
            self.lemma_find(index as int);
            if root != index {
                self.lemma_rep_touched(index as int);
            }
        }
        let mut cur = index;
        while cur != root
            invariant
                self.wf(),
                self.size() == orig.size(),
                cur < self.size(),
                root < self.size(),
                self.rep(cur as int) == root,
                self.parents@[cur as int] is Some,
                self.parents@[root as int] == Some(root),
                self.existed@ == touched_once.existed@,
                forall|i: int| 0 <= i < self.size() ==> #[trigger] self.rep(i) == orig.rep(i),
            decreases self.bound@ - self.rank@[cur as int],
        {
            proof {
                self.lemma_find(cur as int);
            }
            let upper = match self.parents[cur] {
                Some(u) => u,
                None => cur,
            };
            let ghost before = *self;
            self.parents.set(cur, Some(root));
            proof {
                assert(self.wf()) by {
                    assert forall|i: int|
                        0 <= i < self.parents@.len() && #[trigger] self.parents@[i]
                            is Some implies self.existed@.contains(i as usize) by {
                        assert(before.parents@[i] is Some);
                    }
                    assert forall|k: int| 0 <= k < self.existed@.len() implies {
                        let e = #[trigger] self.existed@[k] as int;
                        0 <= e < self.parents@.len() && self.parents@[e] is Some
                    } by {
                        let e = self.existed@[k] as int;
                        assert(before.parents@[e] is Some);
                    }
                    assert forall|i: int|
                        0 <= i < self.parents@.len() && #[trigger] self.parents@[i] is Some implies {
                        let p = self.parents@[i]->0 as int;
                        &&& 0 <= p < self.parents@.len()
                        &&& self.parents@[p] is Some
                        &&& p != i ==> self.rank@[i] < self.rank@[p]
                    } by {
                        assert(before.parents@[i] is Some);
                    }
                }
                assert forall|i: int| 0 <= i < self.size() implies #[trigger] self.rep(i)
                    == orig.rep(i) by {
                    Self::lemma_compress_rep(before, *self, cur as int, root as int, i);
                }
                self.lemma_find(upper as int);
                before.lemma_find(upper as int);
                before.lemma_find(cur as int);
            }
            cur = upper;
        }
        proof {
            assert(self.touched() == touched_once.touched());
            assert forall|x: usize|
                #[trigger] self.touched().contains(x) <==> (orig.touched().contains(x) || x == index) by {
                assert(touched_once.touched().contains(x) <==> (orig.touched().contains(x) || x
                    == index));
            }
        }
        root
    }

    /// Links `rt`'s class under `rs`, both representatives.
    proof fn lemma_link_rep(a: Forest, b: Forest, rt: int, rs: int, i: int)
        requires
            a.wf(),
            b.wf(),
            0 <= rt < a.size(),
            0 <= rs < a.size(),
            rt != rs,
            a.parents@[rt] == Some(rt as usize),
            a.parents@[rs] == Some(rs as usize),
            b.parents@ == a.parents@.update(rt, Some(rs as usize)),
            0 <= i < a.size(),
        ensures
            b.rep(i) == if a.rep(i) == rt {
                rs
            } else {
                a.rep(i)
            },
        decreases b.bound@ - b.rank@[i],
    {
        a.lemma_find(i);
        b.lemma_find(i);
        a.lemma_find(rs);
        b.lemma_find(rs);
        if i == rt {
        } else if a.parents@[i] is Some && a.parents@[i]->0 != i {
            let p = a.parents@[i]->0 as int;
            assert(b.parents@[i] == a.parents@[i]);
            assert(b.rank@[p] <= b.bound@);
            Self::lemma_link_rep(a, b, rt, rs, p);
        }
    }

    proof fn lemma_link_wf(a: Forest, b: Forest, rt: int, rs: int, new_rank: nat)
        requires
            a.wf(),
            0 <= rt < a.size(),
            0 <= rs < a.size(),
            rt != rs,
            a.parents@[rt] == Some(rt as usize),
            a.parents@[rs] == Some(rs as usize),
            new_rank >= a.rank@[rs],
            new_rank > a.rank@[rt],
            b.parents@ == a.parents@.update(rt, Some(rs as usize)),
            b.rank@ == a.rank@.update(rs, new_rank),
            b.bound@ == if new_rank > a.bound@ {
                new_rank
            } else {
                a.bound@
            },
            b.existed@ == a.existed@,
        ensures
            b.wf(),
    {
        assert forall|i: int|
            0 <= i < b.parents@.len() && #[trigger] b.parents@[i] is Some implies b.existed@.contains(
                i as usize,
            ) by {
            assert(a.parents@[i] is Some);
        }
        assert forall|k: int| 0 <= k < b.existed@.len() implies {
            let e = #[trigger] b.existed@[k] as int;
            0 <= e < b.parents@.len() && b.parents@[e] is Some
        } by {
            let e = b.existed@[k] as int;
            assert(a.parents@[e] is Some);
        }
        assert forall|i: int| 0 <= i < b.parents@.len() && #[trigger] b.parents@[i] is Some implies {
            let p = b.parents@[i]->0 as int;
            &&& 0 <= p < b.parents@.len()
            &&& b.parents@[p] is Some
            &&& p != i ==> b.rank@[i] < b.rank@[p]
        } by {
            assert(a.parents@[i] is Some);
            if i != rt {
                let p = a.parents@[i]->0 as int;
                assert(b.parents@[i] == a.parents@[i]);
                if p != i {
                    assert(a.rank@[i] < a.rank@[p]);
                }
            }
        }
        assert forall|i: int| 0 <= i < b.rank@.len() implies #[trigger] b.rank@[i] <= b.bound@ by {
            assert(a.rank@[i] <= a.bound@);
        }
    }

    /// Merges the classes of `this` and `that`; the class of `that` keeps its representative.
    pub fn join(&mut self, this: usize, that: usize)
        requires
            old(self).wf(),
            this < old(self).size(),
            that < old(self).size(),
        ensures
            final(self).wf(),
            final(self).size() == old(self).size(),
            forall|i: int|
                0 <= i < final(self).size() ==> #[trigger] final(self).rep(i) == if old(self).rep(i)
                    == old(self).rep(this as int) {
                    old(self).rep(that as int)
                } else {
                    old(self).rep(i)
                },
            forall|x: usize|
                #[trigger] final(self).touched().contains(x) <==> (old(self).touched().contains(x)
                    || x == this || x == that),
            old(self).touched().len() <= final(self).touched().len() <= old(self).touched().len()
                + 2,
            final(self).touched() == touch_seq(touch_seq(old(self).touched(), that), this),
            forall|k: int|
                0 <= k < old(self).touched().len() ==> final(self).touched()[k] == old(
                    self,
                ).touched()[k],
    {
        let ghost orig = *self;
        let rs = self.root_mut(that);
        let ghost mid = *self;
        let rt = self.root_mut(this);
        let ghost before = *self;
        proof {
            assert(mid.existed@.contains(rs)) by {
                assert(mid.parents@[rs as int] is Some);
            }
            assert(before.touched().contains(rs));
            assert(before.existed@.contains(rs));
            before.lemma_find(rs as int);
            before.lemma_find(rt as int);
            before.lemma_find(this as int);
        }
        if rt != rs {
            let ghost new_rank = if before.rank@[rs as int] > before.rank@[rt as int] {
                before.rank@[rs as int]
            } else {
                before.rank@[rt as int] + 1
            };
            self.parents.set(rt, Some(rs));
            self.rank = Ghost(self.rank@.update(rs as int, new_rank));
            self.bound = Ghost(
                if new_rank > self.bound@ {
                    new_rank
                } else {
                    self.bound@
                },
            );
            proof {
                Self::lemma_link_wf(before, *self, rt as int, rs as int, new_rank);
                assert forall|i: int| 0 <= i < self.size() implies #[trigger] self.rep(i) == if before.rep(
                    i,
                ) == rt as int {
                    rs as int
                } else {
                    before.rep(i)
                } by {
                    Self::lemma_link_rep(before, *self, rt as int, rs as int, i);
                }
            }
        }
    }

    /// Adds one untouched node, its own representative.
    pub fn push(&mut self) -> (r: usize)
        requires
            old(self).wf(),
            old(self).size() < usize::MAX,
        ensures
            final(self).wf(),
            r == old(self).size(),
            final(self).size() == old(self).size() + 1,
            final(self).touched() == old(self).touched(),
            final(self).rep(r as int) == r,
            forall|i: int| 0 <= i < old(self).size() ==> #[trigger] final(self).rep(i) == old(self).rep(i),
    {
        let ghost before = *self;
        let r = self.parents.len();
        self.parents.push(None);
        self.rank = Ghost(self.rank@.push(0nat));
        proof {
            assert(self.wf()) by {
                assert forall|i: int|
                    0 <= i < self.parents@.len() && #[trigger] self.parents@[i] is Some implies {
                    let p = self.parents@[i]->0 as int;
                    &&& 0 <= p < self.parents@.len()
                    &&& self.parents@[p] is Some
                    &&& p != i ==> self.rank@[i] < self.rank@[p]
                } by {
                    assert(before.parents@[i] is Some);
                }
                assert forall|i: int| 0 <= i < self.rank@.len() implies #[trigger] self.rank@[i]
                    <= self.bound@ by {
                    if i < before.rank@.len() {
                        assert(before.rank@[i] <= before.bound@);
                    }
                }
                assert forall|k: int| 0 <= k < self.existed@.len() implies {
                    let e = #[trigger] self.existed@[k] as int;
                    0 <= e < self.parents@.len() && self.parents@[e] is Some
                } by {
                    let e = self.existed@[k] as int;
                    assert(before.parents@[e] is Some);
                }
                assert forall|i: int|
                    0 <= i < self.parents@.len() && #[trigger] self.parents@[i] is Some implies self.existed@.contains(
                    i as usize,
                ) by {
                    assert(before.parents@[i] is Some);
                }
            }
            self.lemma_find(r as int);
            assert forall|i: int| 0 <= i < before.size() implies #[trigger] self.rep(i) == before.rep(
                i,
            ) by {
                Self::lemma_push_rep(before, *self, i);
            }
        }
        r
    }

    proof fn lemma_push_rep(a: Forest, b: Forest, i: int)
        requires
            a.wf(),
            b.wf(),
            b.parents@ == a.parents@.push(None),
            b.rank@ == a.rank@.push(0nat),
            b.bound@ == a.bound@,
            0 <= i < a.size(),
        ensures
            b.rep(i) == a.rep(i),
        decreases a.bound@ - a.rank@[i],
    {
        a.lemma_find(i);
        b.lemma_find(i);
        if a.parents@[i] is Some && a.parents@[i]->0 != i {
            let p = a.parents@[i]->0 as int;
            assert(a.rank@[p] <= a.bound@);
            assert(b.parents@[i] == a.parents@[i]);
            Self::lemma_push_rep(a, b, p);
        } else {
            assert(b.parents@[i] == a.parents@[i]);
        }
    }

    /// Forgets every node.
    pub fn clear(&mut self)
        ensures
            final(self).wf(),
            final(self).size() == 0,
            final(self).touched() == Seq::<usize>::empty(),
    {
        self.parents.clear();
        self.existed.clear();
        self.rank = Ghost(Seq::empty());
    }

    /// Whether a node belongs to the class represented by `r`.
    pub open spec fn in_class(self, r: int) -> spec_fn(usize) -> bool {
        |e: usize| self.rep(e as int) == r
    }

    /// The touched nodes that `r` represents, in the order they were reached.
    pub open spec fn class_of(self, r: int) -> Seq<usize> {
        self.touched().filter(self.in_class(r))
    }

    /// The distinct representatives of the touched nodes, in order of first appearance.
    fn representatives(&self) -> (r: Vec<usize>)
        requires
            self.wf(),
        ensures
            r@.no_duplicates(),
            forall|g: int| 0 <= g < r@.len() ==> #[trigger] r@[g] >= 0 && exists|k: int|
                #![trigger self.existed@[k]]
                0 <= k < self.existed@.len() && self.rep(self.existed@[k] as int) == r@[g] as int,
            forall|k: int|
                0 <= k < self.existed@.len() ==> r@.contains(self.rep(#[trigger] self.existed@[k] as int) as usize),
            forall|g: int| 0 <= g < r@.len() ==> #[trigger] r@[g] < self.size(),
    {
        let n = self.parents.len();
        let mut slot: Vec<bool> = Vec::new();
        let mut i: usize = 0;
        while i < n
            invariant
                i <= n,
                slot@.len() == i,
                forall|j: int| 0 <= j < i ==> !slot@[j],
            decreases n - i,
        {
            slot.push(false);
            i = i + 1;
        }
        let mut reps: Vec<usize> = Vec::new();
        let mut k: usize = 0;
        while k < self.existed.len()
            invariant
                self.wf(),
                n == self.size(),
                k <= self.existed@.len(),
                slot@.len() == n,
                reps@.no_duplicates(),
                forall|r: int| 0 <= r < n ==> (#[trigger] slot@[r] <==> reps@.contains(r as usize)),
                forall|g: int| 0 <= g < reps@.len() ==> #[trigger] reps@[g] < n,
                forall|g: int| 0 <= g < reps@.len() ==> exists|j: int|
                    0 <= j < k && self.rep(self.existed@[j] as int) == #[trigger] reps@[g] as int,
                forall|j: int|
                    0 <= j < k ==> reps@.contains(self.rep(#[trigger] self.existed@[j] as int) as usize),
            decreases self.existed@.len() - k,
        {
            let e = self.existed[k];
            let root = self.root(e);
            if !slot[root] {
                let ghost before = reps@;
                slot.set(root, true);
                reps.push(root);
                proof {
                    assert forall|g: int| 0 <= g < reps@.len() implies exists|j: int|
                        0 <= j < k + 1 && self.rep(self.existed@[j] as int) == #[trigger] reps@[g] as int by {
                        if g < before.len() {
                            assert(reps@[g] == before[g]);
                        } else {
                            assert(self.rep(self.existed@[k as int] as int) == reps@[g] as int);
                        }
                    }
                    assert forall|j: int| 0 <= j < k + 1 implies reps@.contains(
                        self.rep(#[trigger] self.existed@[j] as int) as usize,
                    ) by {
                        if j < k {
                            let g = choose|g: int| 0 <= g < before.len() && before[g] == self.rep(self.existed@[j] as int) as usize;
                            assert(reps@[g] == before[g]);
                        } else {
                            assert(reps@[reps@.len() - 1] == root);
                        }
                    }
                    assert forall|r: int| 0 <= r < n implies (#[trigger] slot@[r] <==> reps@.contains(r as usize)) by {
                        if reps@.contains(r as usize) && r != root {
                            let g = choose|g: int| 0 <= g < reps@.len() && reps@[g] == r as usize;
                            assert(before[g] == r as usize);
                        }
                        if before.contains(r as usize) {
                            let g = choose|g: int| 0 <= g < before.len() && before[g] == r as usize;
                            assert(reps@[g] == r as usize);
                        }
                        if r == root {
                            assert(reps@[reps@.len() - 1] == root);
                        }
                    }
                }
            } else {
                proof {
                    assert(reps@.contains(root));
                }
            }
            k = k + 1;
        }
        assert forall|g: int| 0 <= g < reps@.len() implies #[trigger] reps@[g] >= 0 && exists|k: int|
            #![trigger self.existed@[k]]
            0 <= k < self.existed@.len() && self.rep(self.existed@[k] as int) == reps@[g] as int by {
            let j = choose|j: int|
                0 <= j < self.existed@.len() && self.rep(self.existed@[j] as int) == reps@[g] as int;
        }
        reps
    }

    /// The touched nodes that `r` represents, in the order they were reached.
    fn members(&self, r: usize) -> (out: Vec<usize>)
        requires
            self.wf(),
        ensures
            out@ == self.existed@.filter(self.in_class(r as int)),
    {
        let mut out: Vec<usize> = Vec::new();
        let mut k: usize = 0;
        while k < self.existed.len()
            invariant
                self.wf(),
                k <= self.existed@.len(),
                out@ == self.existed@.take(k as int).filter(self.in_class(r as int)),
            decreases self.existed@.len() - k,
        {
            let e = self.existed[k];
            proof {
                reveal_with_fuel(Seq::filter, 1);
                assert(self.existed@.take(k + 1).drop_last() =~= self.existed@.take(k as int));
                assert(self.existed@.take(k + 1).last() == e);
            }
            if self.root(e) == r {
                out.push(e);
            }
            k = k + 1;
        }
        assert(self.existed@.take(self.existed@.len() as int) =~= self.existed@);
        out
    }

    /// The touched nodes, gathered by class: every touched node stands in exactly one
    /// group, and two of them share a group exactly when they share a representative.
    pub fn groups(&self) -> (r: Vec<Vec<usize>>)
        requires
            self.wf(),
        ensures
            is_partition(
                r@.map_values(|g: Vec<usize>| g@),
                self.touched(),
                |a: int, b: int| self.same(a, b),
            ),
            forall|h: int| 0 <= h < r@.len() ==> #[trigger] r@[h]@ == self.class_of(self.rep(r@[h]@[0] as int)),
    {
        let reps = self.representatives();
        let mut out: Vec<Vec<usize>> = Vec::new();
        let mut g: usize = 0;
        while g < reps.len()
            invariant
                self.wf(),
                g <= reps@.len(),
                out@.len() == g,
                forall|h: int| 0 <= h < g ==> #[trigger] out@[h]@ == self.existed@.filter(
                    self.in_class(reps@[h] as int),
                ),
            decreases reps@.len() - g,
        {
            let members = self.members(reps[g]);
            out.push(members);
            g = g + 1;
        }
        proof {
            let gs = out@.map_values(|g: Vec<usize>| g@);
            self.lemma_groups_partition(reps@, gs);
            assert forall|h: int| 0 <= h < out@.len() implies #[trigger] out@[h]@ == self.class_of(self.rep(out@[h]@[0] as int)) by {
                assert(gs[h] == out@[h]@);
                assert(gs[h].len() > 0);
                assert(self.rep(gs[h][0] as int) == reps@[h] as int);
            }
        }
        out
    }

    /// The touched nodes, gathered by class, the classes in increasing order of their
    /// representatives: every touched node stands in exactly one group, in the order the
    /// nodes were reached.
    pub fn sorted_groups(&self) -> (r: Vec<Vec<usize>>)
        requires
            self.wf(),
        ensures
            is_partition(
                r@.map_values(|g: Vec<usize>| g@),
                self.touched(),
                |a: int, b: int| self.same(a, b),
            ),
            forall|h: int| 0 <= h < r@.len() ==> #[trigger] r@[h]@ == self.class_of(self.rep(r@[h]@[0] as int)),
            forall|h1: int, h2: int|
                0 <= h1 < h2 < r@.len() ==> self.rep(#[trigger] r@[h1]@[0] as int) < self.rep(#[trigger] r@[h2]@[0] as int),
    {
        let n = self.parents.len();
        let mut out: Vec<Vec<usize>> = Vec::new();
        let ghost mut reps: Seq<usize> = Seq::empty();
        let mut x: usize = 0;
        while x < n
            invariant
                self.wf(),
                n == self.size(),
                x <= n,
                out@.len() == reps.len(),
                forall|h: int| 0 <= h < reps.len() ==> #[trigger] out@[h]@ == self.existed@.filter(self.in_class(reps[h] as int)),
                forall|h: int| 0 <= h < reps.len() ==> #[trigger] reps[h] < x,
                forall|h1: int, h2: int| 0 <= h1 < h2 < reps.len() ==> #[trigger] reps[h1] < #[trigger] reps[h2],
                forall|h: int| 0 <= h < reps.len() ==> self.parents@[#[trigger] reps[h] as int] is Some && self.rep(reps[h] as int) == reps[h] as int,
                forall|y: int| 0 <= y < x && #[trigger] self.parents@[y] is Some && self.rep(y) == y ==> reps.contains(y as usize),
            decreases n - x,
        {
            let touched = match self.parents[x] {
                Some(_) => true,
                None => false,
            };
            if touched && self.root(x) == x {
                let members = self.members(x);
                let ghost before = reps;
                out.push(members);
                proof {
                    reps = reps.push(x);
                    assert forall|y: int| 0 <= y < x + 1 && #[trigger] self.parents@[y] is Some && self.rep(y) == y implies reps.contains(y as usize) by {
                        if y < x {
                            let h = choose|h: int| 0 <= h < before.len() && before[h] == y as usize;
                            assert(reps[h] == before[h]);
                        } else {
                            assert(reps[reps.len() - 1] == x);
                        }
                    }
                }
            }
            x = x + 1;
        }
        proof {
            let gs = out@.map_values(|g: Vec<usize>| g@);
            assert(reps.no_duplicates());
            assert forall|g: int| 0 <= g < reps.len() implies #[trigger] reps[g] >= 0 && exists|k: int|
                #![trigger self.existed@[k]]
                0 <= k < self.existed@.len() && self.rep(self.existed@[k] as int) == reps[g] as int by {
                assert(self.existed@.contains(reps[g]));
                let k = choose|k: int| 0 <= k < self.existed@.len() && self.existed@[k] == reps[g];
                assert(self.rep(self.existed@[k] as int) == reps[g] as int);
            }
            assert forall|k: int| 0 <= k < self.existed@.len() implies reps.contains(self.rep(#[trigger] self.existed@[k] as int) as usize) by {
                let e = self.existed@[k] as int;
                self.lemma_find(e);
            }
            self.lemma_groups_partition(reps, gs);
            assert forall|h: int| 0 <= h < out@.len() implies #[trigger] out@[h]@ == self.class_of(self.rep(out@[h]@[0] as int)) by {
                assert(gs[h] == out@[h]@);
                assert(gs[h].len() > 0);
                assert(self.rep(gs[h][0] as int) == reps[h] as int);
            }
            assert forall|h1: int, h2: int|
                0 <= h1 < h2 < out@.len() implies self.rep(#[trigger] out@[h1]@[0] as int) < self.rep(#[trigger] out@[h2]@[0] as int) by {
                assert(gs[h1] == out@[h1]@);
                assert(gs[h2] == out@[h2]@);
                assert(gs[h1].len() > 0 && gs[h2].len() > 0);
                assert(self.rep(gs[h1][0] as int) == reps[h1] as int);
                assert(self.rep(gs[h2][0] as int) == reps[h2] as int);
            }
        }
        out
    }

    proof fn lemma_groups_partition(self, reps: Seq<usize>, groups: Seq<Seq<usize>>)
        requires
            self.wf(),
            reps.no_duplicates(),
            groups.len() == reps.len(),
            forall|h: int| 0 <= h < reps.len() ==> #[trigger] groups[h] == self.existed@.filter(
                self.in_class(reps[h] as int),
            ),
            forall|g: int| 0 <= g < reps.len() ==> #[trigger] reps[g] >= 0 && exists|k: int|
                #![trigger self.existed@[k]]
                0 <= k < self.existed@.len() && self.rep(self.existed@[k] as int) == reps[g] as int,
            forall|k: int|
                0 <= k < self.existed@.len() ==> reps.contains(self.rep(#[trigger] self.existed@[k] as int) as usize),
            forall|g: int| 0 <= g < reps.len() ==> #[trigger] reps[g] < self.size(),
        ensures
            is_partition(groups, self.touched(), |a: int, b: int| self.same(a, b)),
            forall|h: int, j: int| 0 <= h < groups.len() && 0 <= j < groups[h].len() ==> self.rep(#[trigger] groups[h][j] as int) == reps[h] as int,
    {
        let s = self.existed@;
        assert forall|h: int| 0 <= h < groups.len() implies {
            &&& forall|j: int| 0 <= j < groups[h].len() ==> s.contains(#[trigger] groups[h][j])
                && self.rep(groups[h][j] as int) == reps[h] as int
            &&& groups[h].no_duplicates()
        } by {
            lemma_filter_sub(s, self.in_class(reps[h] as int));
        }
        assert forall|g: int| 0 <= g < groups.len() implies #[trigger] groups[g].len() > 0 by {
            let k = choose|k: int| 0 <= k < s.len() && self.rep(s[k] as int) == reps[g] as int;
            s.lemma_filter_contains(self.in_class(reps[g] as int), k);
        }
        assert forall|e: usize| s.contains(e) implies exists|g: int, j: int|
            0 <= g < groups.len() && 0 <= j < groups[g].len() && #[trigger] groups[g][j] == e by {
            let k = choose|k: int| 0 <= k < s.len() && s[k] == e;
            assert(reps.contains(self.rep(s[k] as int) as usize));
            let g = choose|g: int| 0 <= g < reps.len() && reps[g] == self.rep(s[k] as int) as usize;
            self.lemma_find(e as int);
            s.lemma_filter_contains(self.in_class(reps[g] as int), k);
            let j = choose|j: int| 0 <= j < groups[g].len() && groups[g][j] == e;
        }
        assert forall|g1: int, j1: int, g2: int, j2: int|
            0 <= g1 < groups.len() && 0 <= j1 < groups[g1].len() && 0 <= g2 < groups.len() && 0
                <= j2 < groups[g2].len() && #[trigger] groups[g1][j1] == #[trigger] groups[g2][j2] implies g1
                == g2 && j1 == j2 by {
            assert(self.rep(groups[g1][j1] as int) == reps[g1] as int);
            assert(self.rep(groups[g2][j2] as int) == reps[g2] as int);
        }
        assert forall|g1: int, j1: int, g2: int, j2: int|
            0 <= g1 < groups.len() && 0 <= j1 < groups[g1].len() && 0 <= g2 < groups.len() && 0
                <= j2 < groups[g2].len() implies (self.same(
                #[trigger] groups[g1][j1] as int,
                #[trigger] groups[g2][j2] as int,
            ) <==> g1 == g2) by {
            assert(self.rep(groups[g1][j1] as int) == reps[g1] as int);
            assert(self.rep(groups[g2][j2] as int) == reps[g2] as int);
        }
    }
}

/// Filtering by two predicates that agree on the elements gives one sequence.
pub proof fn lemma_filter_agree(s: Seq<usize>, p: spec_fn(usize) -> bool, q: spec_fn(usize) -> bool)
    requires
        forall|i: int| 0 <= i < s.len() ==> p(#[trigger] s[i]) == q(s[i]),
    ensures
        s.filter(p) == s.filter(q),
    decreases s.len(),
{
    reveal_with_fuel(Seq::filter, 1);
    if s.len() > 0 {
        let r = s.drop_last();
        assert forall|i: int| 0 <= i < r.len() implies p(#[trigger] r[i]) == q(r[i]) by {
            assert(r[i] == s[i]);
        }
        lemma_filter_agree(r, p, q);
        assert(p(s[s.len() - 1]) == q(s[s.len() - 1]));
    }
}

/// The elements kept by `filter` come from `s`, and `filter` keeps `s` free of duplicates.
pub proof fn lemma_filter_sub(s: Seq<usize>, p: spec_fn(usize) -> bool)
    ensures
        forall|j: int| 0 <= j < s.filter(p).len() ==> s.contains(#[trigger] s.filter(p)[j]) && p(
            s.filter(p)[j],
        ),
        s.no_duplicates() ==> s.filter(p).no_duplicates(),
    decreases s.len(),
{
    reveal_with_fuel(Seq::filter, 1);
    if s.len() > 0 {
        let t = s.drop_last();
        lemma_filter_sub(t, p);
        let f = s.filter(p);
        assert forall|j: int| 0 <= j < f.len() implies s.contains(#[trigger] f[j]) && p(f[j]) by {
            if j < t.filter(p).len() {
                assert(f[j] == t.filter(p)[j]);
                let k = choose|k: int| 0 <= k < t.len() && t[k] == f[j];
                assert(s[k] == f[j]);
            } else {
                assert(f[j] == s.last());
                assert(s[s.len() - 1] == f[j]);
            }
        }
        if s.no_duplicates() {
            assert(t.no_duplicates()) by {
                assert forall|i: int, j: int|
                    0 <= i < t.len() && 0 <= j < t.len() && i != j implies t[i] != t[j] by {
                    assert(t[i] == s[i] && t[j] == s[j]);
                }
            }
            if p(s.last()) {
                assert forall|j: int| 0 <= j < t.filter(p).len() implies #[trigger] t.filter(p)[j]
                    != s.last() by {
                    let k = choose|k: int| 0 <= k < t.len() && t[k] == t.filter(p)[j];
                    assert(s[k] == t[k]);
                }
            }
        }
    }
}

/// An element stands at two places of `s` only if it is the same place.
pub open spec fn flat_distinct(s: Seq<Seq<usize>>) -> bool {
    forall|g1: int, j1: int, g2: int, j2: int|
        0 <= g1 < s.len() && 0 <= j1 < s[g1].len() && 0 <= g2 < s.len() && 0 <= j2 < s[g2].len()
            && #[trigger] s[g1][j1] == #[trigger] s[g2][j2] ==> g1 == g2 && j1 == j2
}

/// `groups` splits `elements` into nonempty groups that hold each element exactly once,
/// two elements sharing a group exactly when `same` relates them.
pub open spec fn is_partition(
    groups: Seq<Seq<usize>>,
    elements: Seq<usize>,
    same: spec_fn(int, int) -> bool,
) -> bool {
    &&& forall|g: int| 0 <= g < groups.len() ==> #[trigger] groups[g].len() > 0
    &&& flat_distinct(groups)
    &&& forall|g: int, j: int|
        0 <= g < groups.len() && 0 <= j < groups[g].len() ==> elements.contains(
            #[trigger] groups[g][j],
        )
    &&& forall|e: usize|
        elements.contains(e) ==> exists|g: int, j: int|
            0 <= g < groups.len() && 0 <= j < groups[g].len() && #[trigger] groups[g][j] == e
    &&& forall|g1: int, j1: int, g2: int, j2: int|
        0 <= g1 < groups.len() && 0 <= j1 < groups[g1].len() && 0 <= g2 < groups.len() && 0 <= j2
            < groups[g2].len() ==> (same(#[trigger] groups[g1][j1] as int, #[trigger] groups[g2][j2] as int)
            <==> g1 == g2)
}

} // verus!
