use vstd::prelude::*;

use super::movement::Movement;

verus! {

/// The state of a vote: `Some(None)` before any choice, `Some(Some(c))` while every
/// choice was `c`, `None` once two choices differed.
pub type Vote = Option<Option<Option<Movement>>>;

/// The vote after one more choice.
pub open spec fn vote_step(v: Vote, choice: Option<Movement>) -> Vote {
    match v {
        Some(Some(m)) => if m != choice {
            None
        } else {
            v
        },
        Some(None) => Some(Some(choice)),
        None => None,
    }
}

/// The vote after the choices of `s`, in order, from the start.
pub open spec fn vote_of(s: Seq<Option<Movement>>) -> Vote
    decreases s.len(),
{
    if s.len() == 0 {
        Some(None)
    } else {
        vote_step(vote_of(s.drop_last()), s.last())
    }
}

/// Every choice of `s` is `c`.
pub open spec fn all_equal(s: Seq<Option<Movement>>, c: Option<Movement>) -> bool {
    forall|i: int| 0 <= i < s.len() ==> s[i] == c
}

/// A vote over several choices: it agrees on a choice while all choices are the same.
#[derive(Clone, Copy, Debug)]
pub struct Agreement(Vote);

impl View for Agreement {
    type V = Vote;

    closed spec fn view(&self) -> Vote {
        self.0
    }
}

impl Agreement {
    pub fn new() -> (r: Self)
        ensures
            r@ == Some(None::<Option<Movement>>),
    {
        Agreement(Some(None))
    }

    pub fn submit(&mut self, choice: Option<Movement>)
        ensures
            final(self)@ == vote_step(old(self)@, choice),
    {
        match self.0 {
            Some(Some(movement)) => {
                if movement != choice {
                    self.0 = None;
                }
            },
            Some(None) => {
                self.0 = Some(Some(choice));
            },
            None => {},
        }
    }

    /// Two choices differed.
    pub fn fail(&self) -> (r: bool)
        ensures
            r == (self@ is None),
    {
        self.0.is_none()
    }

    /// The agreed choice: `Some(c)` when every choice so far was `c`, `None` before any
    /// choice or once two differed.
    pub fn result(&self) -> (r: Option<Option<Movement>>)
        ensures
            r == match self@ {
                Some(x) => x,
                None => None,
            },
    {
        match self.0 {
            Some(x) => x,
            None => None,
        }
    }
}

/// The vote over a sequence of choices agrees on `c` exactly when there is a choice
/// and every choice is `c`, and fails exactly when two choices differ.
pub proof fn lemma_vote_of(s: Seq<Option<Movement>>)
    ensures
        s.len() == 0 ==> vote_of(s) == Some(None::<Option<Movement>>),
        s.len() > 0 && all_equal(s, s[0]) ==> vote_of(s) == Some(Some(s[0])),
        s.len() > 0 && !all_equal(s, s[0]) ==> vote_of(s) is None,
    decreases s.len(),
{
    if s.len() > 1 {
        let t = s.drop_last();
        lemma_vote_of(t);
        assert(t[0] == s[0]);
        if all_equal(s, s[0]) {
            assert(s[s.len() - 1] == s[0]);
            assert forall|i: int| 0 <= i < t.len() implies #[trigger] t[i] == t[0] by {
                assert(t[i] == s[i]);
            }
        } else if all_equal(t, t[0]) {
            let i = choose|i: int| 0 <= i < s.len() && #[trigger] s[i] != s[0];
            if i < t.len() {
                assert(t[i] == s[i]);
            }
        }
    } else if s.len() == 1 {
        assert(s.drop_last().len() == 0);
        assert(vote_of(s.drop_last()) == Some(None::<Option<Movement>>));
    }
}

/// A motion: the movement a cube chooses at each turn, or the end of its moves.
#[derive(Debug)]
pub struct Motion(Any);

#[derive(Debug)]
enum Any {
    Stop,
    Move(Move),
    Team(Team),
}

/// A fixed list of `(choice, turns)`, played in order, maybe in a loop.
#[derive(Debug)]
struct Move {
    looping: bool,
    actions: Vec<(Option<Movement>, usize)>,
    count: usize,
    index: usize,
}

/// Several motions voting at each turn.
#[derive(Debug)]
struct Team(Vec<Any>);

/// A team of fewer than two members is replaced by its member, or by `Stop`.
spec fn slim(a: Any) -> Any {
    match a {
        Any::Team(t) => if t.0@.len() == 0 {
            Any::Stop
        } else if t.0@.len() == 1 {
            t.0@[0]
        } else {
            a
        },
        _ => a,
    }
}

/// One turn of a list of moves: the new state and the choice, or `None` at the end.
spec fn move_next(m: Move) -> (Move, Option<Option<Movement>>) {
    let n = m.actions@.len();
    if m.index as int >= n {
        (m, None)
    } else {
        let o = m.actions@[m.index as int].0;
        let times = m.actions@[m.index as int].1;
        let count = m.count + 1;
        if count == times {
            let index = if m.index + 1 == n && m.looping {
                0
            } else {
                m.index + 1
            };
            (Move { looping: m.looping, actions: m.actions, count: 0, index: index as usize }, Some(o))
        } else {
            (Move { looping: m.looping, actions: m.actions, count: count as usize, index: m.index }, Some(o))
        }
    }
}

/// What a motion chooses this turn: `Some(choice)`, or `None` once it has ended.
spec fn any_out(a: Any) -> Option<Option<Movement>>
    decreases a, 1int,
{
    match a {
        Any::Stop => None,
        Any::Move(m) => move_next(m).1,
        Any::Team(t) => team_out(t.0@),
    }
}

/// How many of the members have not ended.
spec fn members_alive(s: Seq<Any>) -> nat
    decreases s, 0int,
{
    if s.len() == 0 {
        0
    } else {
        members_alive(s.drop_last()) + if any_out(s.last()) is Some {
            1nat
        } else {
            0nat
        }
    }
}

/// The vote over the choices of the members that have not ended.
spec fn members_vote(s: Seq<Any>) -> Vote
    decreases s, 0int,
{
    if s.len() == 0 {
        Some(None)
    } else {
        let v = members_vote(s.drop_last());
        match any_out(s.last()) {
            Some(c) => vote_step(v, c),
            None => v,
        }
    }
}

/// What a team chooses: the agreed choice of its live members, no movement when they
/// disagree, and `None` once all have ended.
spec fn team_out(s: Seq<Any>) -> Option<Option<Movement>>
    decreases s, 1int,
{
    if members_alive(s) == 0 {
        None
    } else {
        match members_vote(s) {
            Some(Some(c)) => Some(c),
            _ => Some(None),
        }
    }
}

/// `b` is `a` one turn later.
spec fn any_step(a: Any, b: Any) -> bool
    decreases a, 1int,
{
    match a {
        Any::Stop => b is Stop,
        Any::Move(m) => b == Any::Move(move_next(m).0),
        Any::Team(t) => b matches Any::Team(t2) && members_step(t.0@, t2.0@),
    }
}

/// `s2` holds, in order, the members of `s` that have not ended, each one turn later.
spec fn members_step(s: Seq<Any>, s2: Seq<Any>) -> bool
    decreases s, 0int,
{
    if s.len() == 0 {
        s2.len() == 0
    } else if any_out(s.last()) is Some {
        s2.len() > 0 && any_step(s.last(), s2.last()) && members_step(s.drop_last(), s2.drop_last())
    } else {
        members_step(s.drop_last(), s2)
    }
}

/// No counter is about to overflow.
spec fn can_step(a: Any) -> bool
    decreases a, 1int,
{
    match a {
        Any::Stop => true,
        Any::Move(m) => m.count < usize::MAX,
        Any::Team(t) => members_can_step(t.0@),
    }
}

spec fn members_can_step(s: Seq<Any>) -> bool
    decreases s, 0int,
{
    if s.len() == 0 {
        true
    } else {
        can_step(s.last()) && members_can_step(s.drop_last())
    }
}

/// Every list of moves asks for at least one turn per choice, and counts below that.
spec fn well_counted(a: Any) -> bool
    decreases a, 1int,
{
    match a {
        Any::Stop => true,
        Any::Move(m) => {
            &&& forall|i: int| 0 <= i < m.actions@.len() ==> #[trigger] m.actions@[i].1 >= 1
            &&& m.index <= m.actions@.len()
            &&& m.index < m.actions@.len() ==> m.count < m.actions@[m.index as int].1
            &&& m.index == m.actions@.len() ==> m.count == 0
        },
        Any::Team(t) => members_well_counted(t.0@),
    }
}

spec fn members_well_counted(s: Seq<Any>) -> bool
    decreases s, 0int,
{
    if s.len() == 0 {
        true
    } else {
        well_counted(s.last()) && members_well_counted(s.drop_last())
    }
}

/// A well-counted motion has no counter about to overflow.
proof fn lemma_counted_can_step(a: Any)
    requires
        well_counted(a),
    ensures
        can_step(a),
    decreases a, 1int,
{
    match a {
        Any::Team(t) => lemma_members_counted_can_step(t.0@),
        _ => {},
    }
}

proof fn lemma_members_counted_can_step(s: Seq<Any>)
    requires
        members_well_counted(s),
    ensures
        members_can_step(s),
    decreases s, 0int,
{
    if s.len() > 0 {
        lemma_counted_can_step(s.last());
        lemma_members_counted_can_step(s.drop_last());
    }
}

proof fn lemma_members_can_step(s: Seq<Any>)
    ensures
        members_can_step(s) <==> forall|j: int| 0 <= j < s.len() ==> can_step(#[trigger] s[j]),
    decreases s.len(),
{
    if s.len() > 0 {
        lemma_members_can_step(s.drop_last());
        if forall|j: int| 0 <= j < s.drop_last().len() ==> can_step(#[trigger] s.drop_last()[j]) {
            assert forall|j: int| 0 <= j < s.len() - 1 implies can_step(#[trigger] s[j]) by {
                assert(s[j] == s.drop_last()[j]);
            }
        }
        if forall|j: int| 0 <= j < s.len() ==> can_step(#[trigger] s[j]) {
            assert forall|j: int| 0 <= j < s.drop_last().len() implies can_step(#[trigger] s.drop_last()[j]) by {
                assert(s[j] == s.drop_last()[j]);
            }
            assert(can_step(s[s.len() - 1]));
        }
    }
}

proof fn lemma_members_well_counted(s: Seq<Any>)
    ensures
        members_well_counted(s) <==> forall|j: int| 0 <= j < s.len() ==> well_counted(#[trigger] s[j]),
    decreases s.len(),
{
    if s.len() > 0 {
        lemma_members_well_counted(s.drop_last());
        if forall|j: int| 0 <= j < s.drop_last().len() ==> well_counted(#[trigger] s.drop_last()[j]) {
            assert forall|j: int| 0 <= j < s.len() - 1 implies well_counted(#[trigger] s[j]) by {
                assert(s[j] == s.drop_last()[j]);
            }
        }
        if forall|j: int| 0 <= j < s.len() ==> well_counted(#[trigger] s[j]) {
            assert forall|j: int| 0 <= j < s.drop_last().len() implies well_counted(#[trigger] s.drop_last()[j]) by {
                assert(s[j] == s.drop_last()[j]);
            }
            assert(well_counted(s[s.len() - 1]));
        }
    }
}

/// A well-counted motion can take its next turn, and stays well-counted after it.
proof fn lemma_well_counted(a: Any, b: Any)
    ensures
        well_counted(a) ==> can_step(a),
        well_counted(a) && any_step(a, b) ==> well_counted(b),
    decreases a, 1int,
{
    match a {
        Any::Stop => {},
        Any::Move(m) => {},
        Any::Team(t) => {
            if well_counted(a) {
                lemma_members_well_counted(t.0@);
                lemma_members_can_step(t.0@);
                assert forall|j: int| 0 <= j < t.0@.len() implies can_step(#[trigger] t.0@[j]) by {
                    lemma_well_counted(t.0@[j], t.0@[j]);
                }
                if any_step(a, b) {
                    let t2 = b->Team_0;
                    lemma_members_step_well_counted(t.0@, t2.0@);
                }
            }
        },
    }
}

proof fn lemma_members_step_well_counted(s: Seq<Any>, s2: Seq<Any>)
    requires
        members_well_counted(s),
        members_step(s, s2),
    ensures
        members_well_counted(s2),
    decreases s, 0int,
{
    if s.len() > 0 {
        if any_out(s.last()) is Some {
            lemma_well_counted(s.last(), s2.last());
            lemma_members_step_well_counted(s.drop_last(), s2.drop_last());
            assert(s2.drop_last().push(s2.last()) =~= s2);
        } else {
            lemma_members_step_well_counted(s.drop_last(), s2);
        }
    }
}

impl Move {
    fn next(&mut self) -> (r: Option<Option<Movement>>)
        requires
            old(self).count < usize::MAX,
        ensures
            (*final(self), r) == move_next(*old(self)),
    {
        let n = self.actions.len();
        if self.index >= n {
            return None;
        }
        let (o, m) = self.actions[self.index];
        self.count = self.count + 1;
        if self.count == m {
            self.index = self.index + 1;
            if self.index == n {
                if self.looping {
                    self.index = 0;
                }
            }
            self.count = 0;
        }
        Some(o)
    }
}

impl Any {
    fn next(&mut self) -> (r: Option<Option<Movement>>)
        requires
            can_step(*old(self)),
        ensures
            any_step(*old(self), *final(self)),
            r == any_out(*old(self)),
        decreases *old(self),
    {
        match self {
            Any::Stop => None,
            Any::Move(x) => x.next(),
            Any::Team(t) => {
                let ghost s0 = t.0@;
                proof {
                    lemma_members_can_step(s0);
                    assert(*old(self) is Team);
                    assert(old(self)->Team_0.0@ == s0);
                }
                let mut members: Vec<Any> = Vec::new();
                std::mem::swap(&mut members, &mut t.0);
                let mut kept: Vec<Any> = Vec::new();
                let mut vote = Agreement::new();
                let ghost mut i: int = 0;
                while members.len() > 0
                    invariant
                        0 <= i <= s0.len(),
                        *old(self) is Team,
                        old(self)->Team_0.0@ == s0,
                        members@ == s0.skip(i),
                        forall|j: int| 0 <= j < s0.len() ==> can_step(#[trigger] s0[j]),
                        members_step(s0.take(i), kept@),
                        vote@ == members_vote(s0.take(i)),
                        kept@.len() == members_alive(s0.take(i)),
                    decreases members@.len(),
                {
                    let mut one = members.remove(0);
                    proof {
                        assert(one == s0[i]);
                        assert(decreases_to!(*old(self) => one)) by {
                            let tt = old(self)->Team_0;
                            assert(decreases_to!(*old(self) => tt));
                            assert(decreases_to!(tt => tt.0));
                            assert(decreases_to!(tt.0 => tt.0@));
                            assert(decreases_to!(tt.0@ => tt.0@[i]));
                        }
                    }
                    let ghost kept_before = kept@;
                    let out = one.next();
                    match out {
                        Some(choice) => {
                            vote.submit(choice);
                            kept.push(one);
                        },
                        None => {},
                    }
                    proof {
                        let t0 = s0.take(i);
                        let t1 = s0.take(i + 1);
                        assert(t1.drop_last() =~= t0);
                        assert(t1.last() == s0[i]);
                        if out is Some {
                            assert(kept@.drop_last() =~= kept_before);
                        }
                        assert(members@ =~= s0.skip(i + 1));
                        i = i + 1;
                    }
                }
                proof {
                    assert(s0.take(s0.len() as int) =~= s0);
                }
                t.0 = kept;
                if t.0.len() == 0 {
                    None
                } else {
                    match vote.result() {
                        Some(c) => Some(c),
                        None => Some(None),
                    }
                }
            },
        }
    }
}

impl Any {
    /// What this motion chooses this turn, without moving on.
    fn peek(&self) -> (r: Option<Option<Movement>>)
        ensures
            r == any_out(*self),
        decreases *self,
    {
        match self {
            Any::Stop => None,
            Any::Move(m) => {
                if m.index < m.actions.len() {
                    Some(m.actions[m.index].0)
                } else {
                    None
                }
            },
            Any::Team(t) => {
                let ghost s0 = t.0@;
                let mut vote = Agreement::new();
                let mut alive = false;
                let mut i: usize = 0;
                while i < t.0.len()
                    invariant
                        *self is Team,
                        self->Team_0.0@ == s0,
                        t.0@ == s0,
                        i <= s0.len(),
                        vote@ == members_vote(s0.take(i as int)),
                        alive == (members_alive(s0.take(i as int)) > 0),
                    decreases s0.len() - i,
                {
                    let one = &t.0[i];
                    proof {
                        assert(decreases_to!(*self => *one)) by {
                            let tt = self->Team_0;
                            assert(decreases_to!(*self => tt));
                            assert(decreases_to!(tt => tt.0));
                            assert(decreases_to!(tt.0 => tt.0@));
                            assert(decreases_to!(tt.0@ => tt.0@[i as int]));
                        }
                    }
                    let out = one.peek();
                    match out {
                        Some(choice) => {
                            vote.submit(choice);
                            alive = true;
                        },
                        None => {},
                    }
                    proof {
                        let t1 = s0.take(i + 1);
                        assert(t1.drop_last() =~= s0.take(i as int));
                        assert(t1.last() == s0[i as int]);
                    }
                    i = i + 1;
                }
                proof {
                    assert(s0.take(s0.len() as int) =~= s0);
                }
                if !alive {
                    None
                } else {
                    match vote.result() {
                        Some(c) => Some(c),
                        None => Some(None),
                    }
                }
            },
        }
    }
}

/// A team of fewer than two members is replaced by its member, or by `Stop`.
fn slim_exec(a: Any) -> (r: Any)
    ensures
        r == slim(a),
        can_step(a) ==> can_step(r),
        well_counted(a) ==> well_counted(r),
{
    match a {
        Any::Team(mut t) => {
            if t.0.len() == 0 {
                Any::Stop
            } else if t.0.len() == 1 {
                proof {
                    lemma_members_can_step(t.0@);
                    lemma_members_well_counted(t.0@);
                }
                t.0.remove(0)
            } else {
                Any::Team(t)
            }
        },
        other => other,
    }
}

/// A team of ready motions is ready, and a team of well-counted ones is well-counted.
proof fn lemma_filter_ready(all: Seq<Motion>, picked: Seq<Motion>)
    requires
        picked == all.filter(|m: Motion| !m.is_stop()),
    ensures
        (forall|i: int| 0 <= i < all.len() ==> (#[trigger] all[i]).ready()) ==> members_can_step(picked.map_values(|m: Motion| m.0)),
        (forall|i: int| 0 <= i < all.len() ==> (#[trigger] all[i]).well_counted()) ==> members_well_counted(picked.map_values(|m: Motion| m.0)),
{
    let ms = picked.map_values(|m: Motion| m.0);
    lemma_members_can_step(ms);
    lemma_members_well_counted(ms);
    lemma_filter_sub_motion(all, |m: Motion| !m.is_stop());
    if forall|i: int| 0 <= i < all.len() ==> (#[trigger] all[i]).ready() {
        assert forall|j: int| 0 <= j < ms.len() implies can_step(#[trigger] ms[j]) by {
            let k = choose|k: int| 0 <= k < all.len() && all[k] == picked[j];
            assert(all[k].ready());
            slim_can_step(all[k].0);
        }
    }
    if forall|i: int| 0 <= i < all.len() ==> (#[trigger] all[i]).well_counted() {
        assert forall|j: int| 0 <= j < ms.len() implies well_counted(#[trigger] ms[j]) by {
            let k = choose|k: int| 0 <= k < all.len() && all[k] == picked[j];
            assert(all[k].well_counted());
        }
    }
}

/// Slimming keeps a motion's readiness, and a motion is ready when its slimmed form is
/// and it is not a team.
proof fn slim_can_step(a: Any)
    ensures
        can_step(slim(a)) <==> can_step(a),
{
    if let Any::Team(t) = a {
        if t.0@.len() == 1 {
            assert(t.0@.drop_last().len() == 0);
            assert(members_can_step(t.0@.drop_last()));
            assert(t.0@.last() == t.0@[0]);
        }
        if t.0@.len() == 0 {
            assert(members_can_step(t.0@));
        }
    }
}

proof fn lemma_filter_sub_motion(s: Seq<Motion>, p: spec_fn(Motion) -> bool)
    ensures
        forall|j: int| 0 <= j < s.filter(p).len() ==> exists|k: int| 0 <= k < s.len() && s[k] == #[trigger] s.filter(p)[j],
    decreases s.len(),
{
    reveal_with_fuel(Seq::filter, 1);
    if s.len() > 0 {
        let t = s.drop_last();
        lemma_filter_sub_motion(t, p);
        let f = s.filter(p);
        assert forall|j: int| 0 <= j < f.len() implies exists|k: int| 0 <= k < s.len() && s[k] == #[trigger] f[j] by {
            if j < t.filter(p).len() {
                assert(f[j] == t.filter(p)[j]);
                let k = choose|k: int| 0 <= k < t.len() && t[k] == t.filter(p)[j];
                assert(s[k] == f[j]);
            } else {
                assert(s[s.len() - 1] == f[j]);
            }
        }
    }
}

impl Motion {
    /// The choice of the next turn: `Some(choice)`, or `None` once the motion has ended.
    pub closed spec fn out(self) -> Option<Option<Movement>> {
        any_out(slim(self.0))
    }

    /// `next` is this motion one turn later.
    pub closed spec fn advances_to(self, next: Motion) -> bool {
        any_step(slim(self.0), next.0)
    }

    /// No turn counter is about to overflow.
    pub closed spec fn ready(self) -> bool {
        can_step(slim(self.0))
    }

    /// Every choice lasts at least one turn and every counter is below its limit.
    pub closed spec fn well_counted(self) -> bool {
        well_counted(self.0)
    }

    /// A well-counted motion is ready for its next turn.
    pub proof fn lemma_counted_ready(self)
        requires
            self.well_counted(),
        ensures
            self.ready(),
    {
        lemma_counted_can_step(self.0);
        match self.0 {
            Any::Team(t) => {
                if t.0@.len() == 1 {
                    assert(t.0@.last() == t.0@[0]);
                    lemma_counted_can_step(t.0@[0]);
                }
            },
            _ => {},
        }
    }

    /// A well-counted motion stays well counted, and so ready, a turn later.
    pub proof fn lemma_advance_counted(self, next: Motion)
        requires
            self.well_counted(),
            self.advances_to(next),
        ensures
            next.well_counted(),
            next.ready(),
    {
        match self.0 {
            Any::Team(t) => {
                lemma_members_well_counted(t.0@);
                if t.0@.len() == 1 {
                    assert(well_counted(t.0@[0]));
                }
            },
            _ => {},
        }
        lemma_well_counted(slim(self.0), next.0);
        next.lemma_counted_ready();
    }

    /// A team chooses what its live members agree on: if this motion is the team of `ms`,
    /// it chooses `team_choice(ms)`.
    pub proof fn lemma_team_out(self, ms: Seq<Motion>)
        requires
            self.is_team_of(ms),
        ensures
            self.out() == team_choice(ms),
    {
        if ms.len() == 0 {
        } else if ms.len() == 1 {
            let m = ms[0];
            assert(ms.drop_last() =~= Seq::<Motion>::empty());
            assert(ms.last() == m);
            reveal_with_fuel(live_choices, 2);
            reveal_with_fuel(vote_of, 2);
        } else {
            lemma_members_live(ms);
        }
    }

    /// A team of well-counted motions is well counted.
    pub proof fn lemma_team_counted(self, ms: Seq<Motion>)
        requires
            self.is_team_of(ms),
            forall|i: int| 0 <= i < ms.len() ==> (#[trigger] ms[i]).well_counted(),
        ensures
            self.well_counted(),
    {
        if ms.len() == 1 {
            assert(ms[0].well_counted());
        } else if ms.len() > 1 {
            let s = ms.map_values(|m: Motion| m.0);
            lemma_members_well_counted(s);
            assert forall|j: int| 0 <= j < s.len() implies well_counted(#[trigger] s[j]) by {
                assert(ms[j].well_counted());
            }
        }
    }

    /// The motion has ended: it chooses nothing from now on.
    pub closed spec fn is_stop(self) -> bool {
        self.0 is Stop
    }

    /// A motion that has ended.
    pub fn new() -> (r: Self)
        ensures
            r.is_stop(),
            r.out() == None::<Option<Movement>>,
            r.well_counted(),
    {
        Motion(Any::Stop)
    }

    /// Plays `movements` in order, each choice for its number of turns, and starts over at
    /// the end when `is_loop` holds.
    pub fn from_sequence(is_loop: bool, movements: &[(Option<Movement>, usize)]) -> (r: Self)
        ensures
            r.ready(),
            r.is_sequence(),
            r.sequence() == movements@,
            r.looping() == is_loop,
            r.position() == (0nat, 0nat),
            (forall|i: int| 0 <= i < movements@.len() ==> #[trigger] movements@[i].1 >= 1) ==> r.well_counted(),
    {
        let mut actions: Vec<(Option<Movement>, usize)> = Vec::new();
        let mut i: usize = 0;
        while i < movements.len()
            invariant
                i <= movements@.len(),
                actions@ == movements@.take(i as int),
            decreases movements@.len() - i,
        {
            actions.push(movements[i]);
            assert(actions@ =~= movements@.take(i + 1));
            i = i + 1;
        }
        assert(actions@ =~= movements@);
        Motion(Any::Move(Move { looping: is_loop, actions, count: 0, index: 0 }))
    }

    /// The list a motion from `from_sequence` plays; empty for any other motion.
    pub closed spec fn sequence(self) -> Seq<(Option<Movement>, usize)> {
        match self.0 {
            Any::Move(m) => m.actions@,
            _ => Seq::empty(),
        }
    }

    /// Whether a motion from `from_sequence` starts over at the end.
    pub closed spec fn looping(self) -> bool {
        match self.0 {
            Any::Move(m) => m.looping,
            _ => false,
        }
    }

    /// For a motion from `from_sequence`: which choice it plays, and how many turns of it
    /// have passed.
    pub closed spec fn position(self) -> (nat, nat) {
        match self.0 {
            Any::Move(m) => (m.index as nat, m.count as nat),
            _ => (0, 0),
        }
    }

    /// Whether this motion plays a list of moves (rather than having ended or being a team).
    pub closed spec fn is_sequence(self) -> bool {
        self.0 is Move
    }

    /// A team of the given motions that have not ended: it chooses what all its live
    /// members choose, no movement when they disagree, and ends when all have ended.
    /// A team of one is that one, and a team of none has ended.
    pub fn from_iter(others: Vec<Motion>) -> (r: Self)
        ensures
            r.is_team_of(others@.filter(|m: Motion| !m.is_stop())),
            (forall|i: int| 0 <= i < others@.len() ==> (#[trigger] others@[i]).ready()) ==> r.ready(),
            (forall|i: int| 0 <= i < others@.len() ==> (#[trigger] others@[i]).well_counted()) ==> r.well_counted(),
    {
        let mut others = others;
        let ghost all = others@;
        let mut members: Vec<Any> = Vec::new();
        let ghost mut picked: Seq<Motion> = Seq::empty();
        let ghost mut i: int = 0;
        while others.len() > 0
            invariant
                0 <= i <= all.len(),
                others@ == all.skip(i),
                picked == all.take(i).filter(|m: Motion| !m.is_stop()),
                members@ == picked.map_values(|m: Motion| m.0),
            decreases others@.len(),
        {
            let one = others.remove(0);
            proof {
                reveal_with_fuel(Seq::filter, 1);
                assert(all.take(i + 1).drop_last() =~= all.take(i));
                assert(all.take(i + 1).last() == one);
            }
            match one.0 {
                Any::Stop => {},
                inner => {
                    members.push(inner);
                    proof {
                        picked = picked.push(one);
                    }
                },
            }
            proof {
                assert(members@ =~= picked.map_values(|m: Motion| m.0));
                assert(others@ =~= all.skip(i + 1));
                i = i + 1;
            }
        }
        proof {
            assert(all.take(all.len() as int) =~= all);
        }
        let ghost ms = members@;
        let r = Motion(slim_exec(Any::Team(Team(members))));
        proof {
            if ms.len() == 1 {
                assert(ms[0] == picked[0].0);
            }
            assert(picked == all.filter(|m: Motion| !m.is_stop()));
            lemma_filter_ready(all, picked);
        }
        r
    }

    /// This motion is the team of the motions `ms`, slimmed.
    pub closed spec fn is_team_of(self, ms: Seq<Motion>) -> bool {
        if ms.len() == 0 {
            self.0 is Stop
        } else if ms.len() == 1 {
            self.0 == ms[0].0
        } else {
            self.0 matches Any::Team(t) && t.0@ == ms.map_values(|m: Motion| m.0)
        }
    }

    /// Whether this motion plays a list of moves.
    pub fn is_move(&self) -> (r: bool)
        ensures
            r == self.is_sequence(),
    {
        match &self.0 {
            Any::Move(_) => true,
            _ => false,
        }
    }

    /// Hands over this motion and leaves one that has ended in its place.
    pub fn take(&mut self) -> (r: Self)
        ensures
            r == *old(self),
            final(self).is_stop(),
    {
        let mut that = Motion(Any::Stop);
        std::mem::swap(&mut that, self);
        that
    }

    /// The movement of the coming turn, without moving on: none when the motion stands
    /// still this turn or has ended.
    pub fn current(&self) -> (r: Option<Movement>)
        ensures
            r == match self.out() {
                Some(c) => c,
                None => None,
            },
    {
        let r = self.0.peek();
        proof {
            lemma_slim_out(self.0);
        }
        match r {
            Some(c) => c,
            None => None,
        }
    }

    /// The choice of the next turn, or `None` once the motion has ended.
    pub fn next(&mut self) -> (r: Option<Option<Movement>>)
        requires
            old(self).ready(),
        ensures
            r == old(self).out(),
            old(self).advances_to(*final(self)),
            old(self).well_counted() ==> final(self).well_counted(),
            old(self).well_counted() ==> final(self).ready(),
    {
        let mut inner = Any::Stop;
        std::mem::swap(&mut inner, &mut self.0);
        let mut inner = slim_exec(inner);
        let ghost slimmed = inner;
        let r = inner.next();
        proof {
            lemma_well_counted(slimmed, inner);
        }
        self.0 = inner;
        proof {
            if old(self).well_counted() {
                self.lemma_counted_ready();
            }
        }
        r
    }
}


/// Each choice of `a` repeated for its number of turns, in order.
pub open spec fn expand(a: Seq<(Option<Movement>, usize)>) -> Seq<Option<Movement>>
    decreases a.len(),
{
    if a.len() == 0 {
        Seq::empty()
    } else {
        expand(a.drop_last()) + Seq::new(a.last().1 as nat, |_j: int| a.last().0)
    }
}

/// The turns played before choice `i`, plus `c`.
pub open spec fn played(a: Seq<(Option<Movement>, usize)>, i: int, c: int) -> int {
    expand(a.take(i)).len() + c
}

proof fn lemma_expand_append(x: Seq<(Option<Movement>, usize)>, y: Seq<(Option<Movement>, usize)>)
    ensures
        expand(x + y) == expand(x) + expand(y),
    decreases y.len(),
{
    if y.len() > 0 {
        lemma_expand_append(x, y.drop_last());
        assert((x + y).drop_last() =~= x + y.drop_last());
        assert(expand(x + y) =~= expand(x) + expand(y));
    } else {
        assert(x + y =~= x);
        assert(expand(x) + expand(y) =~= expand(x));
    }
}

/// Turn `played(a, i, c)` of `a` is choice `i`.
proof fn lemma_expand_at(a: Seq<(Option<Movement>, usize)>, i: int, c: int)
    requires
        0 <= i < a.len(),
        0 <= c < a[i].1,
    ensures
        0 <= played(a, i, c) < expand(a).len(),
        expand(a)[played(a, i, c)] == a[i].0,
        expand(a.take(i + 1)).len() == played(a, i, 0) + a[i].1,
{
    let t = a.take(i + 1);
    assert(t.drop_last() =~= a.take(i));
    assert(a =~= t + a.skip(i + 1));
    lemma_expand_append(t, a.skip(i + 1));
}

proof fn lemma_expand_all(a: Seq<(Option<Movement>, usize)>)
    ensures
        played(a, a.len() as int, 0) == expand(a).len(),
{
    assert(a.take(a.len() as int) =~= a);
}

/// A team of fewer than two members chooses as its member would, or ends.
proof fn lemma_slim_out(a: Any)
    ensures
        any_out(slim(a)) == any_out(a),
{
    match a {
        Any::Team(t) => {
            let s = t.0@;
            if s.len() == 1 {
                let x = s[0];
                assert(s.drop_last() =~= Seq::<Any>::empty());
                assert(s.last() == x);
                assert(members_alive(Seq::<Any>::empty()) == 0);
                assert(members_vote(Seq::<Any>::empty()) == Some(None::<Option<Movement>>));
                assert(members_alive(s) == if any_out(x) is Some { 1nat } else { 0nat });
                match any_out(x) {
                    Some(c) => {
                        assert(members_vote(s) == vote_step(Some(None), c));
                        assert(team_out(s) == Some(c));
                    },
                    None => {
                        assert(team_out(s) == None::<Option<Movement>>);
                    },
                }
                assert(any_out(a) == team_out(s));
            } else if s.len() == 0 {
            }
        },
        _ => {},
    }
}

/// The choices of the members of `ms` that have not ended, in order.
pub open spec fn live_choices(ms: Seq<Motion>) -> Seq<Option<Movement>>
    decreases ms.len(),
{
    if ms.len() == 0 {
        Seq::empty()
    } else {
        let r = live_choices(ms.drop_last());
        match ms.last().out() {
            Some(c) => r.push(c),
            None => r,
        }
    }
}

/// What a team of the motions `ms` chooses: nothing more once all have ended, the choice
/// its live members agree on, and no movement when they disagree.
pub open spec fn team_choice(ms: Seq<Motion>) -> Option<Option<Movement>> {
    if live_choices(ms).len() == 0 {
        None
    } else {
        match vote_of(live_choices(ms)) {
            Some(Some(c)) => Some(c),
            _ => Some(None),
        }
    }
}

proof fn lemma_members_live(ms: Seq<Motion>)
    ensures
        members_alive(ms.map_values(|m: Motion| m.0)) == live_choices(ms).len(),
        members_vote(ms.map_values(|m: Motion| m.0)) == vote_of(live_choices(ms)),
    decreases ms.len(),
{
    let s = ms.map_values(|m: Motion| m.0);
    if ms.len() > 0 {
        let r = ms.drop_last();
        lemma_members_live(r);
        assert(s.drop_last() =~= r.map_values(|m: Motion| m.0));
        assert(s.last() == ms.last().0);
        lemma_slim_out(ms.last().0);
        let lr = live_choices(r);
        match ms.last().out() {
            Some(c) => {
                assert(lr.push(c).drop_last() =~= lr);
                assert(lr.push(c).last() == c);
            },
            None => {},
        }
    } else {
        assert(s =~= Seq::<Any>::empty());
    }
}

/// The turn after turn `k` of a cycle of length `l`.
proof fn lemma_mod_succ(k: int, l: int)
    requires
        k >= 0,
        l > 0,
    ensures
        0 <= k % l < l,
        (k + 1) % l == if k % l + 1 == l { 0 } else { k % l + 1 },
{
    vstd::arithmetic::div_mod::lemma_fundamental_div_mod(k, l);
    vstd::arithmetic::div_mod::lemma_fundamental_div_mod(k + 1, l);
    let q = k / l;
    let r = k % l;
    assert((q + 1) * l == q * l + l && q * l == l * q) by (nonlinear_arith);
    if r + 1 == l {
        vstd::arithmetic::div_mod::lemma_fundamental_div_mod_converse(k + 1, l, q + 1, 0);
    } else {
        vstd::arithmetic::div_mod::lemma_fundamental_div_mod_converse(k + 1, l, q, r + 1);
    }
}

impl Motion {
    /// A list of moves played in a loop gives, turn after turn, each choice for its number
    /// of turns, and starts over after the last: if `ms[0]` is a fresh looping motion of a
    /// nonempty `a` and each motion of `ms` is the one before it a turn later, then `ms[j]`
    /// chooses turn `j` of `a`, counted around the cycle.
    pub proof fn lemma_loop_plays(ms: Seq<Motion>, a: Seq<(Option<Movement>, usize)>)
        requires
            ms.len() > 0,
            ms[0].is_sequence(),
            ms[0].sequence() == a,
            ms[0].looping(),
            ms[0].position() == (0nat, 0nat),
            a.len() > 0,
            a.len() < usize::MAX,
            forall|i: int| 0 <= i < a.len() ==> #[trigger] a[i].1 >= 1,
            forall|j: int| 0 <= j < ms.len() - 1 ==> #[trigger] ms[j].advances_to(ms[j + 1]),
        ensures
            expand(a).len() > 0,
            forall|j: int| 0 <= j < ms.len() ==> #[trigger] ms[j].out() == Some(expand(a)[j % expand(a).len() as int]),
    {
        lemma_expand_at(a, 0, 0);
        assert forall|j: int| 0 <= j < ms.len() implies #[trigger] ms[j].out() == Some(expand(a)[j % expand(a).len() as int]) by {
            Self::lemma_loop_state(ms, a, j);
        }
    }

    proof fn lemma_loop_state(ms: Seq<Motion>, a: Seq<(Option<Movement>, usize)>, j: int)
        requires
            ms.len() > 0,
            ms[0].is_sequence(),
            ms[0].sequence() == a,
            ms[0].looping(),
            ms[0].position() == (0nat, 0nat),
            a.len() > 0,
            a.len() < usize::MAX,
            forall|i: int| 0 <= i < a.len() ==> #[trigger] a[i].1 >= 1,
            forall|j: int| 0 <= j < ms.len() - 1 ==> #[trigger] ms[j].advances_to(ms[j + 1]),
            0 <= j < ms.len(),
        ensures
            expand(a).len() > 0,
            ms[j].0 matches Any::Move(m) && m.actions@ == a && m.looping && {
                let i = m.index as int;
                let c = m.count as int;
                &&& 0 <= i < a.len()
                &&& 0 <= c < a[i].1
                &&& played(a, i, c) == j % expand(a).len() as int
            },
            ms[j].out() == Some(expand(a)[j % expand(a).len() as int]),
        decreases j,
    {
        lemma_expand_at(a, 0, 0);
        let l = expand(a).len() as int;
        if j > 0 {
            Self::lemma_loop_state(ms, a, j - 1);
            let k = j - 1;
            assert(ms[k].advances_to(ms[k + 1]));
            lemma_mod_succ(k, l);
            match ms[k].0 {
                Any::Move(p) => {
                    assert(slim(ms[k].0) == ms[k].0);
                    assert(ms[j].0 == Any::Move(move_next(p).0));
                    let pi = p.index as int;
                    lemma_expand_at(a, pi, p.count as int);
                    lemma_expand_at(a, pi, 0);
                    if p.count + 1 == a[pi].1 {
                        if pi + 1 < a.len() {
                            assert(a[pi + 1].1 >= 1);
                            lemma_expand_at(a, pi + 1, 0);
                        } else {
                            lemma_expand_all(a);
                            assert(a.take(0) =~= Seq::<(Option<Movement>, usize)>::empty());
                            assert(expand(Seq::<(Option<Movement>, usize)>::empty()).len() == 0);
                        }
                    }
                },
                _ => {},
            }
        } else {
            assert(a.take(0) =~= Seq::<(Option<Movement>, usize)>::empty());
            assert(expand(Seq::<(Option<Movement>, usize)>::empty()).len() == 0);
            assert(0int % l == 0) by {
                vstd::arithmetic::div_mod::lemma_small_mod(0, l as nat);
            }
        }
        match ms[j].0 {
            Any::Move(m) => {
                let i = m.index as int;
                let c = m.count as int;
                assert(slim(ms[j].0) == ms[j].0);
                assert(ms[j].out() == move_next(m).1);
                lemma_expand_at(a, i, c);
            },
            _ => {},
        }
    }

    /// A list of moves played without a loop gives, turn after turn, each choice for its
    /// number of turns, and then nothing: if `ms[0]` is a fresh motion of `a` and each
    /// motion of `ms` is the one before it a turn later, then `ms[j]` chooses turn `j` of
    /// `a`, or nothing past the end.
    pub proof fn lemma_sequence_plays(ms: Seq<Motion>, a: Seq<(Option<Movement>, usize)>)
        requires
            ms.len() > 0,
            ms[0].is_sequence(),
            ms[0].sequence() == a,
            !ms[0].looping(),
            ms[0].position() == (0nat, 0nat),
            a.len() < usize::MAX,
            forall|i: int| 0 <= i < a.len() ==> #[trigger] a[i].1 >= 1,
            forall|j: int| 0 <= j < ms.len() - 1 ==> #[trigger] ms[j].advances_to(ms[j + 1]),
        ensures
            forall|j: int|
                0 <= j < ms.len() ==> #[trigger] ms[j].out() == if j < expand(a).len() {
                    Some(expand(a)[j])
                } else {
                    None
                },
    {
        assert forall|j: int| 0 <= j < ms.len() implies #[trigger] ms[j].out() == if j < expand(
            a,
        ).len() {
            Some(expand(a)[j])
        } else {
            None
        } by {
            Self::lemma_sequence_state(ms, a, j);
        }
    }

    proof fn lemma_sequence_state(ms: Seq<Motion>, a: Seq<(Option<Movement>, usize)>, j: int)
        requires
            ms.len() > 0,
            ms[0].is_sequence(),
            ms[0].sequence() == a,
            !ms[0].looping(),
            ms[0].position() == (0nat, 0nat),
            a.len() < usize::MAX,
            forall|i: int| 0 <= i < a.len() ==> #[trigger] a[i].1 >= 1,
            forall|j: int| 0 <= j < ms.len() - 1 ==> #[trigger] ms[j].advances_to(ms[j + 1]),
            0 <= j < ms.len(),
        ensures
            ms[j].0 matches Any::Move(m) && m.actions@ == a && !m.looping && {
                let i = m.index as int;
                let c = m.count as int;
                &&& 0 <= i <= a.len()
                &&& i < a.len() ==> 0 <= c < a[i].1 && played(a, i, c) == j
                &&& i == a.len() ==> c == 0 && j >= expand(a).len()
            },
            ms[j].out() == if j < expand(a).len() {
                Some(expand(a)[j])
            } else {
                None
            },
        decreases j,
    {
        if j > 0 {
            Self::lemma_sequence_state(ms, a, j - 1);
            let k = j - 1;
            assert(ms[k].advances_to(ms[k + 1]));
            assert(k + 1 == j);
        } else {
            assert(a.take(0) =~= Seq::<(Option<Movement>, usize)>::empty());
            assert(expand(Seq::<(Option<Movement>, usize)>::empty()).len() == 0);
        }
        if j > 0 {
            let k = j - 1;
            match ms[k].0 {
                Any::Move(p) => {
                    assert(slim(ms[k].0) == ms[k].0);
                    assert(ms[j].0 == Any::Move(move_next(p).0));
                    let pi = p.index as int;
                    if pi < a.len() {
                        lemma_expand_at(a, pi, p.count as int);
                        lemma_expand_at(a, pi, 0);
                        if p.count + 1 == a[pi].1 {
                            if pi + 1 < a.len() {
                                assert(a[pi + 1].1 >= 1);
                            } else {
                                lemma_expand_all(a);
                            }
                        }
                    }
                },
                _ => {},
            }
        }
        match ms[j].0 {
            Any::Move(m) => {
                let i = m.index as int;
                let c = m.count as int;
                assert(slim(ms[j].0) == ms[j].0);
                assert(ms[j].out() == move_next(m).1);
                if i < a.len() {
                    lemma_expand_at(a, i, c);
                } else {
                    lemma_expand_all(a);
                }
            },
            _ => {},
        }
    }
}

} // verus!