use vstd::prelude::*;

use super::seed::{Command, Movement as Order};

verus! {

/// Where a cube goes this turn, if anywhere.
#[derive(Clone, Copy, Debug, PartialEq, Eq, Structural)]
pub enum Movement {
    Idle,
    Left,
    Down,
    Up,
    Right,
}

/// A list of `(movement, turns)` played in order, maybe in a loop; a movement set from
/// outside takes the place of the list's for one turn.
pub struct Move {
    is_loop: bool,
    movements: Vec<(Movement, usize)>,
    cache: Option<Movement>,
    count: usize,
    index: usize,
}

/// Several behaviours moving as one.
pub struct Moves {
    cache: Option<Movement>,
    moves: Vec<Behavior>,
}

/// What a cube does, turn after turn.
pub enum Behavior {
    /// Never moves and has always ended.
    Done,
    /// Stays, unless a movement was set for this turn.
    Idle(Option<Movement>),
    /// Plays a list of movements.
    Move(Move),
    /// Moves as its members agree to.
    Moves(Moves),
}

/// The movement of a list this turn.
spec fn move_get(m: Move) -> Movement {
    match m.cache {
        Some(x) => x,
        None => if m.index >= m.movements@.len() {
            Movement::Idle
        } else {
            m.movements@[m.index as int].0
        },
    }
}

/// The list one turn later.
spec fn move_next(m: Move) -> Move {
    let n = m.movements@.len();
    if m.index >= n {
        Move { is_loop: m.is_loop, movements: m.movements, cache: None, count: m.count, index: m.index }
    } else {
        let count = m.count + 1;
        if count == m.movements@[m.index as int].1 {
            let index = if m.index + 1 == n && m.is_loop {
                0
            } else {
                m.index + 1
            };
            Move { is_loop: m.is_loop, movements: m.movements, cache: None, count: 0, index: index as usize }
        } else {
            Move { is_loop: m.is_loop, movements: m.movements, cache: None, count: count as usize, index: m.index }
        }
    }
}

/// The movement of a behaviour this turn.
spec fn get_of(b: Behavior) -> Movement
    decreases b, 1int,
{
    match b {
        Behavior::Done => Movement::Idle,
        Behavior::Idle(o) => match o {
            Some(x) => x,
            None => Movement::Idle,
        },
        Behavior::Move(m) => move_get(m),
        Behavior::Moves(ms) => match ms.cache {
            Some(x) => x,
            None => if ms.moves@.len() == 0 {
                Movement::Idle
            } else if all_get(ms.moves@, get_of(ms.moves@[0])) {
                get_of(ms.moves@[0])
            } else {
                Movement::Idle
            },
        },
    }
}

/// Every member of `s` goes by `x` this turn.
spec fn all_get(s: Seq<Behavior>, x: Movement) -> bool
    decreases s, 0int,
{
    if s.len() == 0 {
        true
    } else {
        all_get(s.drop_last(), x) && get_of(s.last()) == x
    }
}

/// The behaviour has ended.
spec fn done_of(b: Behavior) -> bool
    decreases b, 1int,
{
    match b {
        Behavior::Done => true,
        Behavior::Idle(o) => o is None,
        Behavior::Move(m) => m.cache is None && m.index >= m.movements@.len(),
        Behavior::Moves(ms) => all_done(ms.moves@),
    }
}

spec fn all_done(s: Seq<Behavior>) -> bool
    decreases s, 0int,
{
    if s.len() == 0 {
        true
    } else {
        all_done(s.drop_last()) && done_of(s.last())
    }
}

/// The behaviour will have ended after this turn.
spec fn done_after(b: Behavior) -> bool
    decreases b, 1int,
{
    match b {
        Behavior::Done => true,
        Behavior::Idle(_) => true,
        Behavior::Move(m) => move_next(m).index >= m.movements@.len(),
        Behavior::Moves(ms) => all_done_after(ms.moves@),
    }
}

spec fn all_done_after(s: Seq<Behavior>) -> bool
    decreases s, 0int,
{
    if s.len() == 0 {
        true
    } else {
        all_done_after(s.drop_last()) && done_after(s.last())
    }
}

/// `b` is `a` told to go by `x` this turn.
spec fn set_to(a: Behavior, b: Behavior, x: Movement) -> bool
    decreases a, 1int,
{
    match a {
        Behavior::Done => b is Done,
        Behavior::Idle(_) => b == Behavior::Idle(Some(x)),
        Behavior::Move(m) => b == Behavior::Move(
            Move { is_loop: m.is_loop, movements: m.movements, cache: Some(x), count: m.count, index: m.index },
        ),
        Behavior::Moves(ms) => b matches Behavior::Moves(ms2) && ms2.cache == ms.cache && members_set(
            ms.moves@,
            ms2.moves@,
            x,
        ),
    }
}

/// `s2` holds the members of `s`, each told to go by `x`.
spec fn members_set(s: Seq<Behavior>, s2: Seq<Behavior>, x: Movement) -> bool
    decreases s, 0int,
{
    if s.len() == 0 {
        s2.len() == 0
    } else {
        s2.len() > 0 && set_to(s.last(), s2.last(), x) && members_set(s.drop_last(), s2.drop_last(), x)
    }
}

/// `b` is `a` one turn later.
spec fn step(a: Behavior, b: Behavior) -> bool
    decreases a, 1int,
{
    match a {
        Behavior::Done => b is Done,
        Behavior::Idle(_) => b == Behavior::Idle(None),
        Behavior::Move(m) => b == Behavior::Move(move_next(m)),
        Behavior::Moves(ms) => b matches Behavior::Moves(ms2) && ms2.cache is None && members_step(
            ms.moves@,
            ms2.moves@,
        ),
    }
}

/// `s2` holds, in order, the members of `s` one turn later that have not ended.
spec fn members_step(s: Seq<Behavior>, s2: Seq<Behavior>) -> bool
    decreases s, 0int,
{
    if s.len() == 0 {
        s2.len() == 0
    } else if done_after(s.last()) {
        members_step(s.drop_last(), s2)
    } else {
        s2.len() > 0 && step(s.last(), s2.last()) && members_step(s.drop_last(), s2.drop_last())
    }
}

/// No turn counter is about to overflow.
spec fn can_step(a: Behavior) -> bool
    decreases a, 1int,
{
    match a {
        Behavior::Move(m) => m.index < m.movements@.len() ==> m.count < usize::MAX,
        Behavior::Moves(ms) => members_can_step(ms.moves@),
        _ => true,
    }
}

spec fn members_can_step(s: Seq<Behavior>) -> bool
    decreases s, 0int,
{
    if s.len() == 0 {
        true
    } else {
        members_can_step(s.drop_last()) && can_step(s.last())
    }
}

impl Move {
    fn get(&self) -> (r: Movement)
        ensures
            r == move_get(*self),
    {
        match self.cache {
            Some(x) => x,
            None => if self.index >= self.movements.len() {
                Movement::Idle
            } else {
                self.movements[self.index].0
            },
        }
    }

    fn next(&mut self)
        requires
            old(self).index < old(self).movements@.len() ==> old(self).count < usize::MAX,
        ensures
            *final(self) == move_next(*old(self)),
    {
        self.cache = None;
        let n = self.movements.len();
        if self.index >= n {
            return;
        }
        let m = self.movements[self.index].1;
        self.count = self.count + 1;
        if self.count == m {
            self.index = self.index + 1;
            if self.index == n {
                if self.is_loop {
                    self.index = 0;
                }
            }
            self.count = 0;
        }
    }
}

impl Behavior {
    /// The movement this turn.
    pub closed spec fn movement(self) -> Movement {
        get_of(self)
    }

    /// The behaviour has ended.
    pub closed spec fn is_done(self) -> bool {
        done_of(self)
    }

    /// The behaviour will have ended after this turn.
    pub closed spec fn ends(self) -> bool {
        done_after(self)
    }

    /// `next` is this behaviour told to go by `x` this turn.
    pub closed spec fn told(self, next: Behavior, x: Movement) -> bool {
        set_to(self, next, x)
    }

    /// `next` is this behaviour one turn later.
    pub closed spec fn advances_to(self, next: Behavior) -> bool {
        step(self, next)
    }

    /// No turn counter is about to overflow.
    pub closed spec fn ready(self) -> bool {
        can_step(self)
    }

    /// The movement this turn.
    pub fn get(&self) -> (r: Movement)
        ensures
            r == self.movement(),
        decreases self,
    {
        match self {
            Behavior::Done => Movement::Idle,
            Behavior::Idle(o) => match o {
                Some(x) => *x,
                None => Movement::Idle,
            },
            Behavior::Move(m) => m.get(),
            Behavior::Moves(ms) => match ms.cache {
                Some(x) => x,
                None => {
                    if ms.moves.len() == 0 {
                        return Movement::Idle;
                    }
                    proof {
                        assert(decreases_to!(*self => ms.moves@[0])) by {
                            assert(decreases_to!(*self => *ms));
                            assert(decreases_to!(*ms => ms.moves));
                            assert(decreases_to!(ms.moves => ms.moves@));
                            assert(decreases_to!(ms.moves@ => ms.moves@[0]));
                        }
                    }
                    let first = ms.moves[0].get();
                    let mut all = true;
                    let mut i: usize = 0;
                    while i < ms.moves.len()
                        invariant
                            i <= ms.moves@.len(),
                            *self is Moves,
                            self->Moves_0 == *ms,
                            first == get_of(ms.moves@[0]),
                            all == all_get(ms.moves@.take(i as int), first),
                        decreases ms.moves@.len() - i,
                    {
                        proof {
                            assert(decreases_to!(*self => ms.moves@[i as int])) by {
                                assert(decreases_to!(*self => *ms));
                                assert(decreases_to!(*ms => ms.moves));
                                assert(decreases_to!(ms.moves => ms.moves@));
                                assert(decreases_to!(ms.moves@ => ms.moves@[i as int]));
                            }
                            assert(ms.moves@.take(i + 1).drop_last() =~= ms.moves@.take(i as int));
                        }
                        if ms.moves[i].get() != first {
                            all = false;
                        }
                        i = i + 1;
                    }
                    proof {
                        assert(ms.moves@.take(ms.moves@.len() as int) =~= ms.moves@);
                    }
                    if all {
                        first
                    } else {
                        Movement::Idle
                    }
                },
            },
        }
    }
}

/// One turn later a behaviour has ended exactly when it was to end after this turn.
proof fn lemma_step_done(a: Behavior, b: Behavior)
    requires
        step(a, b),
    ensures
        done_of(b) == done_after(a),
    decreases a, 1int,
{
    match a {
        Behavior::Moves(ms) => {
            let ms2 = b->Moves_0;
            lemma_members_step_done(ms.moves@, ms2.moves@);
        },
        _ => {},
    }
}

/// The members left one turn later have not ended, and none are left exactly when all
/// were to end.
proof fn lemma_members_step_done(s: Seq<Behavior>, s2: Seq<Behavior>)
    requires
        members_step(s, s2),
    ensures
        all_done(s2) == all_done_after(s),
        all_done(s2) == (s2.len() == 0),
    decreases s, 0int,
{
    if s.len() > 0 {
        if done_after(s.last()) {
            lemma_members_step_done(s.drop_last(), s2);
        } else {
            lemma_step_done(s.last(), s2.last());
            lemma_members_step_done(s.drop_last(), s2.drop_last());
        }
    }
}

impl Behavior {
    /// The behaviour has ended.
    pub fn done(&self) -> (r: bool)
        ensures
            r == self.is_done(),
        decreases self,
    {
        match self {
            Behavior::Done => true,
            Behavior::Idle(o) => o.is_none(),
            Behavior::Move(m) => m.cache.is_none() && m.index >= m.movements.len(),
            Behavior::Moves(ms) => {
                let mut all = true;
                let mut i: usize = 0;
                while i < ms.moves.len()
                    invariant
                        i <= ms.moves@.len(),
                        *self is Moves,
                        self->Moves_0 == *ms,
                        all == all_done(ms.moves@.take(i as int)),
                    decreases ms.moves@.len() - i,
                {
                    proof {
                        assert(decreases_to!(*self => ms.moves@[i as int])) by {
                            assert(decreases_to!(*self => *ms));
                            assert(decreases_to!(*ms => ms.moves));
                            assert(decreases_to!(ms.moves => ms.moves@));
                            assert(decreases_to!(ms.moves@ => ms.moves@[i as int]));
                        }
                        assert(ms.moves@.take(i + 1).drop_last() =~= ms.moves@.take(i as int));
                    }
                    if !ms.moves[i].done() {
                        all = false;
                    }
                    i = i + 1;
                }
                proof {
                    assert(ms.moves@.take(ms.moves@.len() as int) =~= ms.moves@);
                }
                all
            },
        }
    }

    /// Tells the behaviour to go by `x` this turn; a team tells each of its members.
    pub fn set(&mut self, x: Movement)
        ensures
            old(self).told(*final(self), x),
        decreases *old(self),
    {
        match self {
            Behavior::Done => {},
            Behavior::Idle(o) => {
                *o = Some(x);
            },
            Behavior::Move(m) => {
                m.cache = Some(x);
            },
            Behavior::Moves(ms) => {
                let ghost s0 = ms.moves@;
                proof {
                    assert(*old(self) is Moves);
                    assert(old(self)->Moves_0.moves@ == s0);
                }
                let mut members: Vec<Behavior> = Vec::new();
                std::mem::swap(&mut members, &mut ms.moves);
                let mut told: Vec<Behavior> = Vec::new();
                let ghost mut i: int = 0;
                while members.len() > 0
                    invariant
                        0 <= i <= s0.len(),
                        *old(self) is Moves,
                        old(self)->Moves_0.moves@ == s0,
                        members@ == s0.skip(i),
                        members_set(s0.take(i), told@, x),
                    decreases members@.len(),
                {
                    let mut one = members.remove(0);
                    proof {
                        assert(one == s0[i]);
                        assert(decreases_to!(*old(self) => one)) by {
                            let mm = old(self)->Moves_0;
                            assert(decreases_to!(*old(self) => mm));
                            assert(decreases_to!(mm => mm.moves));
                            assert(decreases_to!(mm.moves => mm.moves@));
                            assert(decreases_to!(mm.moves@ => mm.moves@[i]));
                        }
                    }
                    let ghost before = told@;
                    one.set(x);
                    told.push(one);
                    proof {
                        assert(s0.take(i + 1).drop_last() =~= s0.take(i));
                        assert(told@.drop_last() =~= before);
                        assert(members@ =~= s0.skip(i + 1));
                        i = i + 1;
                    }
                }
                proof {
                    assert(s0.take(s0.len() as int) =~= s0);
                }
                ms.moves = told;
            },
        }
    }

    /// Takes the behaviour to its next turn: what was set for this turn is forgotten, a
    /// list counts the turn, and a team takes each member on and drops those that ended.
    pub fn next(&mut self)
        requires
            old(self).ready(),
        ensures
            old(self).advances_to(*final(self)),
        decreases *old(self),
    {
        match self {
            Behavior::Done => {},
            Behavior::Idle(o) => {
                *o = None;
            },
            Behavior::Move(m) => {
                m.next();
            },
            Behavior::Moves(ms) => {
                ms.cache = None;
                let ghost s0 = ms.moves@;
                proof {
                    assert(*old(self) is Moves);
                    assert(old(self)->Moves_0.moves@ == s0);
                    lemma_members_can_step(s0);
                }
                let mut members: Vec<Behavior> = Vec::new();
                std::mem::swap(&mut members, &mut ms.moves);
                let mut kept: Vec<Behavior> = Vec::new();
                let ghost mut i: int = 0;
                while members.len() > 0
                    invariant
                        0 <= i <= s0.len(),
                        *old(self) is Moves,
                        old(self)->Moves_0.moves@ == s0,
                        members@ == s0.skip(i),
                        forall|j: int| 0 <= j < s0.len() ==> can_step(#[trigger] s0[j]),
                        members_step(s0.take(i), kept@),
                    decreases members@.len(),
                {
                    let mut one = members.remove(0);
                    proof {
                        assert(one == s0[i]);
                        assert(decreases_to!(*old(self) => one)) by {
                            let mm = old(self)->Moves_0;
                            assert(decreases_to!(*old(self) => mm));
                            assert(decreases_to!(mm => mm.moves));
                            assert(decreases_to!(mm.moves => mm.moves@));
                            assert(decreases_to!(mm.moves@ => mm.moves@[i]));
                        }
                    }
                    let ghost before = kept@;
                    let ghost was = one;
                    one.next();
                    proof {
                        lemma_step_done(was, one);
                    }
                    if !one.done() {
                        kept.push(one);
                    }
                    proof {
                        assert(s0.take(i + 1).drop_last() =~= s0.take(i));
                        assert(s0.take(i + 1).last() == was);
                        if kept@.len() > before.len() {
                            assert(kept@.drop_last() =~= before);
                        }
                        assert(members@ =~= s0.skip(i + 1));
                        i = i + 1;
                    }
                }
                proof {
                    assert(s0.take(s0.len() as int) =~= s0);
                }
                ms.moves = kept;
            },
        }
    }
}

proof fn lemma_members_can_step(s: Seq<Behavior>)
    ensures
        members_can_step(s) <==> forall|j: int| 0 <= j < s.len() ==> can_step(#[trigger] s[j]),
    decreases s.len(),
{
    if s.len() > 0 {
        lemma_members_can_step(s.drop_last());
        if forall|j: int| 0 <= j < s.drop_last().len() ==> can_step(#[trigger] s.drop_last()[j]) {
            assert forall|j: int| 0 <= j < s.len() - 1 implies can_step(#[trigger] s[j]) by {
                assert(s[j] == s.drop_last()[j]);
            }
        }
        if forall|j: int| 0 <= j < s.len() ==> can_step(#[trigger] s[j]) {
            assert forall|j: int| 0 <= j < s.drop_last().len() implies can_step(#[trigger] s.drop_last()[j]) by {
                assert(s[j] == s.drop_last()[j]);
            }
            assert(can_step(s[s.len() - 1]));
        }
    }
}

/// The movement of a level's order.
pub open spec fn movement_of(o: Order) -> Movement {
    match o {
        Order::Idle => Movement::Idle,
        Order::Left => Movement::Left,
        Order::Down => Movement::Down,
        Order::Up => Movement::Up,
        Order::Right => Movement::Right,
    }
}

fn convert(o: Order) -> (r: Movement)
    ensures
        r == movement_of(o),
{
    match o {
        Order::Idle => Movement::Idle,
        Order::Left => Movement::Left,
        Order::Down => Movement::Down,
        Order::Up => Movement::Up,
        Order::Right => Movement::Right,
    }
}

/// The behaviour takes what it is told: it is not `Done`, and a team has no movement of
/// its own, has members, and each of them takes what it is told.
spec fn takes_orders(a: Behavior) -> bool
    decreases a, 1int,
{
    match a {
        Behavior::Done => false,
        Behavior::Moves(ms) => ms.cache is None && ms.moves@.len() > 0 && members_take_orders(ms.moves@),
        _ => true,
    }
}

spec fn members_take_orders(s: Seq<Behavior>) -> bool
    decreases s, 0int,
{
    if s.len() == 0 {
        true
    } else {
        members_take_orders(s.drop_last()) && takes_orders(s.last())
    }
}

impl Behavior {
    /// The list a behaviour from a command plays; empty for any other behaviour.
    pub closed spec fn plays(self) -> Seq<(Movement, usize)> {
        match self {
            Behavior::Move(m) => m.movements@,
            _ => Seq::empty(),
        }
    }

    /// Whether a behaviour from a command starts over at the end of its list.
    pub closed spec fn looping(self) -> bool {
        match self {
            Behavior::Move(m) => m.is_loop,
            _ => false,
        }
    }

    /// For a behaviour from a command: which movement of its list it plays, and how many
    /// turns of it have passed.
    pub closed spec fn position(self) -> (nat, nat) {
        match self {
            Behavior::Move(m) => (m.index as nat, m.count as nat),
            _ => (0, 0),
        }
    }

    /// The members of a team; empty for any other behaviour.
    pub closed spec fn members(self) -> Seq<Behavior> {
        match self {
            Behavior::Moves(ms) => ms.moves@,
            _ => Seq::empty(),
        }
    }

    /// The behaviour takes what it is told.
    pub closed spec fn obeys(self) -> bool {
        takes_orders(self)
    }
}

/// A behaviour that stays, unless told otherwise for a turn.
pub fn create_behavior() -> (r: Behavior)
    ensures
        r == Behavior::Idle(None),
{
    Behavior::Idle(None)
}

/// Plays the command of a level: each `(turns, movement)` pair as that movement for that
/// many turns, in order, and over again when the command loops.
pub fn create_behavior_from_seed(seed: &Command) -> (r: Behavior)
    requires
        forall|i: int| 0 <= i < seed.movements@.len() ==> (#[trigger] seed.movements@[i]).0 >= 0,
    ensures
        r is Move,
        r.plays() == seed.movements@.map_values(|p: (i32, Order)| (movement_of(p.1), p.0 as usize)),
        r.looping() == seed.is_loop,
        r.position() == (0nat, 0nat),
        r.movement() == if seed.movements@.len() == 0 {
            Movement::Idle
        } else {
            movement_of(seed.movements@[0].1)
        },
{
    let mut movements: Vec<(Movement, usize)> = Vec::new();
    let mut i: usize = 0;
    while i < seed.movements.len()
        invariant
            i <= seed.movements@.len(),
            forall|j: int| 0 <= j < seed.movements@.len() ==> (#[trigger] seed.movements@[j]).0 >= 0,
            movements@ == seed.movements@.take(i as int).map_values(|p: (i32, Order)| (movement_of(p.1), p.0 as usize)),
        decreases seed.movements@.len() - i,
    {
        let (count, order) = seed.movements[i];
        movements.push((convert(order), count as usize));
        proof {
            assert(seed.movements@.take(i + 1) =~= seed.movements@.take(i as int).push(seed.movements@[i as int]));
            assert(movements@ =~= seed.movements@.take(i + 1).map_values(|p: (i32, Order)| (movement_of(p.1), p.0 as usize)));
        }
        i = i + 1;
    }
    proof {
        assert(seed.movements@.take(seed.movements@.len() as int) =~= seed.movements@);
    }
    Behavior::Move(Move { is_loop: seed.is_loop, movements, cache: None, count: 0, index: 0 })
}

/// A team of the given behaviours, moving as they agree to.
pub fn create_behavior_from_behaviors(it: Vec<Behavior>) -> (r: Behavior)
    ensures
        r is Moves,
        r.members() == it@,
        r.movement() == if it@.len() == 0 {
            Movement::Idle
        } else if forall|i: int| 0 <= i < it@.len() ==> #[trigger] it@[i].movement() == it@[0].movement() {
            it@[0].movement()
        } else {
            Movement::Idle
        },
{
    let ghost s = it@;
    proof {
        if s.len() > 0 {
            lemma_all_get(s, get_of(s[0]));
            assert((forall|i: int| 0 <= i < s.len() ==> #[trigger] s[i].movement() == s[0].movement()) <==> (
            forall|i: int| 0 <= i < s.len() ==> #[trigger] get_of(s[i]) == get_of(s[0]))) by {
                if forall|i: int| 0 <= i < s.len() ==> #[trigger] s[i].movement() == s[0].movement() {
                    assert forall|i: int| 0 <= i < s.len() implies #[trigger] get_of(s[i]) == get_of(s[0]) by {
                        assert(s[i].movement() == s[0].movement());
                    }
                }
                if forall|i: int| 0 <= i < s.len() ==> #[trigger] get_of(s[i]) == get_of(s[0]) {
                    assert forall|i: int| 0 <= i < s.len() implies #[trigger] s[i].movement() == s[0].movement() by {
                        assert(get_of(s[i]) == get_of(s[0]));
                    }
                }
            }
        }
    }
    Behavior::Moves(Moves { cache: None, moves: it })
}

/// All of a sequence go by `x` exactly when each of them does.
proof fn lemma_all_get(s: Seq<Behavior>, x: Movement)
    ensures
        all_get(s, x) <==> forall|i: int| 0 <= i < s.len() ==> #[trigger] get_of(s[i]) == x,
    decreases s.len(),
{
    if s.len() > 0 {
        lemma_all_get(s.drop_last(), x);
        if forall|i: int| 0 <= i < s.len() ==> #[trigger] get_of(s[i]) == x {
            assert forall|i: int| 0 <= i < s.drop_last().len() implies #[trigger] get_of(s.drop_last()[i]) == x by {
                assert(s.drop_last()[i] == s[i]);
            }
            assert(get_of(s[s.len() - 1]) == x);
        }
        if all_get(s, x) {
            assert forall|i: int| 0 <= i < s.len() implies #[trigger] get_of(s[i]) == x by {
                if i < s.len() - 1 {
                    assert(s.drop_last()[i] == s[i]);
                }
            }
        }
    }
}

/// A behaviour that has ended was to end after this turn too.
proof fn lemma_done_after(a: Behavior)
    requires
        done_of(a),
    ensures
        done_after(a),
    decreases a, 1int,
{
    if let Behavior::Moves(ms) = a {
        lemma_all_done_after(ms.moves@);
    }
}

proof fn lemma_all_done_after(s: Seq<Behavior>)
    requires
        all_done(s),
    ensures
        all_done_after(s),
    decreases s, 0int,
{
    if s.len() > 0 {
        lemma_done_after(s.last());
        lemma_all_done_after(s.drop_last());
    }
}

/// A behaviour that has ended stays ended, and from its next turn on it stays where it is.
pub proof fn lemma_done_stays(a: Behavior, b: Behavior)
    requires
        a.is_done(),
        a.advances_to(b),
    ensures
        b.is_done(),
        b.movement() == Movement::Idle,
{
    lemma_done_after(a);
    lemma_step_done(a, b);
    if let Behavior::Moves(ms) = a {
        lemma_members_step_done(ms.moves@, b->Moves_0.moves@);
    }
}

/// Every member told to go by `x` goes by `x`, when each takes what it is told.
proof fn lemma_members_set_get(s: Seq<Behavior>, s2: Seq<Behavior>, x: Movement)
    requires
        members_take_orders(s),
        members_set(s, s2, x),
    ensures
        all_get(s2, x),
        s2.len() == s.len(),
    decreases s, 0int,
{
    if s.len() > 0 {
        lemma_set_get(s.last(), s2.last(), x);
        lemma_members_set_get(s.drop_last(), s2.drop_last(), x);
        assert(s2.drop_last().push(s2.last()) =~= s2);
    }
}

/// All of a sequence go by `x`, so its first does.
proof fn lemma_all_get_first(s: Seq<Behavior>, x: Movement)
    requires
        all_get(s, x),
        s.len() > 0,
    ensures
        get_of(s[0]) == x,
    decreases s.len(),
{
    if s.len() > 1 {
        lemma_all_get_first(s.drop_last(), x);
        assert(s.drop_last()[0] == s[0]);
    }
}

/// A behaviour that takes what it is told, told to go by `x`, goes by `x` this turn.
pub proof fn lemma_set_get(a: Behavior, b: Behavior, x: Movement)
    requires
        a.obeys(),
        a.told(b, x),
    ensures
        b.movement() == x,
    decreases a, 1int,
{
    if let Behavior::Moves(ms) = a {
        let s2 = b->Moves_0.moves@;
        lemma_members_set_get(ms.moves@, s2, x);
        lemma_all_get_first(s2, x);
    }
}

} // verus!
