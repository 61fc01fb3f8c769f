//! A rope of knots dragged across a plane by its head.
//!
//! Each move pulls the head one unit at a time; after every unit step each knot
//! in turn closes up on the knot before it until the two touch. The positions
//! that the last knot occupies are recorded.
use vstd::prelude::*;

verus! {

/// Coordinates stay within this magnitude, far from the `i64` limits.
pub const LIMIT: i64 = 0x2000_0000_0000_0000;

/// A move of the head: a direction and a number of unit steps.
#[derive(Debug, Clone, Copy, PartialEq, Eq, Structural)]
pub enum Move {
    Right(i64),
    Left(i64),
    Up(i64),
    Down(i64),
}

/// A point of the plane.
#[derive(Debug, Clone, Copy, PartialEq, Eq, Hash, PartialOrd, Ord, Structural)]
pub struct Position {
    pub x: i64,
    pub y: i64,
}

pub open spec fn abs(v: int) -> int {
    if v < 0 { -v } else { v }
}

pub open spec fn sign(v: int) -> int {
    if v > 0 {
        1
    } else if v < 0 {
        -1
    } else {
        0
    }
}

pub open spec fn bounded(p: Position) -> bool {
    -LIMIT <= p.x <= LIMIT && -LIMIT <= p.y <= LIMIT
}

/// The two points are equal or adjacent, diagonals included.
pub open spec fn touching(a: Position, b: Position) -> bool {
    abs(a.x - b.x) < 2 && abs(a.y - b.y) < 2
}

/// Chebyshev distance.
pub open spec fn gap(a: Position, b: Position) -> nat {
    let dx = abs(a.x - b.x);
    let dy = abs(a.y - b.y);
    (if dx > dy { dx } else { dy }) as nat
}

/// One unit step of `t` toward `h`, diagonals included.
pub open spec fn toward(t: Position, h: Position) -> Position {
    Position { x: (t.x + sign(h.x - t.x)) as i64, y: (t.y + sign(h.y - t.y)) as i64 }
}

/// Where a knot at `t` comes to rest when it follows a knot at `h`.
pub open spec fn follow_spec(t: Position, h: Position) -> Position
    decreases gap(t, h),
{
    if touching(t, h) || !bounded(t) || !bounded(h) {
        t
    } else {
        follow_spec(toward(t, h), h)
    }
}

pub open spec fn plus(a: Position, b: Position) -> Position {
    Position { x: (a.x + b.x) as i64, y: (a.y + b.y) as i64 }
}

/// Lets knots `i..` of `ks` follow, in order, the knot before each of them.
pub open spec fn settle(ks: Seq<Position>, i: int) -> Seq<Position>
    decreases ks.len() - i,
{
    if i < 1 || i >= ks.len() {
        ks
    } else {
        settle(ks.update(i, follow_spec(ks[i], ks[i - 1])), i + 1)
    }
}

/// The rope after its head makes one unit step `step`.
pub open spec fn advance(ks: Seq<Position>, step: Position) -> Seq<Position> {
    settle(ks.update(0, plus(ks[0], step)), 1)
}

/// The rope after `n` unit steps `step`.
pub open spec fn advance_n(ks: Seq<Position>, step: Position, n: nat) -> Seq<Position>
    decreases n,
{
    if n == 0 {
        ks
    } else {
        advance(advance_n(ks, step, (n - 1) as nat), step)
    }
}

/// The positions of the last knot after each of the `n` unit steps.
pub open spec fn tail_trace(ks: Seq<Position>, step: Position, n: nat) -> Set<Position>
    decreases n,
{
    if n == 0 {
        Set::empty()
    } else {
        tail_trace(ks, step, (n - 1) as nat).insert(advance_n(ks, step, n).last())
    }
}

proof fn lemma_follow_bounded(t: Position, h: Position)
    requires
        bounded(t),
        bounded(h),
    ensures
        bounded(follow_spec(t, h)),
        touching(follow_spec(t, h), h),
    decreases gap(t, h),
{
    if !touching(t, h) {
        lemma_follow_bounded(toward(t, h), h);
    }
}

proof fn lemma_settle_bounded(ks: Seq<Position>, i: int)
    requires
        forall|j: int| 0 <= j < ks.len() ==> bounded(#[trigger] ks[j]),
    ensures
        settle(ks, i).len() == ks.len(),
        forall|j: int| 0 <= j < ks.len() ==> bounded(#[trigger] settle(ks, i)[j]),
        1 <= i <= ks.len() ==> settle(ks, i)[0] == ks[0],
    decreases ks.len() - i,
{
    if 1 <= i < ks.len() {
        lemma_follow_bounded(ks[i], ks[i - 1]);
        let next = ks.update(i, follow_spec(ks[i], ks[i - 1]));
        assert forall|j: int| 0 <= j < next.len() implies bounded(#[trigger] next[j]) by {}
        lemma_settle_bounded(next, i + 1);
    }
}

/// After settling from knot `i` on, every knot touches the one before it,
/// if the knots before `i` already did.
pub proof fn lemma_settle_touching(ks: Seq<Position>, i: int)
    requires
        forall|j: int| 0 <= j < ks.len() ==> bounded(#[trigger] ks[j]),
        1 <= i <= ks.len(),
        forall|k: int| 1 <= k < i ==> touching(#[trigger] ks[k], ks[k - 1]),
    ensures
        forall|k: int|
            1 <= k < ks.len() ==> touching(#[trigger] settle(ks, i)[k], settle(ks, i)[k - 1]),
    decreases ks.len() - i,
{
    if i < ks.len() {
        lemma_follow_bounded(ks[i], ks[i - 1]);
        let next = ks.update(i, follow_spec(ks[i], ks[i - 1]));
        assert forall|j: int| 0 <= j < next.len() implies bounded(#[trigger] next[j]) by {}
        assert forall|k: int| 1 <= k < i + 1 implies touching(#[trigger] next[k], next[k - 1]) by {
            if k < i {
                assert(next[k] == ks[k] && next[k - 1] == ks[k - 1]);
            }
        }
        lemma_settle_touching(next, i + 1);
        assert(settle(ks, i) == settle(next, i + 1));
    } else {
        assert(settle(ks, i) == ks);
    }
}

impl Move {
    /// The displacement of the whole move.
    pub fn get_as_position(&self) -> (r: Position)
        requires
            self.amount() > i64::MIN,
        ensures
            r == scaled(self.unit(), self.amount() as int),
    {
        match self {
            Move::Right(d) => Position { x: *d, y: 0 },
            Move::Left(d) => Position { x: -*d, y: 0 },
            Move::Up(d) => Position { x: 0, y: *d },
            Move::Down(d) => Position { x: 0, y: -*d },
        }
    }

    /// The unit step of the move.
    pub fn get_direction(&self) -> (r: Position)
        ensures
            r == self.unit(),
    {
        match self {
            Move::Right(_) => Position { x: 1, y: 0 },
            Move::Left(_) => Position { x: -1, y: 0 },
            Move::Up(_) => Position { x: 0, y: 1 },
            Move::Down(_) => Position { x: 0, y: -1 },
        }
    }

    pub open spec fn unit(&self) -> Position {
        match self {
            Move::Right(_) => Position { x: 1, y: 0 },
            Move::Left(_) => Position { x: -1i64, y: 0 },
            Move::Up(_) => Position { x: 0, y: 1 },
            Move::Down(_) => Position { x: 0, y: -1i64 },
        }
    }

    pub open spec fn amount(&self) -> i64 {
        match self {
            Move::Right(d) => *d,
            Move::Left(d) => *d,
            Move::Up(d) => *d,
            Move::Down(d) => *d,
        }
    }
}

pub open spec fn scaled(p: Position, k: int) -> Position {
    Position { x: (p.x * k) as i64, y: (p.y * k) as i64 }
}

impl Position {
    /// The origin.
    pub fn new() -> (r: Position)
        ensures
            r == (Position { x: 0, y: 0 }),
    {
        Position { x: 0, y: 0 }
    }

    /// Whether the two points touch, diagonals included.
    pub fn is_touching(&self, other: &Self) -> (r: bool)
        requires
            bounded(*self),
            bounded(*other),
        ensures
            r == touching(*self, *other),
    {
        let dx = self.x - other.x;
        let dy = self.y - other.y;
        -2 < dx && dx < 2 && -2 < dy && dy < 2
    }

    /// Each coordinate clamped to `-1..=1`.
    pub fn get_direction(&self) -> (r: Position)
        ensures
            r.x == sign(self.x as int),
            r.y == sign(self.y as int),
    {
        let x: i64 = if self.x > 0 {
            1
        } else if self.x < 0 {
            -1
        } else {
            0
        };
        let y: i64 = if self.y > 0 {
            1
        } else if self.y < 0 {
            -1
        } else {
            0
        };
        Position { x, y }
    }
}

/// One knot of the rope.
#[derive(Debug, Clone, Copy, PartialEq, Eq, Structural)]
pub struct Knot {
    pub pos: Position,
}

impl Knot {
    /// A knot at the origin.
    pub fn new() -> (r: Knot)
        ensures
            r.pos == (Position { x: 0, y: 0 }),
    {
        Knot { pos: Position::new() }
    }

    /// Moves this knot toward `other`, a unit step at a time, until they touch.
    pub fn follow(&mut self, other: &Self)
        requires
            bounded(old(self).pos),
            bounded(other.pos),
        ensures
            final(self).pos == follow_spec(old(self).pos, other.pos),
            touching(final(self).pos, other.pos),
            bounded(final(self).pos),
    {
        proof {
            lemma_follow_bounded(self.pos, other.pos);
        }
        while !self.pos.is_touching(&other.pos)
            invariant
                bounded(self.pos),
                bounded(other.pos),
                follow_spec(self.pos, other.pos) == follow_spec(old(self).pos, other.pos),
            decreases gap(self.pos, other.pos),
        {
            let d = Position { x: other.pos.x - self.pos.x, y: other.pos.y - self.pos.y }.get_direction();
            self.pos = Position { x: self.pos.x + d.x, y: self.pos.y + d.y };
        }
    }
}

/// A rope of knots and the set of positions its last knot has visited.
#[derive(Debug, Clone)]
pub struct Chain {
    knots: Vec<Knot>,
    visited: Vec<Position>,
}

impl Chain {
    /// Knot positions, head first.
    pub closed spec fn knot_positions(&self) -> Seq<Position> {
        self.knots@.map_values(|k: Knot| k.pos)
    }

    /// Positions visited by the last knot.
    pub closed spec fn visited_set(&self) -> Set<Position> {
        self.visited@.to_set()
    }

    pub closed spec fn wf(&self) -> bool {
        &&& self.knots@.len() >= 1
        &&& self.visited@.no_duplicates()
        &&& forall|i: int| 0 <= i < self.knots@.len() ==> bounded(#[trigger] self.knots@[i].pos)
    }

    /// A rope of `len` knots at the origin, which the last knot has visited.
    pub fn new(len: usize) -> (r: Chain)
        requires
            len >= 1,
        ensures
            r.wf(),
            r.knot_positions() == Seq::new(len as nat, |i: int| Position { x: 0, y: 0 }),
            r.visited_set() == Set::empty().insert(Position { x: 0, y: 0 }),
    {
        let mut knots: Vec<Knot> = Vec::new();
        let mut i: usize = 0;
        while i < len
            invariant
                0 <= i <= len,
                knots@.len() == i,
                forall|j: int| 0 <= j < i ==> (#[trigger] knots@[j]).pos == (Position { x: 0, y: 0 }),
            decreases len - i,
        {
            knots.push(Knot::new());
            i = i + 1;
        }
        let mut visited: Vec<Position> = Vec::new();
        visited.push(Position::new());
        let r = Chain { knots, visited };
        proof {
            assert(r.knot_positions() =~= Seq::new(len as nat, |i: int| Position { x: 0, y: 0 }));
            Seq::<Position>::empty().lemma_push_to_set_commute(Position { x: 0, y: 0 });
            assert(r.visited@ =~= Seq::<Position>::empty().push(Position { x: 0, y: 0 }));
            assert(Seq::<Position>::empty().to_set() =~= Set::empty());
        }
        r
    }

    /// Records `p` as visited.
    fn visit(&mut self, p: Position)
        requires
            old(self).wf(),
        ensures
            final(self).wf(),
            final(self).visited_set() == old(self).visited_set().insert(p),
            final(self).knots@ == old(self).knots@,
    {
        let mut i: usize = 0;
        while i < self.visited.len()
            invariant
                *self == *old(self),
                self.wf(),
                0 <= i <= self.visited@.len(),
                forall|j: int| 0 <= j < i ==> self.visited@[j] != p,
            decreases self.visited@.len() - i,
        {
            if self.visited[i] == p {
                proof {
                    assert(self.visited@.contains(p));
                    assert(self.visited@.to_set().insert(p) =~= self.visited@.to_set());
                }
                return;
            }
            i = i + 1;
        }
        let ghost before = self.visited@;
        self.visited.push(p);
        proof {
            before.lemma_push_to_set_commute(p);
            assert(self.visited@.no_duplicates());
        }
    }

    /// Moves the head as `m` says, one unit step at a time, the other knots
    /// following, and records where the last knot goes.
    pub fn execute_move(&mut self, m: &Move)
        requires
            old(self).wf(),
            0 <= m.amount(),
            abs(old(self).knot_positions()[0].x as int) + m.amount() <= LIMIT,
            abs(old(self).knot_positions()[0].y as int) + m.amount() <= LIMIT,
        ensures
            final(self).wf(),
            final(self).knot_positions() == advance_n(
                old(self).knot_positions(),
                m.unit(),
                m.amount() as nat,
            ),
            final(self).visited_set() == old(self).visited_set().union(
                tail_trace(old(self).knot_positions(), m.unit(), m.amount() as nat),
            ),
            m.amount() > 0 ==> forall|k: int|
                1 <= k < final(self).knot_positions().len() ==> touching(
                    #[trigger] final(self).knot_positions()[k],
                    final(self).knot_positions()[k - 1],
                ),
    {
        let step = m.get_direction();
        let total = match m {
            Move::Right(d) => *d,
            Move::Left(d) => *d,
            Move::Up(d) => *d,
            Move::Down(d) => *d,
        };
        let ghost ks0 = self.knot_positions();
        let ghost v0 = self.visited_set();
        let mut done: i64 = 0;
        while done < total
            invariant
                self.wf(),
                0 <= done <= total,
                total == m.amount(),
                step == m.unit(),
                self.knot_positions() == advance_n(ks0, step, done as nat),
                self.visited_set() == v0.union(tail_trace(ks0, step, done as nat)),
                self.knots@.len() == ks0.len(),
                abs(self.knots@[0].pos.x - ks0[0].x) <= done,
                abs(self.knots@[0].pos.y - ks0[0].y) <= done,
                abs(ks0[0].x as int) + total <= LIMIT,
                abs(ks0[0].y as int) + total <= LIMIT,
                done > 0 ==> forall|k: int|
                    1 <= k < self.knot_positions().len() ==> touching(
                        #[trigger] self.knot_positions()[k],
                        self.knot_positions()[k - 1],
                    ),
            decreases total - done,
        {
            let ghost ks = self.knot_positions();
            let head = self.knots[0];
            let moved = Knot { pos: Position { x: head.pos.x + step.x, y: head.pos.y + step.y } };
            self.knots.set(0, moved);
            proof {
                assert(self.knot_positions() =~= ks.update(0, plus(ks[0], step)));
                let moved_ks = ks.update(0, plus(ks[0], step));
                assert forall|j: int| 0 <= j < moved_ks.len() implies bounded(#[trigger] moved_ks[j]) by {
                    if j > 0 {
                        assert(moved_ks[j] == self.knots@[j].pos);
                    }
                }
                lemma_settle_touching(moved_ks, 1);
            }
            let n = self.knots.len();
            let mut i: usize = 1;
            while i < n
                invariant
                    n == self.knots@.len(),
                    n == ks0.len(),
                    1 <= i <= n,
                    settle(self.knot_positions(), i as int) == advance(ks, step),
                    forall|j: int| 0 <= j < n ==> bounded(#[trigger] self.knots@[j].pos),
                    self.knots@[0] == moved,
                    self.visited@.no_duplicates(),
                    self.visited_set() == v0.union(tail_trace(ks0, step, done as nat)),
                decreases n - i,
            {
                let prev = self.knots[i - 1];
                let mut k = self.knots[i];
                let ghost cur = self.knot_positions();
                k.follow(&prev);
                self.knots.set(i, k);
                proof {
                    assert(self.knot_positions() =~= cur.update(
                        i as int,
                        follow_spec(cur[i as int], cur[i - 1]),
                    ));
                }
                i = i + 1;
            }
            proof {
                assert(self.knot_positions() == advance(ks, step));
                assert(advance_n(ks0, step, (done + 1) as nat) == advance(
                    advance_n(ks0, step, done as nat),
                    step,
                ));
            }
            let tail = self.knots[n - 1].pos;
            self.visit(tail);
            proof {
                assert(self.visited_set() =~= v0.union(tail_trace(ks0, step, (done + 1) as nat)));
            }
            done = done + 1;
        }
    }

    /// How many positions the last knot has visited.
    pub fn get_visited_count(&self) -> (r: usize)
        requires
            self.wf(),
        ensures
            r == self.visited_set().len(),
    {
        proof {
            self.visited@.unique_seq_to_set();
        }
        self.visited.len()
    }
}

} // verus!
