//! Height-constrained shortest paths over an elevation grid.
//!
//! A grid cell holds an elevation in `0..=25`. A step moves to one of the four
//! axis-aligned neighbours. Climbing (the ascending policy) allows a step that
//! rises by at most one unit; descending (the inverse policy) allows a step that
//! drops by at most one unit. The frontier search is a best-first search that
//! expands the open cell with the least distance plus heuristic (the Manhattan
//! distance to a goal cell, or nothing), breaking ties by insertion order. It
//! finds a shortest route from a source to the first target it meets, and
//! proves that no shorter route exists.
use vstd::prelude::*;

verus! {

/// The highest elevation a cell may hold (`z`).
pub const MAX_ELEVATION: u8 = 25;

/// A grid position as `(column, row)`.
#[derive(Debug, Clone, Copy, PartialEq, Eq, Hash, PartialOrd, Ord, Structural)]
pub struct Position(pub i32, pub i32);

/// The four unit moves, in the order in which neighbours are generated.
#[derive(Debug, Clone, Copy, PartialEq, Eq, Structural)]
pub enum Direction {
    Up,
    Down,
    Right,
    Left,
}

pub open spec fn offset(d: Direction) -> (int, int) {
    match d {
        Direction::Up => (0, 1),
        Direction::Down => (0, -1),
        Direction::Right => (1, 0),
        Direction::Left => (-1, 0),
    }
}

impl Direction {
    /// The unit vector of this direction.
    pub fn get_as_pos(&self) -> (r: Position)
        ensures
            r.0 as int == offset(*self).0,
            r.1 as int == offset(*self).1,
    {
        match self {
            Direction::Up => Position(0, 1),
            Direction::Down => Position(0, -1),
            Direction::Right => Position(1, 0),
            Direction::Left => Position(-1, 0),
        }
    }
}

pub open spec fn abs(x: int) -> int {
    if x < 0 { -x } else { x }
}

/// Manhattan distance between two positions.
pub open spec fn manhattan(a: Position, b: Position) -> int {
    abs(a.0 - b.0) + abs(a.1 - b.1)
}

/// The search heuristic: the Manhattan distance to `guide`, or 0 without one.
pub open spec fn heuristic(guide: Option<Position>, p: Position) -> int {
    match guide {
        Some(c) => manhattan(p, c),
        None => 0,
    }
}

/// The position one unit away from `p` in direction `d`.
pub open spec fn shifted(p: Position, d: Direction) -> (int, int) {
    (p.0 + offset(d).0, p.1 + offset(d).1)
}

impl Position {
    /// The position one unit away in direction `dir`.
    pub fn move_in_direction(self, dir: Direction) -> (r: Position)
        requires
            i32::MIN <= shifted(self, dir).0 <= i32::MAX,
            i32::MIN <= shifted(self, dir).1 <= i32::MAX,
        ensures
            (r.0 as int, r.1 as int) == shifted(self, dir),
    {
        let d = dir.get_as_pos();
        Position(self.0 + d.0, self.1 + d.1)
    }

    /// Manhattan distance to `other`.
    pub fn get_distance(&self, other: &Position) -> (r: u64)
        ensures
            r as int == manhattan(*self, *other),
    {
        let dx: i64 = self.0 as i64 - other.0 as i64;
        let dy: i64 = self.1 as i64 - other.1 as i64;
        let ax: i64 = if dx < 0 { -dx } else { dx };
        let ay: i64 = if dy < 0 { -dy } else { dy };
        (ax + ay) as u64
    }
}

/// Which elevation change a single step may make.
#[derive(Debug, Clone, Copy, PartialEq, Eq, Structural)]
pub enum Climb {
    /// Rise by at most one unit (any drop is allowed).
    Ascending,
    /// Drop by at most one unit (any rise is allowed); the inverse of `Ascending`.
    Descending,
}

/// What the frontier search stops at.
#[derive(Debug, Clone, Copy, PartialEq, Eq, Structural)]
pub enum Target {
    /// One fixed cell.
    Cell(Position),
    /// Any cell of the given elevation.
    Elevation(u8),
}

/// Whether one step from elevation `from` to elevation `to` is allowed.
pub open spec fn legal_step(policy: Climb, from: int, to: int) -> bool {
    match policy {
        Climb::Ascending => to <= from + 1,
        Climb::Descending => to >= if from == 0 { 0 } else { from - 1 },
    }
}

/// A climbing step from `a` to `b` is allowed exactly when a descending step
/// from `b` to `a` is.
pub proof fn lemma_rule_inversion(a: u8, b: u8)
    ensures
        legal_step(Climb::Ascending, a as int, b as int) <==> legal_step(
            Climb::Descending,
            b as int,
            a as int,
        ),
{
}

/// An elevation grid with a start and a goal cell.
#[derive(Debug, Clone)]
pub struct HeightMap {
    start: Position,
    goal: Position,
    heights: Vec<Vec<u8>>,
}

/// The bookkeeping of one frontier search: recorded distances, predecessors,
/// closed cells (one entry per cell), and the frontier in insertion order.
pub struct SearchState {
    pub dist: Seq<Option<usize>>,
    pub pred: Seq<Position>,
    pub closed: Seq<bool>,
    pub frontier: Seq<Position>,
}

/// The cells of a returned route, if any.
pub open spec fn route_view(r: Option<Vec<Position>>) -> Option<Seq<Position>> {
    match r {
        Some(v) => Some(v@),
        None => None,
    }
}

/// Number of marked entries in a table of flags.
pub open spec fn count_marked(s: Seq<bool>) -> nat
    decreases s.len(),
{
    if s.len() == 0 {
        0
    } else {
        count_marked(s.drop_last()) + if s.last() {
            1nat
        } else {
            0nat
        }
    }
}

pub proof fn lemma_marked_bounded(s: Seq<bool>)
    ensures
        count_marked(s) <= s.len(),
    decreases s.len(),
{
    if s.len() > 0 {
        lemma_marked_bounded(s.drop_last());
    }
}

pub proof fn lemma_marked_none(s: Seq<bool>)
    requires
        forall|i: int| 0 <= i < s.len() ==> !s[i],
    ensures
        count_marked(s) == 0,
    decreases s.len(),
{
    if s.len() > 0 {
        lemma_marked_none(s.drop_last());
    }
}

pub proof fn lemma_marked_mark(s: Seq<bool>, i: int)
    requires
        0 <= i < s.len(),
        !s[i],
    ensures
        count_marked(s.update(i, true)) == count_marked(s) + 1,
    decreases s.len(),
{
    let t = s.update(i, true);
    if i == s.len() - 1 {
        assert(t.drop_last() =~= s.drop_last());
    } else {
        assert(t.drop_last() =~= s.drop_last().update(i, true));
        lemma_marked_mark(s.drop_last(), i);
    }
}

/// A rectangular, non-empty grid of elevations within `0..=25` that contains
/// both `start` and `goal`, small enough to be indexed.
pub open spec fn grid_ok(rows: Seq<Seq<u8>>, start: Position, goal: Position) -> bool {
    let h = rows.len() as int;
    let w = if h == 0 { 0 } else { rows[0].len() as int };
    &&& 0 < h <= i32::MAX
    &&& 0 < w <= i32::MAX
    &&& h * w <= usize::MAX
    &&& forall|y: int| 0 <= y < h ==> #[trigger] rows[y].len() == w
    &&& forall|y: int, x: int| 0 <= y < h && 0 <= x < w ==> #[trigger] rows[y][x] <= MAX_ELEVATION
    &&& 0 <= start.0 < w && 0 <= start.1 < h
    &&& 0 <= goal.0 < w && 0 <= goal.1 < h
}

impl HeightMap {
    /// The elevations, row by row.
    pub closed spec fn rows(&self) -> Seq<Seq<u8>> {
        self.heights@.map_values(|r: Vec<u8>| r@)
    }

    /// The start cell (elevation `a`).
    pub closed spec fn start_cell(&self) -> Position {
        self.start
    }

    /// The goal cell (elevation `z`).
    pub closed spec fn goal_cell(&self) -> Position {
        self.goal
    }

    pub open spec fn height(&self) -> int {
        self.rows().len() as int
    }

    pub open spec fn width(&self) -> int {
        if self.rows().len() == 0 { 0 } else { self.rows()[0].len() as int }
    }

    /// Number of cells.
    pub open spec fn size(&self) -> int {
        self.height() * self.width()
    }

    pub open spec fn in_grid(&self, x: int, y: int) -> bool {
        0 <= y < self.height() && 0 <= x < self.width()
    }

    pub open spec fn contains(&self, p: Position) -> bool {
        self.in_grid(p.0 as int, p.1 as int)
    }

    pub open spec fn elev(&self, x: int, y: int) -> int {
        self.rows()[y][x] as int
    }

    pub open spec fn elevation(&self, p: Position) -> int {
        self.elev(p.0 as int, p.1 as int)
    }

    /// What a lookup of `p` yields: the stored elevation, or nothing outside the grid.
    pub open spec fn field(&self, p: Position) -> Option<u8> {
        if 0 <= p.1 < self.height() && 0 <= p.0 < self.rows()[p.1 as int].len() {
            Some(self.rows()[p.1 as int][p.0 as int])
        } else {
            None
        }
    }

    /// Rectangular, non-empty, every elevation within `0..=25`, start and goal inside.
    pub open spec fn wf(&self) -> bool {
        &&& self.height() > 0
        &&& self.width() > 0
        &&& self.height() <= i32::MAX
        &&& self.width() <= i32::MAX
        &&& self.size() <= usize::MAX
        &&& forall|y: int| 0 <= y < self.height() ==> #[trigger] self.rows()[y].len() == self.width()
        &&& forall|x: int, y: int| #[trigger] self.in_grid(x, y) ==> self.elev(x, y) <= MAX_ELEVATION
        &&& self.contains(self.start_cell())
        &&& self.contains(self.goal_cell())
    }

    /// One legal step from `a` to the adjacent cell `b`.
    pub open spec fn step(&self, policy: Climb, a: Position, b: Position) -> bool {
        &&& self.contains(a)
        &&& self.contains(b)
        &&& manhattan(a, b) == 1
        &&& legal_step(policy, self.elevation(a), self.elevation(b))
    }

    /// A non-empty sequence of cells, each reached from the one before by a legal step.
    pub open spec fn is_route(&self, policy: Climb, q: Seq<Position>) -> bool {
        &&& q.len() >= 1
        &&& self.contains(q[0])
        &&& forall|i: int| 0 <= i < q.len() - 1 ==> #[trigger] self.step(policy, q[i], q[i + 1])
    }

    pub open spec fn is_target(&self, target: Target, p: Position) -> bool {
        match target {
            Target::Cell(c) => p == c,
            Target::Elevation(e) => self.elevation(p) == e as int,
        }
    }

    /// The neighbour of `p` in direction `d`, when it exists and can be stepped to.
    pub open spec fn candidate(&self, policy: Climb, p: Position, d: Direction) -> Seq<Position> {
        let (x, y) = shifted(p, d);
        if self.in_grid(x, y) && legal_step(policy, self.elevation(p), self.elev(x, y)) {
            seq![Position(x as i32, y as i32)]
        } else {
            seq![]
        }
    }

    /// The cells reachable from `p` in one step, in the order up, down, right, left.
    pub open spec fn neighbors(&self, policy: Climb, p: Position) -> Seq<Position> {
        self.candidate(policy, p, Direction::Up) + self.candidate(policy, p, Direction::Down)
            + self.candidate(policy, p, Direction::Right) + self.candidate(
            policy,
            p,
            Direction::Left,
        )
    }

    /// The elevation at `pos`, or `None` outside the grid.
    pub fn get_field(&self, pos: Position) -> (r: Option<u8>)
        ensures
            r == self.field(pos),
    {
        proof {
            assert(self.rows().len() == self.heights@.len());
        }
        if pos.1 < 0 || pos.0 < 0 {
            return None;
        }
        let y = pos.1 as usize;
        let x = pos.0 as usize;
        if y < self.heights.len() {
            let row = &self.heights[y];
            proof {
                assert(self.rows()[y as int] == row@);
            }
            if x < row.len() {
                Some(row[x])
            } else {
                None
            }
        } else {
            None
        }
    }

    /// Whether a step from elevation `from` to `to` is allowed under `policy`.
    fn allows(policy: Climb, from: u8, to: u8) -> (r: bool)
        requires
            from <= MAX_ELEVATION,
        ensures
            r == legal_step(policy, from as int, to as int),
    {
        match policy {
            Climb::Ascending => to <= from + 1,
            Climb::Descending => to >= from.saturating_sub(1),
        }
    }

    /// The cells reachable from `pos` in one step under `policy`, in the order
    /// up, down, right, left.
    pub fn get_neighbors(&self, pos: Position, policy: Climb) -> (r: Vec<Position>)
        requires
            self.wf(),
            self.contains(pos),
        ensures
            r@ == self.neighbors(policy, pos),
    {
        let mut accessible: Vec<Position> = Vec::new();
        let own = self.get_field(pos).unwrap();
        let dirs = [Direction::Up, Direction::Down, Direction::Right, Direction::Left];
        let ghost all = self.neighbors(policy, pos);
        let mut k: usize = 0;
        while k < 4
            invariant
                self.wf(),
                self.contains(pos),
                own as int == self.elevation(pos),
                dirs@ == seq![Direction::Up, Direction::Down, Direction::Right, Direction::Left],
                0 <= k <= 4,
                k == 0 ==> accessible@ == Seq::<Position>::empty(),
                k == 1 ==> accessible@ == self.candidate(policy, pos, Direction::Up),
                k == 2 ==> accessible@ == self.candidate(policy, pos, Direction::Up)
                    + self.candidate(policy, pos, Direction::Down),
                k == 3 ==> accessible@ == self.candidate(policy, pos, Direction::Up)
                    + self.candidate(policy, pos, Direction::Down) + self.candidate(
                    policy,
                    pos,
                    Direction::Right,
                ),
                all == self.neighbors(policy, pos),
                k == 4 ==> accessible@ == all,
            decreases 4 - k,
        {
            let d = dirs[k];
            let n_pos = pos.move_in_direction(d);
            let ghost before = accessible@;
            match self.get_field(n_pos) {
                Some(h) => {
                    if Self::allows(policy, own, h) {
                        accessible.push(n_pos);
                    }
                },
                None => {},
            }
            proof {
                let (x, y) = shifted(pos, d);
                assert(n_pos == Position(x as i32, y as i32));
                if self.in_grid(x, y) {
                    assert(self.rows()[y].len() == self.width());
                }
                assert(accessible@ == before + self.candidate(policy, pos, d));
            }
            k = k + 1;
        }
        accessible
    }

    /// Every legal step from `a` leads to one of the cells that `neighbors` lists.
    pub proof fn lemma_step_is_neighbor(&self, policy: Climb, a: Position, b: Position)
        requires
            self.step(policy, a, b),
        ensures
            self.neighbors(policy, a).contains(b),
    {
        let dx = b.0 - a.0;
        let dy = b.1 - a.1;
        let d = if dx == 1 {
            Direction::Right
        } else if dx == -1 {
            Direction::Left
        } else if dy == 1 {
            Direction::Up
        } else {
            Direction::Down
        };
        assert(shifted(a, d) == (b.0 as int, b.1 as int));
        assert(self.candidate(policy, a, d) == seq![b]);
        let c0 = self.candidate(policy, a, Direction::Up);
        let c1 = self.candidate(policy, a, Direction::Down);
        let c2 = self.candidate(policy, a, Direction::Right);
        let c3 = self.candidate(policy, a, Direction::Left);
        let all = self.neighbors(policy, a);
        assert(all == c0 + c1 + c2 + c3);
        if d == Direction::Up {
            assert(all[0] == b);
        } else if d == Direction::Down {
            assert(all[c0.len() as int] == b);
        } else if d == Direction::Right {
            assert(all[(c0.len() + c1.len()) as int] == b);
        } else {
            assert(all[(c0.len() + c1.len() + c2.len()) as int] == b);
        }
    }

    /// Every cell that `neighbors` lists is reached by a legal step.
    pub proof fn lemma_neighbor_is_step(&self, policy: Climb, a: Position, j: int)
        requires
            self.wf(),
            self.contains(a),
            0 <= j < self.neighbors(policy, a).len(),
        ensures
            self.step(policy, a, self.neighbors(policy, a)[j]),
    {
        let c0 = self.candidate(policy, a, Direction::Up);
        let c1 = self.candidate(policy, a, Direction::Down);
        let c2 = self.candidate(policy, a, Direction::Right);
        let c3 = self.candidate(policy, a, Direction::Left);
        assert(self.neighbors(policy, a) == c0 + c1 + c2 + c3);
    }

    /// The cells reachable from `pos` by a climbing step.
    pub fn get_neighbors_up(&self, pos: Position) -> (r: Vec<Position>)
        requires
            self.wf(),
            self.contains(pos),
        ensures
            r@ == self.neighbors(Climb::Ascending, pos),
    {
        self.get_neighbors(pos, Climb::Ascending)
    }

    /// The cells reachable from `pos` by a descending step.
    pub fn get_neighbors_down(&self, pos: Position) -> (r: Vec<Position>)
        requires
            self.wf(),
            self.contains(pos),
        ensures
            r@ == self.neighbors(Climb::Descending, pos),
    {
        self.get_neighbors(pos, Climb::Descending)
    }

    /// Row-major index of a cell.
    pub open spec fn index_of(&self, p: Position) -> int {
        p.1 * self.width() + p.0
    }

    /// The entry of a per-cell table that belongs to `p`.
    pub open spec fn at<T>(&self, table: Seq<T>, p: Position) -> T {
        table[self.index_of(p)]
    }

    pub proof fn lemma_index_bounds(&self, p: Position)
        requires
            self.wf(),
            self.contains(p),
        ensures
            0 <= self.index_of(p) < self.size(),
    {
        let w = self.width();
        let h = self.height();
        let x = p.0 as int;
        let y = p.1 as int;
        assert(0 <= y * w) by (nonlinear_arith)
            requires
                0 <= y,
                0 < w,
        ;
        assert(y * w + x < h * w) by (nonlinear_arith)
            requires
                0 <= y < h,
                0 <= x < w,
        ;
    }

    pub proof fn lemma_index_injective(&self, p: Position, q: Position)
        requires
            self.wf(),
            self.contains(p),
            self.contains(q),
            self.index_of(p) == self.index_of(q),
        ensures
            p == q,
    {
        let w = self.width();
        let (x1, y1, x2, y2) = (p.0 as int, p.1 as int, q.0 as int, q.1 as int);
        assert(y1 == y2) by (nonlinear_arith)
            requires
                y1 * w + x1 == y2 * w + x2,
                0 <= x1 < w,
                0 <= x2 < w,
        ;
    }

    /// Changing the entry of one cell leaves the entries of all other cells alone.
    pub proof fn lemma_update_at<T>(&self, table: Seq<T>, c: Position, v: T)
        requires
            self.wf(),
            self.contains(c),
            table.len() == self.size(),
        ensures
            forall|p: Position|
                #![trigger self.at(table.update(self.index_of(c), v), p)]
                self.contains(p) ==> self.at(table.update(self.index_of(c), v), p) == if p == c {
                    v
                } else {
                    self.at(table, p)
                },
    {
        self.lemma_index_bounds(c);
        assert forall|p: Position| self.contains(p) implies self.at(
            table.update(self.index_of(c), v),
            p,
        ) == if p == c {
            v
        } else {
            self.at(table, p)
        } by {
            self.lemma_index_bounds(p);
            if p != c && self.index_of(p) == self.index_of(c) {
                self.lemma_index_injective(p, c);
            }
        }
    }

    /// Row-major index of a cell inside the grid.
    fn cell_index(&self, p: Position) -> (r: usize)
        requires
            self.wf(),
            self.contains(p),
        ensures
            r as int == self.index_of(p),
            r < self.size(),
    {
        proof {
            self.lemma_index_bounds(p);
            assert(self.rows()[0] == self.heights@[0]@);
        }
        let w = self.heights[0].len();
        proof {
            assert(p.1 * w <= p.1 * w + p.0);
        }
        (p.1 as usize) * w + (p.0 as usize)
    }

    /// The search's bookkeeping is consistent: `source` is the only cell at
    /// distance 0, no recorded distance exceeds `bound`, and every other
    /// discovered cell is one legal step from its predecessor, which sits one
    /// unit closer to the source.
    pub open spec fn sound(
        &self,
        policy: Climb,
        source: Position,
        dist: Seq<Option<usize>>,
        pred: Seq<Position>,
        bound: int,
    ) -> bool {
        &&& dist.len() == self.size()
        &&& pred.len() == self.size()
        &&& self.contains(source)
        &&& self.at(dist, source) == Some(0usize)
        &&& forall|p: Position|
            #![trigger self.at(dist, p)]
            self.contains(p) && self.at(dist, p) is Some ==> {
                let k = self.at(dist, p).unwrap();
                &&& k <= bound
                &&& (k == 0 ==> p == source)
                &&& self.linked(policy, dist, pred, p)
            }
    }

    /// A cell discovered at a positive distance `k` is one legal step from its
    /// predecessor, which was discovered at distance `k - 1`.
    #[verifier::opaque]
    pub open spec fn linked(
        &self,
        policy: Climb,
        dist: Seq<Option<usize>>,
        pred: Seq<Position>,
        p: Position,
    ) -> bool {
        let k = self.at(dist, p).unwrap();
        let q = self.at(pred, p);
        k > 0 ==> self.contains(q) && self.at(dist, q) == Some((k - 1) as usize) && self.step(
            policy,
            q,
            p,
        )
    }

    /// Every neighbour of the discovered cell `p` is discovered, at most one unit farther.
    pub open spec fn closed(&self, policy: Climb, dist: Seq<Option<usize>>, p: Position) -> bool {
        forall|j: int|
            0 <= j < self.neighbors(policy, p).len() ==> {
                let c = #[trigger] self.neighbors(policy, p)[j];
                &&& self.at(dist, c) is Some
                &&& self.at(dist, c).unwrap() <= self.at(dist, p).unwrap() + 1
            }
    }

    /// All cells discovered at a distance below `d` are closed.
    pub open spec fn closed_below(&self, policy: Climb, dist: Seq<Option<usize>>, d: int) -> bool {
        forall|p: Position|
            #![trigger self.at(dist, p)]
            self.contains(p) && self.at(dist, p) is Some && self.at(dist, p).unwrap() < d
                ==> self.closed(policy, dist, p)
    }

    /// A route from the source whose first `len` steps stay within cells that are
    /// closed ends at a discovered cell no farther than its number of steps.
    pub proof fn lemma_route_discovered(
        &self,
        policy: Climb,
        source: Position,
        dist: Seq<Option<usize>>,
        pred: Seq<Position>,
        bound: int,
        d: int,
        q: Seq<Position>,
        len: int,
    )
        requires
            self.wf(),
            self.sound(policy, source, dist, pred, bound),
            self.closed_below(policy, dist, d),
            self.is_route(policy, q),
            q[0] == source,
            0 <= len < q.len(),
            len <= d,
        ensures
            self.at(dist, q[len]) is Some,
            self.at(dist, q[len]).unwrap() <= len,
        decreases len,
    {
        if len > 0 {
            self.lemma_route_discovered(policy, source, dist, pred, bound, d, q, len - 1);
            let a = q[len - 1];
            assert(self.step(policy, q[len - 1], q[len - 1 + 1]));
            assert(self.contains(a));
            assert(self.closed(policy, dist, a));
            self.lemma_step_is_neighbor(policy, a, q[len]);
            let j = choose|j: int|
                0 <= j < self.neighbors(policy, a).len() && self.neighbors(policy, a)[j] == q[len];
            assert(self.neighbors(policy, a)[j] == q[len]);
        }
    }

    /// Every cell of a route lies inside the grid.
    pub proof fn lemma_route_contains(&self, policy: Climb, q: Seq<Position>, i: int)
        requires
            self.is_route(policy, q),
            0 <= i < q.len(),
        ensures
            self.contains(q[i]),
    {
        if i > 0 {
            assert(self.step(policy, q[i - 1], q[i - 1 + 1]));
        }
    }

    /// Walks the predecessor table back from the discovered cell `current` and
    /// returns the route from the source to `current`. The walk always ends at
    /// the source: consistent bookkeeping leaves no broken chain to report.
    pub fn reconstruct_path(
        &self,
        policy: Climb,
        dist: &Vec<Option<usize>>,
        pred: &Vec<Position>,
        current: Position,
    ) -> (r: Vec<Position>)
        requires
            self.wf(),
            self.contains(current),
            exists|source: Position, bound: int| self.sound(policy, source, dist@, pred@, bound),
            self.at(dist@, current) is Some,
        ensures
            self.is_route(policy, r@),
            r@.len() == self.at(dist@, current).unwrap() + 1,
            forall|i: int| 0 <= i < r@.len() - 1 ==> #[trigger] self.at(pred@, r@[i + 1]) == r@[i],
            r@ == self.trace(dist@, pred@, current),
            r@.last() == current,
            self.at(dist@, r@[0]) == Some(0usize),
    {
        let ghost (source, bound) = choose|source: Position, bound: int|
            self.sound(policy, source, dist@, pred@, bound);
        let ci = self.cell_index(current);
        let total = dist[ci].unwrap();
        let mut back: Vec<Position> = Vec::new();
        back.push(current);
        let mut cur = current;
        let mut k = total;
        while k > 0
            invariant
                self.wf(),
                self.sound(policy, source, dist@, pred@, bound),
                self.contains(cur),
                self.at(dist@, cur) == Some(k),
                k <= total,
                back@.len() == total - k + 1,
                back@[0] == current,
                back@.last() == cur,
                forall|i: int|
                    0 <= i < back@.len() - 1 ==> #[trigger] self.step(policy, back@[i + 1], back@[i]),
                forall|i: int|
                    0 <= i < back@.len() - 1 ==> #[trigger] self.at(pred@, back@[i]) == back@[i + 1],
            decreases k,
        {
            let ci = self.cell_index(cur);
            let prev = pred[ci];
            proof {
                reveal(HeightMap::linked);
                assert(self.linked(policy, dist@, pred@, cur));
            }
            let ghost old_back = back@;
            back.push(prev);
            proof {
                assert(self.step(policy, prev, cur));
                assert forall|i: int| 0 <= i < back@.len() - 1 implies #[trigger] self.step(
                    policy,
                    back@[i + 1],
                    back@[i],
                ) by {
                    if i < old_back.len() - 1 {
                        assert(back@[i] == old_back[i] && back@[i + 1] == old_back[i + 1]);
                    }
                }
                assert forall|i: int| 0 <= i < back@.len() - 1 implies #[trigger] self.at(pred@, back@[i])
                    == back@[i + 1] by {
                    if i < old_back.len() - 1 {
                        assert(back@[i] == old_back[i] && back@[i + 1] == old_back[i + 1]);
                    }
                }
            }
            cur = prev;
            k = k - 1;
        }
        let mut path: Vec<Position> = Vec::new();
        let mut i: usize = back.len();
        while i > 0
            invariant
                0 <= i <= back@.len(),
                back@.len() == total + 1,
                path@.len() == back@.len() - i,
                forall|j: int| 0 <= j < path@.len() ==> path@[j] == back@[back@.len() - 1 - j],
            decreases i,
        {
            i = i - 1;
            path.push(back[i]);
        }
        proof {
            let n = back@.len() as int;
            assert(path@[0] == back@[n - 1]);
            assert forall|j: int| 0 <= j < path@.len() - 1 implies #[trigger] self.step(
                policy,
                path@[j],
                path@[j + 1],
            ) by {
                assert(path@[j] == back@[n - 1 - j]);
                assert(path@[j + 1] == back@[n - 1 - j - 1]);
                assert(self.step(policy, back@[(n - 1 - j - 1) + 1], back@[n - 1 - j - 1]));
            }
            assert forall|j: int| 0 <= j < path@.len() - 1 implies #[trigger] self.at(pred@, path@[j + 1])
                == path@[j] by {
                assert(path@[j] == back@[n - 1 - j]);
                assert(path@[j + 1] == back@[n - 1 - j - 1]);
                assert(self.at(pred@, back@[n - 1 - j - 1]) == back@[(n - 1 - j - 1) + 1]);
            }
            assert(path@[n - 1] == back@[0]);
            self.lemma_trace_unique(policy, source, dist@, pred@, bound, path@, current);
        }
        path
    }

    /// `path` is a route from `source` to a target, and no route from `source`
    /// to a target has fewer cells.
    pub open spec fn shortest_route(
        &self,
        policy: Climb,
        source: Position,
        target: Target,
        path: Seq<Position>,
    ) -> bool {
        &&& self.is_route(policy, path)
        &&& path[0] == source
        &&& self.is_target(target, path.last())
        &&& forall|q: Seq<Position>|
            #![trigger self.is_route(policy, q)]
            self.is_route(policy, q) && q[0] == source && self.is_target(target, q.last())
                ==> path.len() <= q.len()
    }

    /// No route from `source` ends at a target.
    pub open spec fn unreachable(&self, policy: Climb, source: Position, target: Target) -> bool {
        forall|q: Seq<Position>|
            #![trigger self.is_route(policy, q)]
            self.is_route(policy, q) && q[0] == source ==> !self.is_target(target, q.last())
    }

    /// What the frontier search returns: a shortest route to a target when one
    /// exists, and nothing exactly when no route reaches a target.
    pub open spec fn search_result(
        &self,
        policy: Climb,
        source: Position,
        target: Target,
        r: Option<Vec<Position>>,
    ) -> bool {
        match r {
            Some(path) => self.shortest_route(policy, source, target, path@),
            None => self.unreachable(policy, source, target),
        }
    }

    fn hits(&self, target: Target, p: Position) -> (r: bool)
        requires
            self.wf(),
            self.contains(p),
        ensures
            r == self.is_target(target, p),
    {
        match target {
            Target::Cell(c) => p == c,
            Target::Elevation(e) => {
                let h = self.get_field(p).unwrap();
                proof {
                    assert(self.rows()[p.1 as int].len() == self.width());
                }
                h == e
            },
        }
    }

    /// A shortest climbing route from `start` to the goal cell.
    pub fn find_path(&self, start: Position) -> (r: Option<Vec<Position>>)
        requires
            self.wf(),
            self.contains(start),
        ensures
            self.search_result(Climb::Ascending, start, Target::Cell(self.goal_cell()), r),
            route_view(r) == self.search_outcome(
                Climb::Ascending,
                start,
                Target::Cell(self.goal_cell()),
                Some(self.goal_cell()),
            ),
    {
        self.frontier_search(start, Climb::Ascending, Target::Cell(self.goal), Some(self.goal))
    }

    /// A shortest descending route from `start` to any cell of elevation `goal`.
    pub fn search_from_end(&self, start: Position, goal: u8) -> (r: Option<Vec<Position>>)
        requires
            self.wf(),
            self.contains(start),
        ensures
            self.search_result(Climb::Descending, start, Target::Elevation(goal), r),
            route_view(r) == self.search_outcome(Climb::Descending, start, Target::Elevation(goal), None),
    {
        self.frontier_search(start, Climb::Descending, Target::Elevation(goal), None)
    }

    /// `steps` is the least number of steps of a route from `source` to a target.
    pub open spec fn min_steps(&self, policy: Climb, source: Position, target: Target, steps: int) -> bool {
        exists|path: Seq<Position>|
            #[trigger] self.shortest_route(policy, source, target, path) && path.len() == steps + 1
    }

    /// The number of steps of a shortest climb from the start to the goal, or
    /// `None` when the goal cannot be reached.
    pub fn shortest_climb(&self) -> (r: Option<u64>)
        requires
            self.wf(),
        ensures
            match r {
                Some(k) => self.min_steps(
                    Climb::Ascending,
                    self.start_cell(),
                    Target::Cell(self.goal_cell()),
                    k as int,
                ),
                None => self.unreachable(Climb::Ascending, self.start_cell(), Target::Cell(self.goal_cell())),
            },
    {
        match self.find_path(self.start) {
            Some(path) => Some((path.len() - 1) as u64),
            None => None,
        }
    }

    /// The number of steps of a shortest descent from the goal to any cell of
    /// elevation `a`, or `None` when there is none.
    pub fn shortest_descent(&self) -> (r: Option<u64>)
        requires
            self.wf(),
        ensures
            match r {
                Some(k) => self.min_steps(
                    Climb::Descending,
                    self.goal_cell(),
                    Target::Elevation(0),
                    k as int,
                ),
                None => self.unreachable(Climb::Descending, self.goal_cell(), Target::Elevation(0)),
            },
    {
        match self.search_from_end(self.goal, 0) {
            Some(path) => Some((path.len() - 1) as u64),
            None => None,
        }
    }

    /// The start cell.
    pub fn start(&self) -> (r: Position)
        ensures
            r == self.start_cell(),
    {
        self.start
    }

    /// The goal cell.
    pub fn goal(&self) -> (r: Position)
        ensures
            r == self.goal_cell(),
    {
        self.goal
    }

    /// Builds a map from its rows of elevations, its start and its goal;
    /// `None` when they do not form a valid grid.
    pub fn new(heights: Vec<Vec<u8>>, start: Position, goal: Position) -> (r: Option<HeightMap>)
        ensures
            r is Some <==> grid_ok(heights@.map_values(|row: Vec<u8>| row@), start, goal),
            r matches Some(m) ==> {
                &&& m.wf()
                &&& m.rows() == heights@.map_values(|row: Vec<u8>| row@)
                &&& m.start_cell() == start
                &&& m.goal_cell() == goal
            },
    {
        let ghost rows = heights@.map_values(|row: Vec<u8>| row@);
        let h = heights.len();
        if h == 0 || h > 0x7fff_ffff {
            return None;
        }
        let w = heights[0].len();
        proof {
            assert(rows[0] == heights@[0]@);
        }
        if w == 0 || w > 0x7fff_ffff || w > usize::MAX / h {
            proof {
                if w > usize::MAX / h {
                    assert(h * w > usize::MAX) by (nonlinear_arith)
                        requires
                            w > usize::MAX / h,
                            h > 0,
                    ;
                }
            }
            return None;
        }
        proof {
            assert(h * w <= usize::MAX) by (nonlinear_arith)
                requires
                    w <= usize::MAX / h,
                    h > 0,
            ;
        }
        let mut y: usize = 0;
        while y < h
            invariant
                h == heights@.len(),
                w == rows[0].len(),
                rows == heights@.map_values(|row: Vec<u8>| row@),
                0 <= y <= h,
                forall|yy: int| 0 <= yy < y ==> #[trigger] rows[yy].len() == w,
                forall|yy: int, x: int|
                    0 <= yy < y && 0 <= x < w ==> #[trigger] rows[yy][x] <= MAX_ELEVATION,
            decreases h - y,
        {
            let row = &heights[y];
            proof {
                assert(rows[y as int] == row@);
            }
            if row.len() != w {
                return None;
            }
            let mut x: usize = 0;
            while x < w
                invariant
                    row@ == rows[y as int],
                    row@.len() == w,
                    0 <= y < h,
                    h == heights@.len(),
                    rows == heights@.map_values(|row: Vec<u8>| row@),
                    0 <= x <= w,
                    forall|xx: int| 0 <= xx < x ==> #[trigger] row@[xx] <= MAX_ELEVATION,
                decreases w - x,
            {
                if row[x] > MAX_ELEVATION {
                    proof {
                        assert(rows[y as int][x as int] > MAX_ELEVATION);
                    }
                    return None;
                }
                x = x + 1;
            }
            y = y + 1;
        }
        if start.0 < 0 || start.1 < 0 || start.0 as usize >= w || start.1 as usize >= h {
            return None;
        }
        if goal.0 < 0 || goal.1 < 0 || goal.0 as usize >= w || goal.1 as usize >= h {
            return None;
        }
        let m = HeightMap { start, goal, heights };
        proof {
            assert(m.rows() == rows);
            assert forall|x: int, yy: int| #[trigger] m.in_grid(x, yy) implies m.elev(x, yy) <= MAX_ELEVATION by {
                assert(rows[yy][x] <= MAX_ELEVATION);
            }
        }
        Some(m)
    }

    /// The least step count is unique: two searches on the same grid, source and
    /// target that both succeed report the same number of steps.
    pub proof fn lemma_min_steps_unique(
        &self,
        policy: Climb,
        source: Position,
        target: Target,
        a: int,
        b: int,
    )
        requires
            self.min_steps(policy, source, target, a),
            self.min_steps(policy, source, target, b),
        ensures
            a == b,
    {
        let pa = choose|p: Seq<Position>|
            #[trigger] self.shortest_route(policy, source, target, p) && p.len() == a + 1;
        let pb = choose|p: Seq<Position>|
            #[trigger] self.shortest_route(policy, source, target, p) && p.len() == b + 1;
        assert(self.is_route(policy, pb));
        assert(self.is_route(policy, pa));
    }

    /// Along any route, a climbing step rises by at most one unit and a
    /// descending step drops by at most one unit.
    pub proof fn lemma_route_admissible(&self, policy: Climb, q: Seq<Position>, i: int)
        requires
            self.is_route(policy, q),
            0 <= i < q.len() - 1,
        ensures
            policy == Climb::Ascending ==> self.elevation(q[i + 1]) <= self.elevation(q[i]) + 1,
            policy == Climb::Descending ==> self.elevation(q[i + 1]) >= self.elevation(q[i]) - 1,
    {
        assert(self.step(policy, q[i], q[i + 1]));
    }

    /// Along a route the heuristic drops by at most one per step.
    pub proof fn lemma_heuristic_along(&self, policy: Climb, q: Seq<Position>, guide: Option<Position>, i: int, j: int)
        requires
            self.is_route(policy, q),
            0 <= i <= j < q.len(),
        ensures
            heuristic(guide, q[i]) <= heuristic(guide, q[j]) + (j - i),
        decreases j - i,
    {
        if i < j {
            self.lemma_heuristic_along(policy, q, guide, i + 1, j);
            assert(self.step(policy, q[i], q[i + 1]));
        }
    }

    /// On a route whose last cell is open, some cell is the first open one.
    pub proof fn lemma_first_open(&self, q: Seq<Position>, closed: Seq<bool>) -> (i: int)
        requires
            q.len() >= 1,
            !self.at(closed, q.last()),
        ensures
            0 <= i < q.len(),
            !self.at(closed, q[i]),
            forall|k: int| 0 <= k < i ==> #[trigger] self.at(closed, q[k]),
        decreases q.len(),
    {
        if q.len() == 1 {
            0
        } else if !self.at(closed, q[0]) {
            0
        } else {
            let rest = q.drop_first();
            let j = self.lemma_first_open(rest, closed);
            assert forall|k: int| 0 <= k < j + 1 implies #[trigger] self.at(closed, q[k]) by {
                if k > 0 {
                    assert(q[k] == rest[k - 1]);
                }
            }
            j + 1
        }
    }

    /// Every route from `source` to `c` has at least as many steps as the
    /// distance recorded for `c`.
    pub open spec fn optimal_at(&self, policy: Climb, source: Position, dist: Seq<Option<usize>>, c: Position) -> bool {
        forall|q: Seq<Position>|
            #![trigger self.is_route(policy, q)]
            self.is_route(policy, q) && q[0] == source && q.last() == c ==> self.at(dist, c).unwrap() <= q.len() - 1
    }

    /// Estimated route length through `p`: recorded distance plus the
    /// heuristic, the Manhattan distance to `guide` (none without a guide).
    pub open spec fn estimate(&self, dist: Seq<Option<usize>>, guide: Option<Position>, p: Position) -> int {
        self.at(dist, p).unwrap() + heuristic(guide, p)
    }

    /// The bookkeeping of the guided search: distances and predecessors are
    /// consistent, closed cells are discovered, final, and have all their
    /// neighbours discovered, predecessors are closed, and `frontier` lists
    /// each discovered open cell once.
    pub open spec fn guided_state(
        &self,
        policy: Climb,
        source: Position,
        dist: Seq<Option<usize>>,
        pred: Seq<Position>,
        closed: Seq<bool>,
        frontier: Seq<Position>,
        nclosed: int,
    ) -> bool {
        &&& self.sound(policy, source, dist, pred, nclosed)
        &&& closed.len() == self.size()
        &&& forall|p: Position|
            #![trigger self.at(closed, p)]
            self.contains(p) && self.at(closed, p) ==> self.at(dist, p) is Some && self.closed(policy, dist, p)
                && self.optimal_at(policy, source, dist, p)
        &&& forall|p: Position|
            #![trigger self.at(pred, p)]
            self.contains(p) && self.at(dist, p) is Some && self.at(dist, p).unwrap() > 0 ==> self.at(
                closed,
                self.at(pred, p),
            )
        &&& forall|j: int|
            0 <= j < frontier.len() ==> self.contains(#[trigger] frontier[j]) && self.at(dist, frontier[j]) is Some
                && !self.at(closed, frontier[j])
        &&& frontier.no_duplicates()
        &&& forall|p: Position|
            #![trigger self.at(dist, p)]
            self.contains(p) && self.at(dist, p) is Some && !self.at(closed, p) ==> frontier.contains(p)
    }

    /// The cell picked from the frontier with the least estimate is, with
    /// its estimate, no farther than any route from the source to an open
    /// cell, with that cell's heuristic added.
    pub proof fn lemma_pick_bound(
        &self,
        policy: Climb,
        source: Position,
        guide: Option<Position>,
        dist: Seq<Option<usize>>,
        pred: Seq<Position>,
        closed: Seq<bool>,
        frontier: Seq<Position>,
        nclosed: int,
        m: int,
        q: Seq<Position>,
    )
        requires
            self.wf(),
            self.guided_state(policy, source, dist, pred, closed, frontier, nclosed),
            0 <= m < frontier.len(),
            forall|j: int| 0 <= j < frontier.len() ==> self.estimate(dist, guide, frontier[m]) <= #[trigger] self.estimate(dist, guide, frontier[j]),
            self.is_route(policy, q),
            q[0] == source,
            !self.at(closed, q.last()),
        ensures
            self.estimate(dist, guide, frontier[m]) <= q.len() - 1 + heuristic(guide, q.last()),
    {
        let len = q.len() as int;
        let i = self.lemma_first_open(q, closed);
        self.lemma_heuristic_along(policy, q, guide, i, len - 1);
        self.lemma_route_contains(policy, q, i);
        let v = q[i];
        if i == 0 {
            assert(self.at(dist, v) == Some(0usize));
        } else {
            let a = q[i - 1];
            self.lemma_route_contains(policy, q, i - 1);
            assert(self.at(closed, a));
            let pre = q.subrange(0, i);
            assert(pre.last() == a);
            assert forall|k: int| 0 <= k < pre.len() - 1 implies #[trigger] self.step(policy, pre[k], pre[k + 1]) by {
                assert(self.step(policy, q[k], q[k + 1]));
            }
            assert(self.is_route(policy, pre));
            assert(self.at(dist, a).unwrap() <= i - 1);
            assert(self.step(policy, q[i - 1], q[i - 1 + 1]));
            self.lemma_step_is_neighbor(policy, a, v);
            let j = choose|j: int| 0 <= j < self.neighbors(policy, a).len() && self.neighbors(policy, a)[j] == v;
            assert(self.neighbors(policy, a)[j] == v);
        }
        assert(frontier.contains(v));
        let k = choose|k: int| 0 <= k < frontier.len() && frontier[k] == v;
        assert(self.estimate(dist, guide, frontier[m]) <= self.estimate(dist, guide, frontier[k]));
    }

    /// The cell picked from the frontier with the least estimate has its
    /// final distance.
    pub proof fn lemma_pick_is_optimal(
        &self,
        policy: Climb,
        source: Position,
        guide: Option<Position>,
        dist: Seq<Option<usize>>,
        pred: Seq<Position>,
        closed: Seq<bool>,
        frontier: Seq<Position>,
        nclosed: int,
        m: int,
    )
        requires
            self.wf(),
            self.guided_state(policy, source, dist, pred, closed, frontier, nclosed),
            0 <= m < frontier.len(),
            forall|j: int| 0 <= j < frontier.len() ==> self.estimate(dist, guide, frontier[m]) <= #[trigger] self.estimate(dist, guide, frontier[j]),
        ensures
            self.optimal_at(policy, source, dist, frontier[m]),
    {
        let u = frontier[m];
        assert forall|q: Seq<Position>|
            #![trigger self.is_route(policy, q)]
            self.is_route(policy, q) && q[0] == source && q.last() == u implies self.at(dist, u).unwrap() <= q.len() - 1 by {
            self.lemma_pick_bound(policy, source, guide, dist, pred, closed, frontier, nclosed, m, q);
        }
    }

    /// The predecessor chain of a discovered cell is a route from the source
    /// with one cell more than its distance.
    pub proof fn lemma_chain_route(
        &self,
        policy: Climb,
        source: Position,
        dist: Seq<Option<usize>>,
        pred: Seq<Position>,
        bound: int,
        p: Position,
    ) -> (q: Seq<Position>)
        requires
            self.sound(policy, source, dist, pred, bound),
            self.contains(p),
            self.at(dist, p) is Some,
        ensures
            self.is_route(policy, q),
            q[0] == source,
            q.last() == p,
            q.len() == self.at(dist, p).unwrap() + 1,
        decreases self.at(dist, p).unwrap(),
    {
        reveal(HeightMap::linked);
        assert(self.linked(policy, dist, pred, p));
        if self.at(dist, p).unwrap() == 0 {
            seq![p]
        } else {
            let a = self.at(pred, p);
            let r = self.lemma_chain_route(policy, source, dist, pred, bound, a);
            let q = r.push(p);
            assert forall|k: int| 0 <= k < q.len() - 1 implies #[trigger] self.step(policy, q[k], q[k + 1]) by {
                if k < r.len() - 1 {
                    assert(q[k] == r[k] && q[k + 1] == r[k + 1]);
                    assert(self.step(policy, r[k], r[k + 1]));
                }
            }
            q
        }
    }

    /// A closed cell stays closed when distances of other cells only appear or drop.
    pub proof fn lemma_closed_improves(
        &self,
        policy: Climb,
        dist: Seq<Option<usize>>,
        better: Seq<Option<usize>>,
        p: Position,
    )
        requires
            self.wf(),
            self.contains(p),
            self.at(dist, p) is Some,
            self.closed(policy, dist, p),
            self.at(better, p) == self.at(dist, p),
            forall|q: Position|
                #![trigger self.at(better, q)]
                self.contains(q) && self.at(dist, q) is Some ==> self.at(better, q) is Some
                    && self.at(better, q).unwrap() <= self.at(dist, q).unwrap(),
        ensures
            self.closed(policy, better, p),
    {
        assert forall|j: int| 0 <= j < self.neighbors(policy, p).len() implies {
            let c = #[trigger] self.neighbors(policy, p)[j];
            &&& self.at(better, c) is Some
            &&& self.at(better, c).unwrap() <= self.at(better, p).unwrap() + 1
        } by {
            self.lemma_neighbor_is_step(policy, p, j);
        }
    }

    /// Setting the distance of the open cell `nb`, a neighbour of the closed
    /// cell `u`, to one more than that of `u` keeps distances and
    /// predecessors consistent.
    pub proof fn lemma_relax_sound(
        &self,
        policy: Climb,
        source: Position,
        dist: Seq<Option<usize>>,
        pred: Seq<Position>,
        closed: Seq<bool>,
        nclosed: int,
        u: Position,
        nb: Position,
    )
        requires
            self.wf(),
            self.sound(policy, source, dist, pred, nclosed),
            closed.len() == self.size(),
            forall|p: Position|
                #![trigger self.at(pred, p)]
                self.contains(p) && self.at(dist, p) is Some && self.at(dist, p).unwrap() > 0 ==> self.at(
                    closed,
                    self.at(pred, p),
                ),
            self.contains(u),
            self.at(closed, u),
            self.at(dist, u) is Some,
            self.at(dist, u).unwrap() + 1 <= nclosed,
            self.at(dist, u).unwrap() + 1 <= usize::MAX,
            self.step(policy, u, nb),
            !self.at(closed, nb),
            self.at(dist, nb) is None || self.at(dist, u).unwrap() + 1 < self.at(dist, nb).unwrap(),
        ensures
            ({
                let t = Some((self.at(dist, u).unwrap() + 1) as usize);
                let nd = dist.update(self.index_of(nb), t);
                let np = pred.update(self.index_of(nb), u);
                &&& self.sound(policy, source, nd, np, nclosed)
                &&& forall|p: Position|
                    #![trigger self.at(np, p)]
                    self.contains(p) && self.at(nd, p) is Some && self.at(nd, p).unwrap() > 0 ==> self.at(
                        closed,
                        self.at(np, p),
                    )
            }),
    {
        let t = Some((self.at(dist, u).unwrap() + 1) as usize);
        self.lemma_index_bounds(nb);
        let nd = dist.update(self.index_of(nb), t);
        let np = pred.update(self.index_of(nb), u);
        assert(nd.len() == self.size() && np.len() == self.size());
        self.lemma_update_at(dist, nb, t);
        self.lemma_update_at(pred, nb, u);
        assert(u != nb);
        assert(nb != source);
        assert(self.at(nd, source) == Some(0usize));
        assert forall|p: Position| #![trigger self.at(nd, p)]
            self.contains(p) && self.at(nd, p) is Some implies {
            let k = self.at(nd, p).unwrap();
            &&& k <= nclosed
            &&& (k == 0 ==> p == source)
            &&& self.linked(policy, nd, np, p)
        } by {
            reveal(HeightMap::linked);
            if p != nb {
                assert(self.linked(policy, dist, pred, p));
                let k = self.at(dist, p).unwrap();
                if k > 0 {
                    let q = self.at(pred, p);
                    assert(self.at(closed, q));
                    assert(q != nb);
                }
            }
        }
        assert forall|p: Position|
            #![trigger self.at(np, p)]
            self.contains(p) && self.at(nd, p) is Some && self.at(nd, p).unwrap() > 0 implies self.at(
                closed,
                self.at(np, p),
            ) by {
            if p != nb {
                assert(self.at(pred, p) == self.at(np, p));
            }
        }
    }

    /// Setting the distance of the open cell `nb` to `t`, below its old
    /// distance if it had one, keeps the closed cells closed and final, and
    /// the frontier exact once `nb` joins it (if it was undiscovered).
    pub proof fn lemma_relax_rest(
        &self,
        policy: Climb,
        source: Position,
        dist: Seq<Option<usize>>,
        closed: Seq<bool>,
        frontier: Seq<Position>,
        u: Position,
        nb: Position,
        t: usize,
        j: int,
        nf: Seq<Position>,
    )
        requires
            nf == if dist[self.index_of(nb)] is None { frontier.push(nb) } else { frontier },
            self.wf(),
            dist.len() == self.size(),
            closed.len() == self.size(),
            forall|p: Position|
                #![trigger self.at(closed, p)]
                self.contains(p) && self.at(closed, p) && p != u ==> self.at(dist, p) is Some && self.closed(policy, dist, p)
                    && self.optimal_at(policy, source, dist, p),
            self.contains(u),
            self.at(closed, u),
            self.at(dist, u) is Some,
            self.optimal_at(policy, source, dist, u),
            forall|k: int|
                0 <= k < frontier.len() ==> self.contains(#[trigger] frontier[k]) && self.at(dist, frontier[k]) is Some
                    && !self.at(closed, frontier[k]),
            frontier.no_duplicates(),
            forall|p: Position|
                #![trigger self.at(dist, p)]
                self.contains(p) && self.at(dist, p) is Some && !self.at(closed, p) ==> frontier.contains(p),
            self.contains(nb),
            !self.at(closed, nb),
            self.at(dist, nb) is None || t < self.at(dist, nb).unwrap(),
            t == self.at(dist, u).unwrap() + 1,
            0 <= j <= self.neighbors(policy, u).len(),
            forall|k: int|
                0 <= k < j ==> self.at(dist, #[trigger] self.neighbors(policy, u)[k]) is Some
                    && self.at(dist, self.neighbors(policy, u)[k]).unwrap() <= self.at(dist, u).unwrap() + 1,
        ensures
            ({
                let nd = dist.update(self.index_of(nb), Some(t));
                &&& forall|p: Position|
                    #![trigger self.at(closed, p)]
                    self.contains(p) && self.at(closed, p) && p != u ==> self.at(nd, p) is Some && self.closed(policy, nd, p)
                        && self.optimal_at(policy, source, nd, p)
                &&& self.at(nd, u) == self.at(dist, u)
                &&& self.optimal_at(policy, source, nd, u)
                &&& forall|k: int|
                    0 <= k < nf.len() ==> self.contains(#[trigger] nf[k]) && self.at(nd, nf[k]) is Some
                        && !self.at(closed, nf[k])
                &&& nf.no_duplicates()
                &&& forall|p: Position|
                    #![trigger self.at(nd, p)]
                    self.contains(p) && self.at(nd, p) is Some && !self.at(closed, p) ==> nf.contains(p)
                &&& forall|k: int|
                    0 <= k < j ==> self.at(nd, #[trigger] self.neighbors(policy, u)[k]) is Some
                        && self.at(nd, self.neighbors(policy, u)[k]).unwrap() <= self.at(dist, u).unwrap() + 1
                &&& self.at(nd, nb) == Some(t)
            }),
    {
        let nd = dist.update(self.index_of(nb), Some(t));
        self.lemma_update_at(dist, nb, Some(t));
        assert(u != nb);
        assert forall|q: Position|
            #![trigger self.at(nd, q)]
            self.contains(q) && self.at(dist, q) is Some implies self.at(nd, q) is Some
                && self.at(nd, q).unwrap() <= self.at(dist, q).unwrap() by {}
        assert forall|p: Position|
            #![trigger self.at(closed, p)]
            self.contains(p) && self.at(closed, p) && p != u implies self.at(nd, p) is Some && self.closed(policy, nd, p)
                && self.optimal_at(policy, source, nd, p) by {
            assert(p != nb);
            self.lemma_closed_improves(policy, dist, nd, p);
            assert(self.at(nd, p) == self.at(dist, p));
        }
        assert(self.at(nd, u) == self.at(dist, u));
        assert forall|k: int|
            0 <= k < nf.len() implies self.contains(#[trigger] nf[k]) && self.at(nd, nf[k]) is Some
                && !self.at(closed, nf[k]) by {
            if self.at(dist, nb) is None && k == frontier.len() {
            } else {
                assert(nf[k] == frontier[k]);
            }
        }
        if self.at(dist, nb) is None {
            assert(!frontier.contains(nb));
            assert forall|a: int, b: int| 0 <= a < b < nf.len() implies nf[a] != nf[b] by {
                if b == frontier.len() {
                    assert(nf[a] == frontier[a]);
                } else {
                    assert(nf[a] == frontier[a] && nf[b] == frontier[b]);
                }
            }
        }
        assert forall|p: Position|
            #![trigger self.at(nd, p)]
            self.contains(p) && self.at(nd, p) is Some && !self.at(closed, p) implies nf.contains(p) by {
            if p == nb {
                if self.at(dist, nb) is None {
                    assert(nf[frontier.len() as int] == nb);
                } else {
                    assert(frontier.contains(nb));
                }
            } else {
                assert(frontier.contains(p));
                if self.at(dist, nb) is None {
                    let k = choose|k: int| 0 <= k < frontier.len() && frontier[k] == p;
                    assert(nf[k] == p);
                }
            }
        }
        assert forall|k: int|
            0 <= k < j implies self.at(nd, #[trigger] self.neighbors(policy, u)[k]) is Some
                && self.at(nd, self.neighbors(policy, u)[k]).unwrap() <= self.at(dist, u).unwrap() + 1 by {
            self.lemma_neighbor_is_step(policy, u, k);
        }
    }

    /// Closing the picked frontier cell `frontier[m]`, whose distance is final,
    /// keeps the bookkeeping (with `u` closed but its neighbours not yet
    /// relaxed).
    pub proof fn lemma_close_pick(
        &self,
        policy: Climb,
        source: Position,
        dist: Seq<Option<usize>>,
        pred: Seq<Position>,
        closed: Seq<bool>,
        frontier: Seq<Position>,
        nclosed: int,
        m: int,
    )
        requires
            self.wf(),
            self.guided_state(policy, source, dist, pred, closed, frontier, nclosed),
            0 <= m < frontier.len(),
            self.optimal_at(policy, source, dist, frontier[m]),
        ensures
            ({
                let u = frontier[m];
                let nc = closed.update(self.index_of(u), true);
                let nf = frontier.remove(m);
                &&& self.sound(policy, source, dist, pred, nclosed + 1)
                &&& nc.len() == self.size()
                &&& forall|p: Position|
                    #![trigger self.at(nc, p)]
                    self.contains(p) && self.at(nc, p) && p != u ==> self.at(dist, p) is Some && self.closed(policy, dist, p)
                        && self.optimal_at(policy, source, dist, p)
                &&& self.at(nc, u)
                &&& !self.at(closed, u)
                &&& forall|p: Position|
                    #![trigger self.at(pred, p)]
                    self.contains(p) && self.at(dist, p) is Some && self.at(dist, p).unwrap() > 0 ==> self.at(
                        nc,
                        self.at(pred, p),
                    )
                &&& forall|k: int|
                    0 <= k < nf.len() ==> self.contains(#[trigger] nf[k]) && self.at(dist, nf[k]) is Some
                        && !self.at(nc, nf[k])
                &&& nf.no_duplicates()
                &&& forall|p: Position|
                    #![trigger self.at(dist, p)]
                    self.contains(p) && self.at(dist, p) is Some && !self.at(nc, p) ==> nf.contains(p)
                &&& self.at(dist, u).unwrap() <= nclosed
            }),
    {
        let u = frontier[m];
        let nc = closed.update(self.index_of(u), true);
        let nf = frontier.remove(m);
        self.lemma_update_at(closed, u, true);
        assert(self.contains(u));
        assert forall|p: Position| #![trigger self.at(dist, p)]
            self.contains(p) && self.at(dist, p) is Some implies {
            let k = self.at(dist, p).unwrap();
            &&& k <= nclosed + 1
            &&& (k == 0 ==> p == source)
            &&& self.linked(policy, dist, pred, p)
        } by {}
        assert(self.sound(policy, source, dist, pred, nclosed + 1));
        assert(nc.len() == self.size()) by {
            self.lemma_index_bounds(u);
        }
        assert forall|p: Position|
            #![trigger self.at(nc, p)]
            self.contains(p) && self.at(nc, p) && p != u implies self.at(dist, p) is Some && self.closed(policy, dist, p)
                && self.optimal_at(policy, source, dist, p) by {
            assert(self.at(closed, p));
        }
        assert(!self.at(closed, u));
        assert forall|p: Position|
            #![trigger self.at(pred, p)]
            self.contains(p) && self.at(dist, p) is Some && self.at(dist, p).unwrap() > 0 implies self.at(
                nc,
                self.at(pred, p),
            ) by {
            assert(self.at(closed, self.at(pred, p)));
            reveal(HeightMap::linked);
            assert(self.linked(policy, dist, pred, p));
        }
        assert forall|k: int|
            0 <= k < nf.len() implies self.contains(#[trigger] nf[k]) && self.at(dist, nf[k]) is Some
                && !self.at(nc, nf[k]) by {
            if k < m {
                assert(nf[k] == frontier[k]);
            } else {
                assert(nf[k] == frontier[k + 1]);
            }
            assert(nf[k] != u);
        }
        assert forall|a: int, b: int| 0 <= a < b < nf.len() implies nf[a] != nf[b] by {
            let a2 = if a < m { a } else { a + 1 };
            let b2 = if b < m { b } else { b + 1 };
            assert(nf[a] == frontier[a2] && nf[b] == frontier[b2]);
        }
        assert forall|p: Position|
            #![trigger self.at(dist, p)]
            self.contains(p) && self.at(dist, p) is Some && !self.at(nc, p) implies nf.contains(p) by {
            assert(p != u);
            assert(frontier.contains(p));
            let k = choose|k: int| 0 <= k < frontier.len() && frontier[k] == p;
            assert(k != m);
            if k < m {
                assert(nf[k] == p);
            } else {
                assert(nf[k - 1] == p);
            }
        }
    }

    fn estimate_of(&self, dist: &Vec<Option<usize>>, guide: Option<Position>, p: Position) -> (r: u128)
        requires
            self.wf(),
            self.contains(p),
            dist@.len() == self.size(),
            self.at(dist@, p) is Some,
        ensures
            r == self.estimate(dist@, guide, p),
    {
        let k = self.cell_index(p);
        let g = dist[k].unwrap();
        let h: u64 = match guide {
            Some(c) => p.get_distance(&c),
            None => 0,
        };
        (g as u128) + (h as u128)
    }

    /// Best-first frontier search from `source` for the first cell that meets
    /// `target`. The open cell with the least recorded distance plus
    /// heuristic (the Manhattan distance to `guide`, or 0 without a guide) is
    /// expanded next, the earliest inserted among equals; a neighbour's
    /// distance is lowered whenever a shorter way to it is found, and it joins
    /// the frontier when first discovered. The route is rebuilt from the
    /// predecessor table.
    #[verifier::rlimit(100)]
    #[verifier::spinoff_prover]
    pub fn frontier_search(
        &self,
        source: Position,
        policy: Climb,
        target: Target,
        guide: Option<Position>,
    ) -> (r: Option<Vec<Position>>)
        requires
            self.wf(),
            self.contains(source),
            guide matches Some(c) ==> target == Target::Cell(c),
        ensures
            self.search_result(policy, source, target, r),
            route_view(r) == self.search_outcome(policy, source, target, guide),
    {
        proof {
            assert(self.rows()[0] == self.heights@[0]@);
        }
        let n = self.heights.len() * self.heights[0].len();
        let mut dist: Vec<Option<usize>> = Vec::new();
        let mut pred: Vec<Position> = Vec::new();
        let mut closed: Vec<bool> = Vec::new();
        let mut i: usize = 0;
        while i < n
            invariant
                n == self.size(),
                0 <= i <= n,
                dist@.len() == i,
                pred@.len() == i,
                closed@.len() == i,
                forall|j: int| 0 <= j < i ==> dist@[j] is None,
                forall|j: int| 0 <= j < i ==> !closed@[j],
                forall|j: int| 0 <= j < i ==> pred@[j] == source,
            decreases n - i,
        {
            dist.push(None);
            pred.push(source);
            closed.push(false);
            i = i + 1;
        }
        let si = self.cell_index(source);
        let ghost blank = dist@;
        dist.set(si, Some(0));
        let mut frontier: Vec<Position> = Vec::new();
        frontier.push(source);
        let mut nclosed: usize = 0;
        let ghost goal_outcome = self.search_outcome(policy, source, target, guide);
        proof {
            let st0 = self.start_state(source);
            assert(blank =~= Seq::new(self.size() as nat, |i: int| None::<usize>));
            assert(pred@ =~= st0.pred);
            assert(closed@ =~= st0.closed);
            assert(frontier@ =~= st0.frontier);
            assert(dist@ == blank.update(self.index_of(source), Some(0usize)));
            self.lemma_update_at(blank, source, Some(0usize));
            lemma_marked_none(closed@);
            reveal(HeightMap::linked);
            assert forall|p: Position| #![trigger self.at(dist@, p)]
                self.contains(p) && self.at(dist@, p) is Some implies {
                let k = self.at(dist@, p).unwrap();
                &&& k <= 0
                &&& (k == 0 ==> p == source)
                &&& self.linked(policy, dist@, pred@, p)
            } by {
                self.lemma_index_bounds(p);
                if p != source {
                    assert(self.at(blank, p) is None);
                }
            }
            assert forall|p: Position| #![trigger self.at(closed@, p)]
                self.contains(p) && self.at(closed@, p) implies false by {
                self.lemma_index_bounds(p);
            }
            assert forall|p: Position| #![trigger self.at(dist@, p)]
                self.contains(p) && self.at(dist@, p) is Some && !self.at(closed@, p) implies frontier@.contains(p) by {
                assert(frontier@[0] == source);
            }
            assert forall|p: Position| #![trigger self.at(pred@, p)]
                self.contains(p) && self.at(dist@, p) is Some && self.at(dist@, p).unwrap() > 0 implies self.at(
                    closed@,
                    self.at(pred@, p),
                ) by {
                assert(self.at(dist@, p) == Some(0usize));
            }
            assert forall|j: int| 0 <= j < frontier@.len() implies self.contains(#[trigger] frontier@[j])
                && self.at(dist@, frontier@[j]) is Some && !self.at(closed@, frontier@[j]) by {
                self.lemma_index_bounds(source);
            }
        }
        loop
            invariant
                self.wf(),
                n == self.size(),
                self.guided_state(policy, source, dist@, pred@, closed@, frontier@, nclosed as int),
                nclosed == count_marked(closed@),
                nclosed <= n,
                forall|p: Position| #![trigger self.at(closed@, p)] self.contains(p) && self.at(closed@, p) ==> !self.is_target(target, p),
                guide matches Some(c) ==> target == Target::Cell(c),
                goal_outcome == self.search_outcome(policy, source, target, guide),
                self.run(
                    policy,
                    target,
                    guide,
                    SearchState { dist: dist@, pred: pred@, closed: closed@, frontier: frontier@ },
                    (n - nclosed + 1) as nat,
                ) == goal_outcome,
            decreases n - nclosed,
        {
            if frontier.len() == 0 {
                proof {
                    let big = n as int + 1;
                    assert forall|p: Position| #![trigger self.at(dist@, p)]
                        self.contains(p) && self.at(dist@, p) is Some && self.at(dist@, p).unwrap() < big implies self.closed(
                        policy,
                        dist@,
                        p,
                    ) by {
                        if !self.at(closed@, p) {
                            assert(frontier@.contains(p));
                        }
                    }
                    assert forall|q: Seq<Position>|
                        #![trigger self.is_route(policy, q)]
                        self.is_route(policy, q) && q[0] == source implies !self.is_target(target, q.last()) by {
                        assert forall|p: Position| #![trigger self.at(dist@, p)]
                            self.contains(p) && self.at(dist@, p) is Some && self.at(dist@, p).unwrap() < q.len() implies self.closed(
                            policy,
                            dist@,
                            p,
                        ) by {
                            if !self.at(closed@, p) {
                                assert(frontier@.contains(p));
                            }
                        }
                        self.lemma_route_discovered(policy, source, dist@, pred@, nclosed as int, q.len() as int, q, q.len() - 1);
                        self.lemma_route_contains(policy, q, q.len() - 1);
                        if !self.at(closed@, q.last()) {
                            assert(frontier@.contains(q.last()));
                        }
                    }
                }
                return None;
            }
            let mut m: usize = 0;
            let mut best = self.estimate_of(&dist, guide, frontier[0]);
            let mut k: usize = 1;
            while k < frontier.len()
                invariant
                    self.wf(),
                    dist@.len() == self.size(),
                    forall|j: int| 0 <= j < frontier@.len() ==> self.contains(#[trigger] frontier@[j]) && self.at(dist@, frontier@[j]) is Some,
                    1 <= k <= frontier@.len(),
                    0 <= m < k,
                    best == self.estimate(dist@, guide, frontier@[m as int]),
                    m == self.pick_upto(dist@, guide, frontier@, k as int),
                    forall|j: int| 0 <= j < k ==> best <= #[trigger] self.estimate(dist@, guide, frontier@[j]),
                decreases frontier@.len() - k,
            {
                let e = self.estimate_of(&dist, guide, frontier[k]);
                if e < best {
                    best = e;
                    m = k;
                }
                k = k + 1;
            }
            let u = frontier[m];
            proof {
                self.lemma_pick_is_optimal(policy, source, guide, dist@, pred@, closed@, frontier@, nclosed as int, m as int);
            }
            if self.hits(target, u) {
                proof {
                    assert(self.sound(policy, source, dist@, pred@, nclosed as int));
                }
                let path = self.reconstruct_path(policy, &dist, &pred, u);
                proof {
                    assert(self.contains(path@[0]));
                    assert(path@[0] == source);
                    assert forall|q: Seq<Position>|
                        #![trigger self.is_route(policy, q)]
                        self.is_route(policy, q) && q[0] == source && self.is_target(target, q.last()) implies path@.len() <= q.len() by {
                        self.lemma_route_contains(policy, q, q.len() - 1);
                        assert(!self.at(closed@, q.last()));
                        self.lemma_pick_bound(policy, source, guide, dist@, pred@, closed@, frontier@, nclosed as int, m as int, q);
                        match guide {
                            Some(c) => {
                                assert(q.last() == c);
                                assert(u == c);
                            },
                            None => {},
                        }
                    }
                }
                return Some(path);
            }
            let ghost st_before = SearchState { dist: dist@, pred: pred@, closed: closed@, frontier: frontier@ };
            let ghost fuel = (n - nclosed + 1) as nat;
            proof {
                assert(m == self.pick_upto(dist@, guide, frontier@, frontier@.len() as int));
                assert(!self.is_target(target, u));
                assert(self.run(policy, target, guide, st_before, fuel) == self.run(
                    policy,
                    target,
                    guide,
                    self.expand(policy, guide, st_before),
                    (fuel - 1) as nat,
                ));
                self.lemma_close_pick(policy, source, dist@, pred@, closed@, frontier@, nclosed as int, m as int);
                self.lemma_index_bounds(u);
                self.lemma_update_at(closed@, u, true);
                lemma_marked_mark(closed@, self.index_of(u));
                lemma_marked_bounded(closed@.update(self.index_of(u), true));
            }
            frontier.remove(m);
            let iu = self.cell_index(u);
            closed.set(iu, true);
            nclosed = nclosed + 1;
            let gu = dist[iu].unwrap();
            let ghost shut = SearchState { dist: dist@, pred: pred@, closed: closed@, frontier: frontier@ };
            proof {
                assert(shut.closed == st_before.closed.update(self.index_of(u), true));
                assert(shut.frontier == st_before.frontier.remove(m as int));
                assert(shut.dist == st_before.dist && shut.pred == st_before.pred);
            }
            let nbrs = self.get_neighbors(u, policy);
            let mut j: usize = 0;
            while j < nbrs.len()
                invariant
                    (SearchState { dist: dist@, pred: pred@, closed: closed@, frontier: frontier@ }) == self.relax_all(
                        shut,
                        u,
                        gu as int,
                        nbrs@,
                        j as int,
                    ),
                    self.wf(),
                    n == self.size(),
                    nbrs@ == self.neighbors(policy, u),
                    0 <= j <= nbrs@.len(),
                    self.contains(u),
                    self.at(closed@, u),
                    !self.is_target(target, u),
                    self.at(dist@, u) == Some(gu),
                    gu < nclosed,
                    nclosed <= n,
                    nclosed == count_marked(closed@),
                    closed@.len() == self.size(),
                    dist@.len() == self.size(),
                    self.sound(policy, source, dist@, pred@, nclosed as int),
                    forall|p: Position|
                        #![trigger self.at(closed@, p)]
                        self.contains(p) && self.at(closed@, p) && p != u ==> self.at(dist@, p) is Some && self.closed(policy, dist@, p)
                            && self.optimal_at(policy, source, dist@, p),
                    self.optimal_at(policy, source, dist@, u),
                    forall|p: Position|
                        #![trigger self.at(pred@, p)]
                        self.contains(p) && self.at(dist@, p) is Some && self.at(dist@, p).unwrap() > 0 ==> self.at(
                            closed@,
                            self.at(pred@, p),
                        ),
                    forall|k: int|
                        0 <= k < frontier@.len() ==> self.contains(#[trigger] frontier@[k]) && self.at(dist@, frontier@[k]) is Some
                            && !self.at(closed@, frontier@[k]),
                    frontier@.no_duplicates(),
                    forall|p: Position|
                        #![trigger self.at(dist@, p)]
                        self.contains(p) && self.at(dist@, p) is Some && !self.at(closed@, p) ==> frontier@.contains(p),
                    forall|k: int|
                        0 <= k < j ==> self.at(dist@, #[trigger] self.neighbors(policy, u)[k]) is Some
                            && self.at(dist@, self.neighbors(policy, u)[k]).unwrap() <= gu + 1,
                    forall|p: Position| #![trigger self.at(closed@, p)] self.contains(p) && self.at(closed@, p) ==> !self.is_target(target, p),
                decreases nbrs@.len() - j,
            {
                let nb = nbrs[j];
                let ghost cur = SearchState { dist: dist@, pred: pred@, closed: closed@, frontier: frontier@ };
                proof {
                    self.lemma_neighbor_is_step(policy, u, j as int);
                }
                let k = self.cell_index(nb);
                if closed[k] {
                    proof {
                        let q = self.lemma_chain_route(policy, source, dist@, pred@, nclosed as int, u);
                        let q2 = q.push(nb);
                        assert forall|a: int| 0 <= a < q2.len() - 1 implies #[trigger] self.step(policy, q2[a], q2[a + 1]) by {
                            if a < q.len() - 1 {
                                assert(q2[a] == q[a] && q2[a + 1] == q[a + 1]);
                                assert(self.step(policy, q[a], q[a + 1]));
                            }
                        }
                        assert(self.is_route(policy, q2));
                        assert(self.at(closed@, nb));
                        assert(self.optimal_at(policy, source, dist@, nb));
                    }
                } else {
                    let t = gu + 1;
                    let better = match dist[k] {
                        None => true,
                        Some(old) => t < old,
                    };
                    if better {
                        let fresh = dist[k].is_none();
                        let ghost before_dist = dist@;
                        let ghost before_frontier = frontier@;
                        let ghost nf = if fresh { frontier@.push(nb) } else { frontier@ };
                        proof {
                            self.lemma_relax_sound(policy, source, dist@, pred@, closed@, nclosed as int, u, nb);
                            self.lemma_relax_rest(policy, source, dist@, closed@, frontier@, u, nb, t, j as int, nf);
                        }
                        dist.set(k, Some(t));
                        pred.set(k, u);
                        if fresh {
                            frontier.push(nb);
                        }
                        proof {
                            assert(frontier@ == nf);
                        }
                    }
                }
                proof {
                    assert(SearchState { dist: dist@, pred: pred@, closed: closed@, frontier: frontier@ } == self.relax_one(
                        cur,
                        u,
                        gu as int,
                        nb,
                    ));
                }
                j = j + 1;
            }
            proof {
                assert(self.closed(policy, dist@, u));
                assert(SearchState { dist: dist@, pred: pred@, closed: closed@, frontier: frontier@ } == self.expand(
                    policy,
                    guide,
                    st_before,
                ));
            }
        }
    }

    /// The route recorded for `p`: the predecessor chain back to a cell at
    /// distance 0, in order from there to `p`.
    pub open spec fn trace(&self, dist: Seq<Option<usize>>, pred: Seq<Position>, p: Position) -> Seq<Position>
        decreases self.at(dist, p).unwrap(),
    {
        let q = self.at(pred, p);
        if self.at(dist, p) is Some && self.at(dist, p).unwrap() > 0 && self.at(dist, q) is Some
            && self.at(dist, q).unwrap() < self.at(dist, p).unwrap() {
            self.trace(dist, pred, q).push(p)
        } else {
            seq![p]
        }
    }

    /// A route that ends at `p`, has one cell more than the distance of `p`,
    /// and in which each cell is the recorded predecessor of the next, is the
    /// recorded route of `p`.
    pub proof fn lemma_trace_unique(
        &self,
        policy: Climb,
        source: Position,
        dist: Seq<Option<usize>>,
        pred: Seq<Position>,
        bound: int,
        r: Seq<Position>,
        p: Position,
    )
        requires
            self.sound(policy, source, dist, pred, bound),
            self.contains(p),
            self.at(dist, p) is Some,
            r.len() == self.at(dist, p).unwrap() + 1,
            r.last() == p,
            forall|i: int| 0 <= i < r.len() - 1 ==> #[trigger] self.at(pred, r[i + 1]) == r[i],
        ensures
            r == self.trace(dist, pred, p),
        decreases self.at(dist, p).unwrap(),
    {
        assert(self.linked(policy, dist, pred, p));
        if self.at(dist, p).unwrap() == 0 {
            assert(r =~= seq![p]);
        } else {
            let q = self.at(pred, p);
            assert(self.contains(q) && self.at(dist, q) == Some((self.at(dist, p).unwrap() - 1) as usize)) by {
                reveal(HeightMap::linked);
            }
            let rest = r.drop_last();
            assert(self.at(pred, r[r.len() - 2 + 1]) == r[r.len() - 2]);
            assert(rest.last() == q);
            assert forall|i: int| 0 <= i < rest.len() - 1 implies #[trigger] self.at(pred, rest[i + 1]) == rest[i] by {
                assert(self.at(pred, r[i + 1]) == r[i]);
            }
            self.lemma_trace_unique(policy, source, dist, pred, bound, rest, q);
            assert(r =~= rest.push(p));
        }
    }

    /// Index of the frontier cell with the least estimate among the first
    /// `k`, the earliest among equals.
    pub open spec fn pick_upto(&self, dist: Seq<Option<usize>>, guide: Option<Position>, frontier: Seq<Position>, k: int) -> int
        decreases k,
    {
        if k <= 1 {
            0
        } else {
            let m = self.pick_upto(dist, guide, frontier, k - 1);
            if self.estimate(dist, guide, frontier[k - 1]) < self.estimate(dist, guide, frontier[m]) {
                k - 1
            } else {
                m
            }
        }
    }

    /// The state after `nb`, a neighbour of the expanded cell `u` at
    /// distance `gu`, is relaxed.
    pub open spec fn relax_one(&self, st: SearchState, u: Position, gu: int, nb: Position) -> SearchState {
        if self.at(st.closed, nb) {
            st
        } else if self.at(st.dist, nb) is None || gu + 1 < self.at(st.dist, nb).unwrap() {
            SearchState {
                dist: st.dist.update(self.index_of(nb), Some((gu + 1) as usize)),
                pred: st.pred.update(self.index_of(nb), u),
                closed: st.closed,
                frontier: if self.at(st.dist, nb) is None {
                    st.frontier.push(nb)
                } else {
                    st.frontier
                },
            }
        } else {
            st
        }
    }

    /// The state after the first `j` of `nbrs` are relaxed.
    pub open spec fn relax_all(&self, st: SearchState, u: Position, gu: int, nbrs: Seq<Position>, j: int) -> SearchState
        decreases j,
    {
        if j <= 0 {
            st
        } else {
            self.relax_one(self.relax_all(st, u, gu, nbrs, j - 1), u, gu, nbrs[j - 1])
        }
    }

    /// The state after the picked cell is closed and its neighbours relaxed.
    pub open spec fn expand(&self, policy: Climb, guide: Option<Position>, st: SearchState) -> SearchState {
        let m = self.pick_upto(st.dist, guide, st.frontier, st.frontier.len() as int);
        let u = st.frontier[m];
        let shut = SearchState {
            dist: st.dist,
            pred: st.pred,
            closed: st.closed.update(self.index_of(u), true),
            frontier: st.frontier.remove(m),
        };
        let nbrs = self.neighbors(policy, u);
        self.relax_all(shut, u, self.at(st.dist, u).unwrap() as int, nbrs, nbrs.len() as int)
    }

    /// The search run from state `st` for at most `fuel` expansions.
    pub open spec fn run(
        &self,
        policy: Climb,
        target: Target,
        guide: Option<Position>,
        st: SearchState,
        fuel: nat,
    ) -> Option<Seq<Position>>
        decreases fuel,
    {
        if fuel == 0 || st.frontier.len() == 0 {
            None
        } else {
            let u = st.frontier[self.pick_upto(st.dist, guide, st.frontier, st.frontier.len() as int)];
            if self.is_target(target, u) {
                Some(self.trace(st.dist, st.pred, u))
            } else {
                self.run(policy, target, guide, self.expand(policy, guide, st), (fuel - 1) as nat)
            }
        }
    }

    /// The state in which a search from `source` starts.
    pub open spec fn start_state(&self, source: Position) -> SearchState {
        SearchState {
            dist: Seq::new(self.size() as nat, |i: int| None::<usize>).update(self.index_of(source), Some(0usize)),
            pred: Seq::new(self.size() as nat, |i: int| source),
            closed: Seq::new(self.size() as nat, |i: int| false),
            frontier: seq![source],
        }
    }

    /// What the frontier search from `source` returns: the route found by
    /// expanding, one at a time, the frontier cell with the least estimate
    /// (the earliest inserted among equals) until a target is picked.
    pub open spec fn search_outcome(
        &self,
        policy: Climb,
        source: Position,
        target: Target,
        guide: Option<Position>,
    ) -> Option<Seq<Position>> {
        self.run(policy, target, guide, self.start_state(source), (self.size() + 1) as nat)
    }

    /// Two climbing searches from the same start on the same grid return the
    /// same result: the same route, cell for cell, or no route both times.
    pub proof fn lemma_find_path_deterministic(
        &self,
        start: Position,
        r1: Option<Vec<Position>>,
        r2: Option<Vec<Position>>,
    )
        requires
            route_view(r1) == self.search_outcome(
                Climb::Ascending,
                start,
                Target::Cell(self.goal_cell()),
                Some(self.goal_cell()),
            ),
            route_view(r2) == self.search_outcome(
                Climb::Ascending,
                start,
                Target::Cell(self.goal_cell()),
                Some(self.goal_cell()),
            ),
        ensures
            route_view(r1) == route_view(r2),
            r1 is Some <==> r2 is Some,
    {
    }
}

} // verus!
