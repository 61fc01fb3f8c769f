//! Sand falling into a cave of rock paths.
//!
//! Sand enters at `(500, 0)` and falls down (`y` grows downward); when blocked
//! it tries down-left, then down-right, and otherwise comes to rest. Without a
//! floor, sand that passes the deepest rock falls forever; with the floor two
//! rows below the deepest rock, the source eventually blocks.
use vstd::prelude::*;

verus! {

/// Coordinates of rock paths stay below this bound.
pub const COORD_LIMIT: usize = 0x1000_0000;

/// What fills a cell.
#[derive(Debug, Clone, Copy, PartialEq, Eq, Hash, Structural)]
pub enum Tile {
    Stone,
    Sand,
}

/// A cell `(x, y)`; `y` grows downward.
#[derive(Debug, Clone, Copy, PartialEq, Eq, Hash, PartialOrd, Ord, Structural)]
pub struct Position(pub usize, pub usize);

/// An axis direction.
#[derive(Debug, Clone, Copy, PartialEq, Eq, Hash, Structural)]
pub enum Direction {
    Up,
    Down,
    Left,
    Right,
}

pub open spec fn abs_diff(a: int, b: int) -> int {
    if a < b { b - a } else { a - b }
}

pub open spec fn direction_between(a: Position, b: Position) -> Option<Direction> {
    if b.0 == a.0 && b.1 > a.1 {
        Some(Direction::Down)
    } else if b.0 == a.0 && b.1 < a.1 {
        Some(Direction::Up)
    } else if b.1 == a.1 && b.0 > a.0 {
        Some(Direction::Right)
    } else if b.1 == a.1 && b.0 < a.0 {
        Some(Direction::Left)
    } else {
        None
    }
}

pub open spec fn stepped(p: Position, d: Direction, k: int) -> (int, int) {
    match d {
        Direction::Up => (p.0 as int, p.1 - k),
        Direction::Down => (p.0 as int, p.1 + k),
        Direction::Left => (p.0 - k, p.1 as int),
        Direction::Right => (p.0 + k, p.1 as int),
    }
}

pub open spec fn small(p: Position) -> bool {
    p.0 < COORD_LIMIT && p.1 < COORD_LIMIT
}

impl Position {
    /// The axis direction from this cell to `other`, if they share a row or column.
    pub fn get_direction_to(&self, other: &Self) -> (r: Option<Direction>)
        ensures
            r == direction_between(*self, *other),
    {
        if other.0 == self.0 && other.1 > self.1 {
            Some(Direction::Down)
        } else if other.0 == self.0 && other.1 < self.1 {
            Some(Direction::Up)
        } else if other.1 == self.1 && other.0 > self.0 {
            Some(Direction::Right)
        } else if other.1 == self.1 && other.0 < self.0 {
            Some(Direction::Left)
        } else {
            None
        }
    }

    /// The cell `steps` away toward `dir`.
    pub fn move_in_dir(&self, dir: Direction, steps: usize) -> (r: Position)
        requires
            0 <= stepped(*self, dir, steps as int).0 <= usize::MAX,
            0 <= stepped(*self, dir, steps as int).1 <= usize::MAX,
        ensures
            (r.0 as int, r.1 as int) == stepped(*self, dir, steps as int),
    {
        match dir {
            Direction::Up => Position(self.0, self.1 - steps),
            Direction::Down => Position(self.0, self.1 + steps),
            Direction::Left => Position(self.0 - steps, self.1),
            Direction::Right => Position(self.0 + steps, self.1),
        }
    }

    /// Manhattan distance to `other`.
    pub fn get_block_distance(&self, other: &Self) -> (r: usize)
        requires
            small(*self),
            small(*other),
        ensures
            r == abs_diff(self.0 as int, other.0 as int) + abs_diff(self.1 as int, other.1 as int),
    {
        let dx = if self.0 < other.0 {
            other.0 - self.0
        } else {
            self.0 - other.0
        };
        let dy = if self.1 < other.1 {
            other.1 - self.1
        } else {
            self.1 - other.1
        };
        dx + dy
    }
}

/// A straight run of cells from `a`, `max_index` of them, toward `dir`.
#[derive(Debug, Clone, Copy)]
pub struct Line {
    pub a: Position,
    pub max_index: usize,
    pub dir: Direction,
}

impl Line {
    /// The cells from `a` to `b`, both included; they share a row or a column.
    pub fn new(a: Position, b: Position) -> (r: Line)
        requires
            small(a),
            small(b),
            direction_between(a, b) is Some,
        ensures
            r.a == a,
            r.dir == direction_between(a, b).unwrap(),
            r.max_index == abs_diff(a.0 as int, b.0 as int) + abs_diff(a.1 as int, b.1 as int) + 1,
            stepped(a, r.dir, r.max_index - 1) == (b.0 as int, b.1 as int),
    {
        let dir = a.get_direction_to(&b).unwrap();
        Line { a, dir, max_index: a.get_block_distance(&b) + 1 }
    }

    /// The cells of the line, in order from `a`.
    pub fn points(&self) -> (r: Vec<Position>)
        requires
            small(self.a),
            0 <= stepped(self.a, self.dir, self.max_index - 1).0 < COORD_LIMIT,
            0 <= stepped(self.a, self.dir, self.max_index - 1).1 < COORD_LIMIT,
        ensures
            r@.len() == self.max_index,
            forall|k: int|
                0 <= k < self.max_index ==> ((#[trigger] r@[k]).0 as int, r@[k].1 as int) == stepped(
                    self.a,
                    self.dir,
                    k,
                ),
    {
        let mut out: Vec<Position> = Vec::new();
        let mut index: usize = 0;
        while index < self.max_index
            invariant
                small(self.a),
                0 <= stepped(self.a, self.dir, self.max_index - 1).0 < COORD_LIMIT,
                0 <= stepped(self.a, self.dir, self.max_index - 1).1 < COORD_LIMIT,
                0 <= index <= self.max_index,
                out@.len() == index,
                forall|k: int|
                    0 <= k < index ==> ((#[trigger] out@[k]).0 as int, out@[k].1 as int) == stepped(
                        self.a,
                        self.dir,
                        k,
                    ),
            decreases self.max_index - index,
        {
            out.push(self.a.move_in_dir(self.dir, index));
            index = index + 1;
        }
        out
    }
}

/// Some tile sits at `p`.
pub open spec fn occupied(tiles: Seq<(Position, Tile)>, p: Position) -> bool {
    exists|k: int| 0 <= k < tiles.len() && (#[trigger] tiles[k]).0 == p
}

/// Sand cannot enter `p`: a tile sits there, or it is on the floor.
pub open spec fn blocked(tiles: Seq<(Position, Tile)>, deepest: int, floor: bool, p: Position) -> bool {
    occupied(tiles, p) || (floor && p.1 == deepest + 2)
}

/// How deep sand may fall before it is lost (or meets the floor).
pub open spec fn fall_limit(deepest: int, floor: bool) -> int {
    if floor { deepest + 2 } else { deepest }
}

/// Where a unit of sand at `pos` comes to rest, or `None` when it falls past
/// the limit.
pub open spec fn fall(tiles: Seq<(Position, Tile)>, deepest: int, floor: bool, pos: Position) -> Option<
    Position,
>
    decreases fall_limit(deepest, floor) - pos.1,
{
    if pos.1 >= fall_limit(deepest, floor) || pos.0 == 0 || pos.0 >= usize::MAX - 1 || pos.1
        >= usize::MAX - 1 {
        None
    } else {
        let down = Position(pos.0, (pos.1 + 1) as usize);
        let left = Position((pos.0 - 1) as usize, (pos.1 + 1) as usize);
        let right = Position((pos.0 + 1) as usize, (pos.1 + 1) as usize);
        if !blocked(tiles, deepest, floor, down) {
            fall(tiles, deepest, floor, down)
        } else if !blocked(tiles, deepest, floor, left) {
            fall(tiles, deepest, floor, left)
        } else if !blocked(tiles, deepest, floor, right) {
            fall(tiles, deepest, floor, right)
        } else {
            Some(pos)
        }
    }
}

/// Where sand enters.
pub open spec fn source() -> Position {
    Position(500, 0)
}

/// The cave: rock and sand tiles, the depth of the deepest rock, and whether
/// the floor is in place.
#[derive(Debug, Clone)]
pub struct Cave {
    tiles: Vec<(Position, Tile)>,
    deepest_stone_y: usize,
    floor_enabled: bool,
}

impl Cave {
    pub closed spec fn tiles_spec(&self) -> Seq<(Position, Tile)> {
        self.tiles@
    }

    pub closed spec fn deepest(&self) -> int {
        self.deepest_stone_y as int
    }

    pub closed spec fn floor(&self) -> bool {
        self.floor_enabled
    }

    /// A cave with a stone on every cell of the given rock paths; each path
    /// runs straight between consecutive corners.
    pub fn new(paths: &Vec<Vec<Position>>) -> (r: Cave)
        requires
            forall|i: int, j: int|
                0 <= i < paths@.len() && 0 <= j < paths@[i]@.len() ==> small(
                    #[trigger] paths@[i]@[j],
                ),
            forall|i: int, j: int|
                0 <= i < paths@.len() && 0 <= j < paths@[i]@.len() - 1 ==> direction_between(
                    #[trigger] paths@[i]@[j],
                    paths@[i]@[j + 1],
                ) is Some,
        ensures
            !r.floor(),
            forall|k: int| 0 <= k < r.tiles_spec().len() ==> (#[trigger] r.tiles_spec()[k]).1 == Tile::Stone,
            forall|k: int| 0 <= k < r.tiles_spec().len() ==> on_path(paths@, (#[trigger] r.tiles_spec()[k]).0),
            forall|i: int, j: int|
                0 <= i < paths@.len() && 0 <= j < paths@[i]@.len() ==> (#[trigger] paths@[i]@[j]).1
                    <= r.deepest(),
            r.deepest() == 0 || exists|i: int, j: int|
                0 <= i < paths@.len() && 0 <= j < paths@[i]@.len() && (#[trigger] paths@[i]@[j]).1
                    == r.deepest(),
            forall|i: int, j: int, k: int|
                0 <= i < paths@.len() && 0 <= j < paths@[i]@.len() - 1 && 0 <= k <= abs_diff(
                    paths@[i]@[j].0 as int,
                    paths@[i]@[j + 1].0 as int,
                ) + abs_diff(paths@[i]@[j].1 as int, paths@[i]@[j + 1].1 as int) ==> #[trigger] occupied(
                    r.tiles_spec(),
                    point_on(paths@[i]@[j], paths@[i]@[j + 1], k),
                ),
    {
        let mut tiles: Vec<(Position, Tile)> = Vec::new();
        let mut deepest: usize = 0;
        let mut i: usize = 0;
        while i < paths.len()
            invariant
                0 <= i <= paths@.len(),
                forall|a: int, b: int|
                    0 <= a < paths@.len() && 0 <= b < paths@[a]@.len() ==> small(
                        #[trigger] paths@[a]@[b],
                    ),
                forall|a: int, b: int|
                    0 <= a < paths@.len() && 0 <= b < paths@[a]@.len() - 1 ==> direction_between(
                        #[trigger] paths@[a]@[b],
                        paths@[a]@[b + 1],
                    ) is Some,
                forall|k: int| 0 <= k < tiles@.len() ==> (#[trigger] tiles@[k]).1 == Tile::Stone,
                forall|k: int| 0 <= k < tiles@.len() ==> on_path(paths@, (#[trigger] tiles@[k]).0),
                forall|a: int, b: int|
                    0 <= a < i && 0 <= b < paths@[a]@.len() ==> (#[trigger] paths@[a]@[b]).1 <= deepest,
                deepest == 0 || exists|a: int, b: int|
                    0 <= a < i && 0 <= b < paths@[a]@.len() && (#[trigger] paths@[a]@[b]).1 == deepest,
                forall|a: int, b: int, k: int|
                    0 <= a < i && 0 <= b < paths@[a]@.len() - 1 && 0 <= k <= abs_diff(
                        paths@[a]@[b].0 as int,
                        paths@[a]@[b + 1].0 as int,
                    ) + abs_diff(paths@[a]@[b].1 as int, paths@[a]@[b + 1].1 as int) ==> #[trigger] occupied(
                        tiles@,
                        point_on(paths@[a]@[b], paths@[a]@[b + 1], k),
                    ),
            decreases paths@.len() - i,
        {
            let path = &paths[i];
            let mut j: usize = 0;
            while j < path.len()
                invariant
                    0 <= i < paths@.len(),
                    path@ == paths@[i as int]@,
                    0 <= j <= path@.len(),
                    forall|a: int, b: int|
                        0 <= a < paths@.len() && 0 <= b < paths@[a]@.len() ==> small(
                            #[trigger] paths@[a]@[b],
                        ),
                    forall|a: int, b: int|
                        0 <= a < paths@.len() && 0 <= b < paths@[a]@.len() - 1 ==> direction_between(
                            #[trigger] paths@[a]@[b],
                            paths@[a]@[b + 1],
                        ) is Some,
                    forall|k: int| 0 <= k < tiles@.len() ==> (#[trigger] tiles@[k]).1 == Tile::Stone,
                    forall|k: int| 0 <= k < tiles@.len() ==> on_path(paths@, (#[trigger] tiles@[k]).0),
                    forall|a: int, b: int|
                        (0 <= a < i && 0 <= b < paths@[a]@.len()) || (a == i && 0 <= b < j)
                            ==> (#[trigger] paths@[a]@[b]).1 <= deepest,
                    deepest == 0 || exists|a: int, b: int|
                        ((0 <= a < i && 0 <= b < paths@[a]@.len()) || (a == i && 0 <= b < j))
                            && (#[trigger] paths@[a]@[b]).1 == deepest,
                    forall|a: int, b: int, k: int|
                        ((0 <= a < i && 0 <= b < paths@[a]@.len() - 1) || (a == i && 0 <= b < j - 1))
                            && 0 <= k <= abs_diff(
                            paths@[a]@[b].0 as int,
                            paths@[a]@[b + 1].0 as int,
                        ) + abs_diff(paths@[a]@[b].1 as int, paths@[a]@[b + 1].1 as int)
                            ==> #[trigger] occupied(
                            tiles@,
                            point_on(paths@[a]@[b], paths@[a]@[b + 1], k),
                        ),
                decreases path@.len() - j,
            {
                let pos = path[j];
                if j > 0 {
                    let prev = path[j - 1];
                    proof {
                        assert(direction_between(paths@[i as int]@[j - 1], paths@[i as int]@[j - 1 + 1]) is Some);
                        assert(small(paths@[i as int]@[j - 1]));
                    }
                    let line = Line::new(prev, pos);
                    let pts = line.points();
                    let ghost before = tiles@;
                    proof {
                        assert forall|k: int| 0 <= k < pts@.len() implies #[trigger] pts@[k] == point_on(
                            paths@[i as int]@[j - 1],
                            paths@[i as int]@[j - 1 + 1],
                            k,
                        ) by {}
                    }
                    let mut m: usize = 0;
                    while m < pts.len()
                        invariant
                            0 <= i < paths@.len(),
                            path@ == paths@[i as int]@,
                            1 <= j < path@.len(),
                            pts@.len() == seg_len(paths@[i as int]@[j - 1], paths@[i as int]@[j - 1 + 1]) + 1,
                            forall|k: int| 0 <= k < pts@.len() ==> #[trigger] pts@[k] == point_on(
                                paths@[i as int]@[j - 1],
                                paths@[i as int]@[j - 1 + 1],
                                k,
                            ),
                            forall|k: int| 0 <= k < tiles@.len() ==> on_path(paths@, (#[trigger] tiles@[k]).0),
                            0 <= m <= pts@.len(),
                            forall|k: int| 0 <= k < tiles@.len() ==> (#[trigger] tiles@[k]).1 == Tile::Stone,
                            tiles@.len() >= before.len(),
                            forall|k: int| 0 <= k < before.len() ==> tiles@[k] == before[k],
                            forall|k: int| 0 <= k < m ==> occupied(tiles@, #[trigger] pts@[k]),
                        decreases pts@.len() - m,
                    {
                        let ghost t0 = tiles@;
                        tiles.push((pts[m], Tile::Stone));
                        proof {
                            let (pa, pb) = (paths@[i as int]@[j - 1], paths@[i as int]@[j - 1 + 1]);
                            assert(pts@[m as int] == point_on(pa, pb, m as int));
                            assert(on_path(paths@, pts@[m as int]));
                            assert forall|k: int| 0 <= k < tiles@.len() implies on_path(paths@, (#[trigger] tiles@[k]).0) by {
                                if k < t0.len() {
                                    assert(tiles@[k] == t0[k]);
                                }
                            }
                            assert(tiles@[t0.len() as int].0 == pts@[m as int]);
                            assert forall|k: int| 0 <= k < m + 1 implies occupied(tiles@, #[trigger] pts@[k]) by {
                                if k < m {
                                    assert(occupied(t0, pts@[k]));
                                    let w = choose|w: int| 0 <= w < t0.len() && (#[trigger] t0[w]).0 == pts@[k];
                                    assert(tiles@[w] == t0[w]);
                                }
                            }
                        }
                        m = m + 1;
                    }
                    proof {
                        assert forall|a: int, b: int, k: int|
                            ((0 <= a < i && 0 <= b < paths@[a]@.len() - 1) || (a == i && 0 <= b < j
                                + 1 - 1)) && 0 <= k <= abs_diff(
                                paths@[a]@[b].0 as int,
                                paths@[a]@[b + 1].0 as int,
                            ) + abs_diff(paths@[a]@[b].1 as int, paths@[a]@[b + 1].1 as int)
                                implies #[trigger] occupied(
                                tiles@,
                                point_on(paths@[a]@[b], paths@[a]@[b + 1], k),
                            ) by {
                            if a == i && b == j - 1 {
                                assert(pts@[k] == point_on(paths@[a]@[b], paths@[a]@[b + 1], k));
                            } else {
                                assert(occupied(before, point_on(paths@[a]@[b], paths@[a]@[b + 1], k)));
                                let w = choose|w: int|
                                    0 <= w < before.len() && (#[trigger] before[w]).0 == point_on(
                                        paths@[a]@[b],
                                        paths@[a]@[b + 1],
                                        k,
                                    );
                                assert(tiles@[w] == before[w]);
                            }
                        }
                    }
                }
                if pos.1 > deepest {
                    deepest = pos.1;
                }
                j = j + 1;
            }
            i = i + 1;
        }
        Cave { tiles, deepest_stone_y: deepest, floor_enabled: false }
    }

    /// Puts the floor in place or takes it away.
    pub fn set_floor(&mut self, enabled: bool)
        ensures
            final(self).floor() == enabled,
            final(self).tiles_spec() == old(self).tiles_spec(),
            final(self).deepest() == old(self).deepest(),
    {
        self.floor_enabled = enabled;
    }

    /// Whether sand can enter `pos`.
    pub fn is_free(&self, pos: &Position) -> (r: bool)
        requires
            self.deepest() < COORD_LIMIT,
        ensures
            r == !blocked(self.tiles_spec(), self.deepest(), self.floor(), *pos),
    {
        let mut k: usize = 0;
        while k < self.tiles.len()
            invariant
                0 <= k <= self.tiles@.len(),
                forall|m: int| 0 <= m < k ==> (#[trigger] self.tiles@[m]).0 != *pos,
            decreases self.tiles@.len() - k,
        {
            if self.tiles[k].0 == *pos {
                return false;
            }
            k = k + 1;
        }
        !(self.floor_enabled && pos.1 == self.deepest_stone_y + 2)
    }

    /// Lets one unit of sand fall from the source. Returns whether it came to
    /// rest somewhere other than blocking the source on the floor; sand that
    /// falls past the limit leaves the cave unchanged.
    pub fn spawn_sand(&mut self) -> (r: bool)
        requires
            old(self).deepest() + 2 < 500,
        ensures
            final(self).deepest() == old(self).deepest(),
            final(self).floor() == old(self).floor(),
            match fall(old(self).tiles_spec(), old(self).deepest(), old(self).floor(), source()) {
                Some(p) => final(self).tiles_spec() == old(self).tiles_spec().push((p, Tile::Sand))
                    && r == !(old(self).floor() && p == source()),
                None => final(self).tiles_spec() == old(self).tiles_spec() && !r,
            },
    {
        let mut pos = Position(500, 0);
        let limit = if self.floor_enabled {
            self.deepest_stone_y + 2
        } else {
            self.deepest_stone_y
        };
        let ghost target = fall(self.tiles@, self.deepest_stone_y as int, self.floor_enabled, pos);
        while pos.1 < limit
            invariant
                self.deepest_stone_y + 2 < 500,
                *self == *old(self),
                limit == fall_limit(self.deepest_stone_y as int, self.floor_enabled),
                pos.1 <= limit,
                500 - pos.1 <= pos.0 <= 500 + pos.1,
                target == fall(self.tiles@, self.deepest_stone_y as int, self.floor_enabled, pos),
                target == fall(
                    old(self).tiles@,
                    old(self).deepest_stone_y as int,
                    old(self).floor_enabled,
                    source(),
                ),
            decreases limit - pos.1,
        {
            let down = Position(pos.0, pos.1 + 1);
            let left = Position(pos.0 - 1, pos.1 + 1);
            let right = Position(pos.0 + 1, pos.1 + 1);
            if self.is_free(&down) {
                pos = down;
            } else if self.is_free(&left) {
                pos = left;
            } else if self.is_free(&right) {
                pos = right;
            } else {
                self.tiles.push((pos, Tile::Sand));
                if self.floor_enabled && pos.0 == 500 && pos.1 == 0 {
                    return false;
                }
                return true;
            }
        }
        false
    }
}

/// Cells on the straight run from `a` to `b`, both ends included, less one.
pub open spec fn seg_len(a: Position, b: Position) -> int {
    abs_diff(a.0 as int, b.0 as int) + abs_diff(a.1 as int, b.1 as int)
}

/// `p` lies on some segment of some rock path.
pub open spec fn on_path(paths: Seq<Vec<Position>>, p: Position) -> bool {
    exists|i: int, j: int, k: int|
        0 <= i < paths.len() && 0 <= j < paths[i]@.len() - 1 && 0 <= k <= seg_len(paths[i]@[j], paths[i]@[j + 1])
            && p == #[trigger] point_on(paths[i]@[j], paths[i]@[j + 1], k)
}

/// The cell `k` steps from `a` toward `b`.
pub open spec fn point_on(a: Position, b: Position, k: int) -> Position {
    let s = stepped(a, direction_between(a, b).unwrap(), k);
    Position(s.0 as usize, s.1 as usize)
}

} // verus!
