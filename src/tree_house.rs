//! Visibility and scenic scores in a grid of tree heights.
use vstd::prelude::*;

verus! {

/// Largest side length of a forest grid.
pub const SIDE_LIMIT: usize = 0x8000;

/// A line of sight from a tree toward an edge.
#[derive(Debug, Clone, Copy, PartialEq, Eq, Structural)]
pub enum Direction {
    Up,
    Right,
    Down,
    Left,
}

/// A non-empty rectangular grid.
pub open spec fn grid_rect(field: Seq<Vec<u32>>) -> bool {
    &&& 0 < field.len()
    &&& 0 < field[0]@.len()
    &&& forall|y: int| 0 <= y < field.len() ==> (#[trigger] field[y])@.len() == field[0]@.len()
}

/// A non-empty rectangular grid, at most `SIDE_LIMIT` on a side, so that
/// products of viewing distances and counts of trees fit in `u64`.
pub open spec fn forest_ok(field: Seq<Vec<u32>>) -> bool {
    &&& grid_rect(field)
    &&& field.len() <= SIDE_LIMIT
    &&& field[0]@.len() <= SIDE_LIMIT
}

pub open spec fn tree(field: Seq<Vec<u32>>, x: int, y: int) -> u32 {
    field[y]@[x]
}

pub open spec fn on_edge(field: Seq<Vec<u32>>, x: int, y: int) -> bool {
    x == 0 || y == 0 || x == field[0]@.len() - 1 || y == field.len() - 1
}

/// The cell `k` steps from `(x, y)` toward `d`.
pub open spec fn ahead(x: int, y: int, d: Direction, k: int) -> (int, int) {
    match d {
        Direction::Up => (x, y - k),
        Direction::Down => (x, y + k),
        Direction::Left => (x - k, y),
        Direction::Right => (x + k, y),
    }
}

/// Steps from `(x, y)` to the edge in direction `d`.
pub open spec fn to_edge(field: Seq<Vec<u32>>, x: int, y: int, d: Direction) -> int {
    match d {
        Direction::Up => y,
        Direction::Down => field.len() - 1 - y,
        Direction::Left => x,
        Direction::Right => field[0]@.len() - 1 - x,
    }
}

/// The tree `k` steps from `(x, y)` toward `d`.
pub open spec fn tree_ahead(field: Seq<Vec<u32>>, x: int, y: int, d: Direction, k: int) -> u32 {
    tree(field, ahead(x, y, d, k).0, ahead(x, y, d, k).1)
}

/// Every tree between `(x, y)` and the edge toward `d` is lower.
pub open spec fn clear_view(field: Seq<Vec<u32>>, x: int, y: int, d: Direction) -> bool {
    forall|k: int|
        1 <= k <= to_edge(field, x, y, d) ==> #[trigger] tree_ahead(field, x, y, d, k) < tree(
            field,
            x,
            y,
        )
}

/// `dist` is how far one sees from `(x, y)` toward `d`: up to the first tree at
/// least as tall, or to the edge.
pub open spec fn view_distance(field: Seq<Vec<u32>>, x: int, y: int, d: Direction, dist: int) -> bool {
    &&& 0 <= dist <= to_edge(field, x, y, d)
    &&& forall|k: int|
        1 <= k < dist ==> #[trigger] tree_ahead(field, x, y, d, k) < tree(field, x, y)
    &&& (dist == to_edge(field, x, y, d) || tree_ahead(field, x, y, d, dist) >= tree(field, x, y))
    &&& (on_edge(field, x, y) ==> dist == 0)
    &&& (!on_edge(field, x, y) ==> dist >= 1)
}

/// How far one sees from `(x, y)` toward `d`, looking from step `k` on.
pub open spec fn sight_from(field: Seq<Vec<u32>>, x: int, y: int, d: Direction, k: int) -> int
    decreases to_edge(field, x, y, d) - k,
{
    if k >= to_edge(field, x, y, d) {
        to_edge(field, x, y, d)
    } else if tree_ahead(field, x, y, d, k) >= tree(field, x, y) {
        k
    } else {
        sight_from(field, x, y, d, k + 1)
    }
}

/// How far one sees from `(x, y)` toward `d`: 0 on the edge, else up to the
/// first tree at least as tall, or to the edge.
pub open spec fn sight(field: Seq<Vec<u32>>, x: int, y: int, d: Direction) -> int {
    if on_edge(field, x, y) {
        0
    } else {
        sight_from(field, x, y, d, 1)
    }
}

/// The scenic score of the tree at `(x, y)`.
pub open spec fn scenic(field: Seq<Vec<u32>>, x: int, y: int) -> int {
    sight(field, x, y, Direction::Up) * sight(field, x, y, Direction::Down) * sight(
        field,
        x,
        y,
        Direction::Left,
    ) * sight(field, x, y, Direction::Right)
}

/// Whether the tree at `(x, y)` can be seen from the edge toward `direction`;
/// a tree on the edge always can.
pub fn check_in_direction(field: &Vec<Vec<u32>>, x: usize, y: usize, direction: Direction) -> (r: bool)
    requires
        grid_rect(field@),
        x < field@[0]@.len(),
        y < field@.len(),
    ensures
        r == (on_edge(field@, x as int, y as int) || clear_view(field@, x as int, y as int, direction)),
{
    let width = field[0].len();
    let height = field.len();
    let own = field[y][x];
    if x == 0 || y == 0 || x == width - 1 || y == height - 1 {
        return true;
    }
    let steps = match direction {
        Direction::Up => y,
        Direction::Down => height - 1 - y,
        Direction::Left => x,
        Direction::Right => width - 1 - x,
    };
    let mut k: usize = 1;
    while k <= steps
        invariant
            grid_rect(field@),
            width == field@[0]@.len(),
            height == field@.len(),
            0 < x < width - 1,
            0 < y < height - 1,
            own == tree(field@, x as int, y as int),
            steps == to_edge(field@, x as int, y as int, direction),
            1 <= k <= steps + 1,
            forall|j: int| 1 <= j < k ==> #[trigger] tree_ahead(field@, x as int, y as int, direction, j) < own,
        decreases steps + 1 - k,
    {
        let (cx, cy) = match direction {
            Direction::Up => (x, y - k),
            Direction::Down => (x, y + k),
            Direction::Left => (x - k, y),
            Direction::Right => (x + k, y),
        };
        proof {
            assert(field@[cy as int]@.len() == width);
        }
        if field[cy][cx] >= own {
            proof {
                assert(tree_ahead(field@, x as int, y as int, direction, k as int) >= own);
            }
            return false;
        }
        k = k + 1;
    }
    true
}

/// Whether the tree at `(x, y)` can be seen from some edge.
pub fn check_if_visible(field: &Vec<Vec<u32>>, x: usize, y: usize) -> (r: bool)
    requires
        grid_rect(field@),
        x < field@[0]@.len(),
        y < field@.len(),
    ensures
        r == visible(field@, x as int, y as int),
{
    check_in_direction(field, x, y, Direction::Up) || check_in_direction(field, x, y, Direction::Right)
        || check_in_direction(field, x, y, Direction::Down) || check_in_direction(
        field,
        x,
        y,
        Direction::Left,
    )
}

pub open spec fn visible(field: Seq<Vec<u32>>, x: int, y: int) -> bool {
    on_edge(field, x, y) || clear_view(field, x, y, Direction::Up) || clear_view(
        field,
        x,
        y,
        Direction::Right,
    ) || clear_view(field, x, y, Direction::Down) || clear_view(field, x, y, Direction::Left)
}

/// How many trees one sees from `(x, y)` toward `direction`.
pub fn get_distance_in_direction(field: &Vec<Vec<u32>>, x: usize, y: usize, direction: Direction) -> (r: u64)
    requires
        grid_rect(field@),
        x < field@[0]@.len(),
        y < field@.len(),
    ensures
        view_distance(field@, x as int, y as int, direction, r as int),
        r == sight(field@, x as int, y as int, direction),
{
    let width = field[0].len();
    let height = field.len();
    let own = field[y][x];
    if x == 0 || y == 0 || x == width - 1 || y == height - 1 {
        proof {
            assert(to_edge(field@, x as int, y as int, direction) >= 0);
        }
        return 0;
    }
    let steps = match direction {
        Direction::Up => y,
        Direction::Down => height - 1 - y,
        Direction::Left => x,
        Direction::Right => width - 1 - x,
    };
    let mut k: usize = 1;
    while k < steps
        invariant
            grid_rect(field@),
            width == field@[0]@.len(),
            height == field@.len(),
            0 < x < width - 1,
            0 < y < height - 1,
            own == tree(field@, x as int, y as int),
            steps == to_edge(field@, x as int, y as int, direction),
            1 <= k <= steps,
            forall|j: int| 1 <= j < k ==> #[trigger] tree_ahead(field@, x as int, y as int, direction, j) < own,
            sight(field@, x as int, y as int, direction) == sight_from(field@, x as int, y as int, direction, k as int),
        decreases steps - k,
    {
        let (cx, cy) = match direction {
            Direction::Up => (x, y - k),
            Direction::Down => (x, y + k),
            Direction::Left => (x - k, y),
            Direction::Right => (x + k, y),
        };
        proof {
            assert(field@[cy as int]@.len() == width);
        }
        if field[cy][cx] >= own {
            proof {
                assert(tree_ahead(field@, x as int, y as int, direction, k as int) >= own);
            }
            return k as u64;
        }
        k = k + 1;
    }
    steps as u64
}

/// The product of the four viewing distances from `(x, y)`.
pub fn get_scenic_score(field: &Vec<Vec<u32>>, x: usize, y: usize) -> (r: u64)
    requires
        forest_ok(field@),
        x < field@[0]@.len(),
        y < field@.len(),
    ensures
        r == scenic(field@, x as int, y as int),
{
    let u = get_distance_in_direction(field, x, y, Direction::Up);
    let d = get_distance_in_direction(field, x, y, Direction::Down);
    let l = get_distance_in_direction(field, x, y, Direction::Left);
    let rt = get_distance_in_direction(field, x, y, Direction::Right);
    proof {
        let h = field@.len() as int;
        let w = field@[0]@.len() as int;
        assert(u * d <= 0x8000 * 0x8000) by (nonlinear_arith)
            requires
                0 <= u <= 0x8000,
                0 <= d <= 0x8000,
        ;
        assert(l * rt <= 0x8000 * 0x8000) by (nonlinear_arith)
            requires
                0 <= l <= 0x8000,
                0 <= rt <= 0x8000,
        ;
        assert((u * d) * (l * rt) <= 0x4000_0000 * 0x4000_0000) by (nonlinear_arith)
            requires
                0 <= u * d <= 0x4000_0000,
                0 <= l * rt <= 0x4000_0000,
        ;
        assert(u * d * l * rt == (u * d) * (l * rt)) by (nonlinear_arith);
    }
    let vertical = u * d;
    let horizontal = l * rt;
    vertical * horizontal
}

/// How many of the trees in rows `..y` and, of row `y`, columns `..x` are
/// visible from some edge.
pub open spec fn visible_count(field: Seq<Vec<u32>>, y: int, x: int) -> int
    decreases y, x,
{
    if y < 0 || x < 0 {
        0
    } else if x == 0 {
        if y == 0 {
            0
        } else {
            visible_count(field, y - 1, field[0]@.len() as int)
        }
    } else {
        visible_count(field, y, x - 1) + if visible(field, x - 1, y) {
            1int
        } else {
            0int
        }
    }
}

/// How many trees are visible from some edge.
pub fn count_visible(field: &Vec<Vec<u32>>) -> (r: u64)
    requires
        forest_ok(field@),
    ensures
        r == visible_count(field@, field@.len() - 1, field@[0]@.len() as int),
{
    let height = field.len();
    let width = field[0].len();
    let mut total: u64 = 0;
    let mut y: usize = 0;
    while y < height
        invariant
            forest_ok(field@),
            height == field@.len(),
            width == field@[0]@.len(),
            0 <= y <= height,
            y > 0 ==> total == visible_count(field@, y - 1, width as int),
            y == 0 ==> total == 0,
            total <= y * width,
        decreases height - y,
    {
        let mut x: usize = 0;
        proof {
            assert(y * width <= SIDE_LIMIT * SIDE_LIMIT) by (nonlinear_arith)
                requires
                    y < height <= SIDE_LIMIT,
                    width <= SIDE_LIMIT,
            ;
            if y > 0 {
                assert(visible_count(field@, y as int, 0) == visible_count(field@, y - 1, width as int));
            }
        }
        while x < width
            invariant
                forest_ok(field@),
                height == field@.len(),
                width == field@[0]@.len(),
                0 <= y < height,
                0 <= x <= width,
                total == visible_count(field@, y as int, x as int),
                total <= y * width + x,
                y * width <= SIDE_LIMIT * SIDE_LIMIT,
            decreases width - x,
        {
            if check_if_visible(field, x, y) {
                total = total + 1;
            }
            x = x + 1;
        }
        proof {
            assert((y + 1) * width == y * width + width) by (nonlinear_arith);
            assert(y * width + width <= SIDE_LIMIT * SIDE_LIMIT) by (nonlinear_arith)
                requires
                    y < height <= SIDE_LIMIT,
                    width <= SIDE_LIMIT,
            ;
        }
        y = y + 1;
    }
    total
}

/// The best scenic score over the trees in rows `..y` and, of row `y`,
/// columns `..x`.
pub open spec fn best_upto(field: Seq<Vec<u32>>, y: int, x: int) -> int
    decreases y, x,
{
    if y < 0 || x < 0 {
        0
    } else if x == 0 {
        if y == 0 {
            0
        } else {
            best_upto(field, y - 1, field[0]@.len() as int)
        }
    } else {
        let b = best_upto(field, y, x - 1);
        let s = scenic(field, x - 1, y);
        if s > b {
            s
        } else {
            b
        }
    }
}

/// The highest scenic score of any tree.
pub fn best_scenic_score(field: &Vec<Vec<u32>>) -> (r: u64)
    requires
        forest_ok(field@),
    ensures
        r == best_upto(field@, field@.len() - 1, field@[0]@.len() as int),
{
    let height = field.len();
    let width = field[0].len();
    let mut best: u64 = 0;
    let mut y: usize = 0;
    while y < height
        invariant
            forest_ok(field@),
            height == field@.len(),
            width == field@[0]@.len(),
            0 <= y <= height,
            y > 0 ==> best == best_upto(field@, y - 1, width as int),
            y == 0 ==> best == 0,
        decreases height - y,
    {
        let mut x: usize = 0;
        proof {
            if y > 0 {
                assert(best_upto(field@, y as int, 0) == best_upto(field@, y - 1, width as int));
            }
        }
        while x < width
            invariant
                forest_ok(field@),
                height == field@.len(),
                width == field@[0]@.len(),
                0 <= y < height,
                0 <= x <= width,
                best == best_upto(field@, y as int, x as int),
            decreases width - x,
        {
            let s = get_scenic_score(field, x, y);
            if s > best {
                best = s;
            }
            x = x + 1;
        }
        y = y + 1;
    }
    best
}

} // verus!
