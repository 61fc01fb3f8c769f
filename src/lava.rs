//! Surface area of a lava droplet made of unit cubes.
//!
//! A cube face counts toward the surface when the cube on its other side is
//! not lava; toward the exterior surface only when, in addition, that cube is
//! connected to the space outside the droplet's bounding box.
use vstd::prelude::*;

verus! {

/// Largest coordinate of a lava cube.
pub const COORD_MAX: i8 = 125;

/// A unit cube `(x, y, z)`.
#[derive(Debug, Clone, Copy, PartialEq, Eq, Hash, Structural)]
pub struct Position {
    pub x: i8,
    pub y: i8,
    pub z: i8,
}

/// Offset number `n` (of six) to a face neighbour.
pub open spec fn face_offset(n: int) -> (int, int, int) {
    if n == 0 {
        (1, 0, 0)
    } else if n == 1 {
        (0, 1, 0)
    } else if n == 2 {
        (-1, 0, 0)
    } else if n == 3 {
        (0, -1, 0)
    } else if n == 4 {
        (0, 0, 1)
    } else {
        (0, 0, -1)
    }
}

/// Coordinates within `-1..=COORD_MAX + 1`, where neighbours can be formed.
pub open spec fn near(p: Position) -> bool {
    -1 <= p.x <= COORD_MAX + 1 && -1 <= p.y <= COORD_MAX + 1 && -1 <= p.z <= COORD_MAX + 1
}

/// Face neighbour number `n` of `p`.
pub open spec fn neighbor(p: Position, n: int) -> Position {
    let o = face_offset(n);
    Position { x: (p.x + o.0) as i8, y: (p.y + o.1) as i8, z: (p.z + o.2) as i8 }
}

/// The six face neighbours of a cube, handed out one at a time.
#[derive(Debug, Clone, Copy)]
pub struct FaceNeighbors {
    pub pos: Position,
    pub n: u8,
}

impl FaceNeighbors {
    /// The neighbours of `pos`, none handed out yet.
    pub fn new(pos: Position) -> (r: FaceNeighbors)
        ensures
            r.pos == pos,
            r.n == 0,
    {
        FaceNeighbors { pos, n: 0 }
    }

    /// The next neighbour, in the order +x, +y, -x, -y, +z, -z; `None` after six.
    pub fn next(&mut self) -> (r: Option<Position>)
        requires
            -127 <= old(self).pos.x <= 126,
            -127 <= old(self).pos.y <= 126,
            -127 <= old(self).pos.z <= 126,
        ensures
            final(self).pos == old(self).pos,
            old(self).n < 6 ==> r == Some(neighbor(old(self).pos, old(self).n as int)) && final(self).n
                == old(self).n + 1,
            old(self).n >= 6 ==> r is None && final(self).n == old(self).n,
    {
        let p = self.pos;
        let r = match self.n {
            0 => Some(Position { x: p.x + 1, y: p.y, z: p.z }),
            1 => Some(Position { x: p.x, y: p.y + 1, z: p.z }),
            2 => Some(Position { x: p.x - 1, y: p.y, z: p.z }),
            3 => Some(Position { x: p.x, y: p.y - 1, z: p.z }),
            4 => Some(Position { x: p.x, y: p.y, z: p.z + 1 }),
            5 => Some(Position { x: p.x, y: p.y, z: p.z - 1 }),
            _ => None,
        };
        if self.n < 6 {
            self.n = self.n + 1;
        }
        r
    }
}

/// Whether `p` is one of the cubes of `lava`.
pub fn is_lava(lava: &Vec<Position>, p: &Position) -> (r: bool)
    ensures
        r == lava@.contains(*p),
{
    let mut k: usize = 0;
    while k < lava.len()
        invariant
            0 <= k <= lava@.len(),
            forall|j: int| 0 <= j < k ==> lava@[j] != *p,
        decreases lava@.len() - k,
    {
        if lava[k] == *p {
            proof {
                assert(lava@[k as int] == *p);
            }
            return true;
        }
        k = k + 1;
    }
    false
}

/// Faces of the cubes `cubes[..k]` whose neighbour is not lava.
pub open spec fn open_faces(lava: Seq<Position>, cubes: Seq<Position>, k: int) -> int
    decreases k,
{
    if k <= 0 {
        0
    } else {
        open_faces(lava, cubes, k - 1) + open_around(lava, cubes[k - 1], 6)
    }
}

/// Faces among the first `n` of cube `p` whose neighbour is not lava.
pub open spec fn open_around(lava: Seq<Position>, p: Position, n: int) -> int
    decreases n,
{
    if n <= 0 {
        0
    } else {
        open_around(lava, p, n - 1) + if lava.contains(neighbor(p, n - 1)) {
            0int
        } else {
            1int
        }
    }
}

proof fn lemma_open_around_bounds(lava: Seq<Position>, p: Position, n: int)
    requires
        0 <= n,
    ensures
        0 <= open_around(lava, p, n) <= n,
    decreases n,
{
    if n > 0 {
        lemma_open_around_bounds(lava, p, n - 1);
    }
}

/// Number of cube faces of `lava` that do not touch another lava cube.
pub fn surface_area(lava: &Vec<Position>) -> (r: u64)
    requires
        lava@.len() <= 0x1_0000_0000,
        forall|k: int| 0 <= k < lava@.len() ==> near(#[trigger] lava@[k]),
    ensures
        r == open_faces(lava@, lava@, lava@.len() as int),
{
    let mut total: u64 = 0;
    let mut k: usize = 0;
    while k < lava.len()
        invariant
            0 <= k <= lava@.len(),
            lava@.len() <= 0x1_0000_0000,
            forall|j: int| 0 <= j < lava@.len() ==> near(#[trigger] lava@[j]),
            total == open_faces(lava@, lava@, k as int),
            total <= 6 * k,
        decreases lava@.len() - k,
    {
        let p = lava[k];
        let mut it = FaceNeighbors::new(p);
        let mut count: u64 = 0;
        let mut m: u8 = 0;
        while m < 6
            invariant
                0 <= m <= 6,
                it.pos == p,
                it.n == m,
                near(p),
                count == open_around(lava@, p, m as int),
                count <= m,
            decreases 6 - m,
        {
            let nb = it.next().unwrap();
            if !is_lava(lava, &nb) {
                count = count + 1;
            }
            m = m + 1;
        }
        total = total + count;
        k = k + 1;
    }
    total
}

/// `p` lies in the box `0..=b` on every axis.
pub open spec fn in_box(p: Position, b: Position) -> bool {
    0 <= p.x <= b.x && 0 <= p.y <= b.y && 0 <= p.z <= b.z
}

pub open spec fn adjacent(p: Position, q: Position) -> bool {
    exists|n: int| 0 <= n < 6 && q == #[trigger] neighbor(p, n)
}

/// `q` walks from cube to face-adjacent cube through air, inside the box
/// `b` but for its last cube.
pub open spec fn air_walk(lava: Seq<Position>, b: Position, q: Seq<Position>) -> bool {
    &&& q.len() >= 1
    &&& forall|i: int| 0 <= i < q.len() ==> !lava.contains(#[trigger] q[i])
    &&& forall|i: int| 0 <= i < q.len() - 1 ==> in_box(#[trigger] q[i], b)
    &&& forall|i: int| 0 <= i < q.len() - 1 ==> adjacent(#[trigger] q[i], q[i + 1])
}

/// Air at `p` connects to the space outside the box `b`.
pub open spec fn escapes(lava: Seq<Position>, b: Position, p: Position) -> bool {
    exists|q: Seq<Position>|
        #[trigger] air_walk(lava, b, q) && q[0] == p && !in_box(q.last(), b)
}

/// Cell index of `p` within the box `b`.
pub open spec fn box_index(b: Position, p: Position) -> int {
    (p.x * (b.y + 1) + p.y) * (b.z + 1) + p.z
}

pub open spec fn box_size(b: Position) -> int {
    (b.x + 1) * (b.y + 1) * (b.z + 1)
}

pub open spec fn box_ok(b: Position) -> bool {
    0 <= b.x <= COORD_MAX && 0 <= b.y <= COORD_MAX && 0 <= b.z <= COORD_MAX
}

proof fn lemma_box_index(b: Position, p: Position)
    requires
        box_ok(b),
        in_box(p, b),
    ensures
        0 <= box_index(b, p) < box_size(b),
        box_size(b) <= 126 * 126 * 126,
{
    let (x, y, z) = (p.x as int, p.y as int, p.z as int);
    let (bx, by, bz) = (b.x as int, b.y as int, b.z as int);
    assert(0 <= x * (by + 1) + y < (bx + 1) * (by + 1)) by (nonlinear_arith)
        requires
            0 <= x <= bx,
            0 <= y <= by,
    ;
    assert(0 <= (x * (by + 1) + y) * (bz + 1) + z < (bx + 1) * (by + 1) * (bz + 1)) by (nonlinear_arith)
        requires
            0 <= x * (by + 1) + y < (bx + 1) * (by + 1),
            0 <= z <= bz,
    ;
    assert((bx + 1) * (by + 1) * (bz + 1) <= 126 * 126 * 126) by (nonlinear_arith)
        requires
            0 <= bx <= 125,
            0 <= by <= 125,
            0 <= bz <= 125,
    ;
}

proof fn lemma_box_index_injective(b: Position, p: Position, q: Position)
    requires
        box_ok(b),
        in_box(p, b),
        in_box(q, b),
        box_index(b, p) == box_index(b, q),
    ensures
        p == q,
{
    let (by, bz) = (b.y as int, b.z as int);
    let u = p.x * (by + 1) + p.y;
    let v = q.x * (by + 1) + q.y;
    assert(u == v && p.z == q.z) by (nonlinear_arith)
        requires
            u * (bz + 1) + p.z == v * (bz + 1) + q.z,
            0 <= p.z <= bz,
            0 <= q.z <= bz,
    ;
    assert(p.x == q.x && p.y == q.y) by (nonlinear_arith)
        requires
            p.x * (by + 1) + p.y == q.x * (by + 1) + q.y,
            0 <= p.y <= by,
            0 <= q.y <= by,
    ;
}

/// Number of marked cells.
pub open spec fn count_true(s: Seq<bool>) -> nat
    decreases s.len(),
{
    if s.len() == 0 {
        0
    } else {
        count_true(s.drop_last()) + if s.last() {
            1nat
        } else {
            0nat
        }
    }
}

proof fn lemma_count_true_bounded(s: Seq<bool>)
    ensures
        count_true(s) <= s.len(),
    decreases s.len(),
{
    if s.len() > 0 {
        lemma_count_true_bounded(s.drop_last());
    }
}

proof fn lemma_count_true_none(s: Seq<bool>)
    requires
        forall|i: int| 0 <= i < s.len() ==> !s[i],
    ensures
        count_true(s) == 0,
    decreases s.len(),
{
    if s.len() > 0 {
        lemma_count_true_none(s.drop_last());
    }
}

proof fn lemma_count_true_mark(s: Seq<bool>, i: int)
    requires
        0 <= i < s.len(),
        !s[i],
    ensures
        count_true(s.update(i, true)) == count_true(s) + 1,
    decreases s.len(),
{
    let t = s.update(i, true);
    if i == s.len() - 1 {
        assert(t.drop_last() =~= s.drop_last());
    } else {
        assert(t.drop_last() =~= s.drop_last().update(i, true));
        lemma_count_true_mark(s.drop_last(), i);
    }
}

/// `v` is marked in the table of the box `b`.
pub open spec fn seen(visited: Seq<bool>, b: Position, v: Position) -> bool {
    in_box(v, b) && visited[box_index(b, v)]
}

/// Every neighbour of `v` is lava or a marked cell of the box.
pub open spec fn sealed(lava: Seq<Position>, visited: Seq<bool>, b: Position, v: Position) -> bool {
    forall|n: int|
        0 <= n < 6 ==> lava.contains(#[trigger] neighbor(v, n)) || seen(visited, b, neighbor(v, n))
}

/// Marked cells are air and reached from `start` by an air walk inside the box.
#[verifier::opaque]
pub open spec fn reached(lava: Seq<Position>, visited: Seq<bool>, b: Position, start: Position) -> bool {
    forall|v: Position|
        #[trigger] seen(visited, b, v) ==> !lava.contains(v) && exists|q: Seq<Position>|
            #[trigger] air_walk(lava, b, q) && q[0] == start && q.last() == v && in_box(q.last(), b)
}

proof fn lemma_sealed_walk(lava: Seq<Position>, visited: Seq<bool>, b: Position, q: Seq<Position>, i: int)
    requires
        air_walk(lava, b, q),
        seen(visited, b, q[0]),
        forall|v: Position| #[trigger] seen(visited, b, v) ==> sealed(lava, visited, b, v),
        0 <= i < q.len(),
    ensures
        seen(visited, b, q[i]),
    decreases i,
{
    if i > 0 {
        lemma_sealed_walk(lava, visited, b, q, i - 1);
        assert(adjacent(q[i - 1], q[i - 1 + 1]));
        let n = choose|n: int| 0 <= n < 6 && q[i] == #[trigger] neighbor(q[i - 1], n);
        assert(sealed(lava, visited, b, q[i - 1]));
        assert(!lava.contains(q[i]));
    }
}

fn box_cell(b: Position, p: Position) -> (r: usize)
    requires
        box_ok(b),
        in_box(p, b),
    ensures
        r == box_index(b, p),
        r < box_size(b),
{
    proof {
        lemma_box_index(b, p);
    }
    let x = p.x as usize;
    let y = p.y as usize;
    let z = p.z as usize;
    let by = b.y as usize + 1;
    let bz = b.z as usize + 1;
    proof {
        assert(x * by + y <= 126 * 126) by (nonlinear_arith)
            requires
                x <= 125,
                y < by <= 126,
        ;
        assert((x * by + y) * bz + z <= 126 * 126 * 126 + 126) by (nonlinear_arith)
            requires
                x * by + y <= 126 * 126,
                z < bz <= 126,
        ;
    }
    (x * by + y) * bz + z
}

fn in_box_exec(p: Position, b: Position) -> (r: bool)
    ensures
        r == in_box(p, b),
{
    0 <= p.x && p.x <= b.x && 0 <= p.y && p.y <= b.y && 0 <= p.z && p.z <= b.z
}

/// Whether the air at `pos` connects, through face-adjacent air cubes inside
/// the box `0..=boundaries`, to the space outside the box.
pub fn check_outside_connection(pos: Position, lava: &Vec<Position>, boundaries: Position) -> (r: bool)
    requires
        box_ok(boundaries),
        near(pos),
    ensures
        r == escapes(lava@, boundaries, pos),
{
    let b = boundaries;
    if is_lava(lava, &pos) {
        proof {
            assert forall|q: Seq<Position>| #[trigger] air_walk(lava@, b, q) && q[0] == pos implies false by {
                assert(!lava@.contains(q[0]));
            }
        }
        return false;
    }
    if !in_box_exec(pos, b) {
        proof {
            let q = seq![pos];
            assert(air_walk(lava@, b, q));
        }
        return true;
    }
    proof {
        lemma_box_index(b, pos);
        let (bx, by) = (b.x as int, b.y as int);
        assert((bx + 1) * (by + 1) <= 126 * 126) by (nonlinear_arith)
            requires
                0 <= bx <= 125,
                0 <= by <= 125,
        ;
    }
    let size = (b.x as usize + 1) * (b.y as usize + 1) * (b.z as usize + 1);
    let mut visited: Vec<bool> = Vec::new();
    let mut k: usize = 0;
    while k < size
        invariant
            size == box_size(b),
            0 <= k <= size,
            visited@.len() == k,
            forall|j: int| 0 <= j < k ==> !visited@[j],
        decreases size - k,
    {
        visited.push(false);
        k = k + 1;
    }
    let start = box_cell(b, pos);
    let ghost blank = visited@;
    proof {
        lemma_count_true_none(blank);
        lemma_count_true_mark(blank, start as int);
    }
    visited.set(start, true);
    let mut count: usize = 1;
    let mut stack: Vec<Position> = Vec::new();
    stack.push(pos);
    proof {
        lemma_count_true_bounded(visited@);
        reveal(reached);
        assert forall|v: Position| #[trigger] seen(visited@, b, v) implies !lava@.contains(v) && exists|q: Seq<Position>|
            #[trigger] air_walk(lava@, b, q) && q[0] == pos && q.last() == v && in_box(q.last(), b) by {
            lemma_box_index(b, v);
            if v != pos {
                if box_index(b, v) == box_index(b, pos) {
                    lemma_box_index_injective(b, v, pos);
                }
                assert(!blank[box_index(b, v)]);
            }
            let q = seq![pos];
            assert(air_walk(lava@, b, q));
        }
        assert forall|v: Position| #[trigger] seen(visited@, b, v) && !stack@.contains(v) implies sealed(
            lava@,
            visited@,
            b,
            v,
        ) by {
            lemma_box_index(b, v);
            if v != pos {
                if box_index(b, v) == box_index(b, pos) {
                    lemma_box_index_injective(b, v, pos);
                }
                assert(!blank[box_index(b, v)]);
            } else {
                assert(stack@[0] == pos);
            }
        }
    }
    while stack.len() > 0
        invariant
            b == boundaries,
            box_ok(b),
            size == box_size(b),
            visited@.len() == size,
            reached(lava@, visited@, b, pos),
            seen(visited@, b, pos),
            forall|j: int| 0 <= j < stack@.len() ==> seen(visited@, b, #[trigger] stack@[j]),
            forall|v: Position| #[trigger] seen(visited@, b, v) && !stack@.contains(v) ==> sealed(lava@, visited@, b, v),
            count == count_true(visited@),
            count <= size,
        decreases size - count, stack@.len(),
    {
        let ghost old_stack = stack@;
        let c = stack.pop().unwrap();
        proof {
            assert(c == old_stack[old_stack.len() - 1]);
            assert(seen(visited@, b, c));
            assert forall|v: Position| #[trigger] seen(visited@, b, v) && !stack@.contains(v) && v != c implies sealed(lava@, visited@, b, v) by {
                if old_stack.contains(v) {
                    let j = choose|j: int| 0 <= j < old_stack.len() && old_stack[j] == v;
                    if j < old_stack.len() - 1 {
                        assert(stack@[j] == v);
                    }
                }
            }
        }
        let ghost count0 = count;
        let mut it = FaceNeighbors::new(c);
        let mut m: u8 = 0;
        while m < 6
            invariant
                b == boundaries,
                box_ok(b),
                size == box_size(b),
                visited@.len() == size,
                reached(lava@, visited@, b, pos),
                seen(visited@, b, pos),
                seen(visited@, b, c),
                in_box(c, b),
                it.pos == c,
                it.n == m,
                0 <= m <= 6,
                forall|j: int| 0 <= j < stack@.len() ==> seen(visited@, b, #[trigger] stack@[j]),
                forall|v: Position| #[trigger] seen(visited@, b, v) && !stack@.contains(v) && v != c ==> sealed(lava@, visited@, b, v),
                forall|n: int| 0 <= n < m ==> lava@.contains(#[trigger] neighbor(c, n)) || seen(visited@, b, neighbor(c, n)),
                count == count_true(visited@),
                count <= size,
                count0 <= count,
                count == count0 ==> stack@ == old_stack.drop_last(),
            decreases 6 - m,
        {
            let nb = it.next().unwrap();
            if !is_lava(lava, &nb) {
                if !in_box_exec(nb, b) {
                    proof {
                        lemma_escape(lava@, visited@, b, pos, c, nb, m as int);
                    }
                    return true;
                }
                let idx = box_cell(b, nb);
                if !visited[idx] {
                    let ghost before = visited@;
                    proof {
                        lemma_count_true_mark(before, idx as int);
                        lemma_count_true_bounded(before.update(idx as int, true));
                    }
                    let ghost st0 = stack@;
                    visited.set(idx, true);
                    stack.push(nb);
                    count = count + 1;
                    proof {
                        lemma_mark(lava@, before, visited@, b, pos, c, nb, m as int, st0, stack@);
                    }
                }
            }
            proof {
                if !lava@.contains(nb) {
                    assert(seen(visited@, b, nb));
                }
            }
            m = m + 1;
        }
        proof {
            assert(sealed(lava@, visited@, b, c));
        }
    }
    proof {
        assert forall|q: Seq<Position>| #[trigger] air_walk(lava@, b, q) && q[0] == pos implies in_box(q.last(), b) by {
            assert forall|v: Position| #[trigger] seen(visited@, b, v) implies sealed(lava@, visited@, b, v) by {
                assert(!stack@.contains(v));
            }
            lemma_sealed_walk(lava@, visited@, b, q, q.len() - 1);
        }
    }
    false
}

/// Every cube has coordinates within `0..=COORD_MAX`.
pub open spec fn droplet_ok(lava: Seq<Position>) -> bool {
    forall|k: int|
        0 <= k < lava.len() ==> {
            let p = #[trigger] lava[k];
            0 <= p.x <= COORD_MAX && 0 <= p.y <= COORD_MAX && 0 <= p.z <= COORD_MAX
        }
}

/// The least box `0..=r` on every axis that holds every cube.
pub fn bounds(lava: &Vec<Position>) -> (r: Position)
    requires
        droplet_ok(lava@),
    ensures
        box_ok(r),
        forall|k: int| 0 <= k < lava@.len() ==> in_box(#[trigger] lava@[k], r),
        r == bounds_spec(lava@),
{
    let mut m = Position { x: 0, y: 0, z: 0 };
    let mut k: usize = 0;
    while k < lava.len()
        invariant
            droplet_ok(lava@),
            0 <= k <= lava@.len(),
            box_ok(m),
            forall|j: int| 0 <= j < k ==> in_box(#[trigger] lava@[j], m),
            m.x == max_x(lava@, k as int),
            m.y == max_y(lava@, k as int),
            m.z == max_z(lava@, k as int),
        decreases lava@.len() - k,
    {
        let p = lava[k];
        proof {
            assert(0 <= lava@[k as int].x);
        }
        if p.x > m.x {
            m.x = p.x;
        }
        if p.y > m.y {
            m.y = p.y;
        }
        if p.z > m.z {
            m.z = p.z;
        }
        k = k + 1;
    }
    m
}

/// Faces of the cubes `cubes[..k]` whose neighbour is air connected to the
/// outside of the box `b`.
pub open spec fn exterior_faces(lava: Seq<Position>, b: Position, cubes: Seq<Position>, k: int) -> int
    decreases k,
{
    if k <= 0 {
        0
    } else {
        exterior_faces(lava, b, cubes, k - 1) + exterior_around(lava, b, cubes[k - 1], 6)
    }
}

/// Faces among the first `n` of cube `p` whose neighbour is air connected to
/// the outside of the box `b`.
pub open spec fn exterior_around(lava: Seq<Position>, b: Position, p: Position, n: int) -> int
    decreases n,
{
    if n <= 0 {
        0
    } else {
        exterior_around(lava, b, p, n - 1) + if !lava.contains(neighbor(p, n - 1)) && escapes(
            lava,
            b,
            neighbor(p, n - 1),
        ) {
            1int
        } else {
            0int
        }
    }
}

/// Number of cube faces of `lava` that touch air connected to the outside
/// of the droplet's bounding box.
pub fn exterior_surface(lava: &Vec<Position>) -> (r: u64)
    requires
        lava@.len() <= 0x1_0000_0000,
        droplet_ok(lava@),
    ensures
        r == exterior_faces(lava@, bounds_spec(lava@), lava@, lava@.len() as int),
{
    let b = bounds(lava);
    let mut total: u64 = 0;
    let mut k: usize = 0;
    while k < lava.len()
        invariant
            0 <= k <= lava@.len(),
            lava@.len() <= 0x1_0000_0000,
            droplet_ok(lava@),
            box_ok(b),
            b == bounds_spec(lava@),
            total == exterior_faces(lava@, b, lava@, k as int),
            total <= 6 * k,
        decreases lava@.len() - k,
    {
        let p = lava[k];
        proof {
            assert(0 <= lava@[k as int].x);
        }
        let mut it = FaceNeighbors::new(p);
        let mut count: u64 = 0;
        let mut m: u8 = 0;
        while m < 6
            invariant
                0 <= m <= 6,
                it.pos == p,
                it.n == m,
                0 <= p.x <= COORD_MAX && 0 <= p.y <= COORD_MAX && 0 <= p.z <= COORD_MAX,
                box_ok(b),
                count == exterior_around(lava@, b, p, m as int),
                count <= m,
            decreases 6 - m,
        {
            let nb = it.next().unwrap();
            if !is_lava(lava, &nb) && check_outside_connection(nb, lava, b) {
                count = count + 1;
            }
            m = m + 1;
        }
        total = total + count;
        k = k + 1;
    }
    total
}

/// The bounding box of the cubes, as `bounds` computes it.
pub open spec fn bounds_spec(lava: Seq<Position>) -> Position {
    Position { x: max_x(lava, lava.len() as int), y: max_y(lava, lava.len() as int), z: max_z(lava, lava.len() as int) }
}

pub open spec fn max_x(lava: Seq<Position>, k: int) -> i8
    decreases k,
{
    if k <= 0 { 0 } else if lava[k - 1].x > max_x(lava, k - 1) { lava[k - 1].x } else { max_x(lava, k - 1) }
}

pub open spec fn max_y(lava: Seq<Position>, k: int) -> i8
    decreases k,
{
    if k <= 0 { 0 } else if lava[k - 1].y > max_y(lava, k - 1) { lava[k - 1].y } else { max_y(lava, k - 1) }
}

pub open spec fn max_z(lava: Seq<Position>, k: int) -> i8
    decreases k,
{
    if k <= 0 { 0 } else if lava[k - 1].z > max_z(lava, k - 1) { lava[k - 1].z } else { max_z(lava, k - 1) }
}

proof fn lemma_sealed_grows(lava: Seq<Position>, before: Seq<bool>, after: Seq<bool>, b: Position, v: Position)
    requires
        forall|u: Position| seen(before, b, u) ==> #[trigger] seen(after, b, u),
        sealed(lava, before, b, v),
    ensures
        sealed(lava, after, b, v),
{
    assert forall|n: int| 0 <= n < 6 implies lava.contains(#[trigger] neighbor(v, n)) || seen(after, b, neighbor(v, n)) by {
        if !lava.contains(neighbor(v, n)) {
            assert(seen(before, b, neighbor(v, n)));
        }
    }
}


/// Marking the air cube `nb`, neighbour number `m` of the marked cube `c`,
/// keeps the search's bookkeeping.
proof fn lemma_mark(
    lava: Seq<Position>,
    before: Seq<bool>,
    after: Seq<bool>,
    b: Position,
    pos: Position,
    c: Position,
    nb: Position,
    m: int,
    old_stack: Seq<Position>,
    new_stack: Seq<Position>,
)
    requires
        box_ok(b),
        before.len() == box_size(b),
        in_box(nb, b),
        !lava.contains(nb),
        0 <= m < 6,
        nb == neighbor(c, m),
        !before[box_index(b, nb)],
        after == before.update(box_index(b, nb), true),
        new_stack == old_stack.push(nb),
        reached(lava, before, b, pos),
        seen(before, b, c),
        forall|j: int| 0 <= j < old_stack.len() ==> seen(before, b, #[trigger] old_stack[j]),
        forall|v: Position| #[trigger] seen(before, b, v) && !old_stack.contains(v) && v != c ==> sealed(lava, before, b, v),
        forall|n: int| 0 <= n < m ==> lava.contains(#[trigger] neighbor(c, n)) || seen(before, b, neighbor(c, n)),
    ensures
        reached(lava, after, b, pos),
        seen(after, b, nb),
        forall|v: Position| seen(before, b, v) ==> #[trigger] seen(after, b, v),
        forall|j: int| 0 <= j < new_stack.len() ==> seen(after, b, #[trigger] new_stack[j]),
        forall|v: Position| #[trigger] seen(after, b, v) && !new_stack.contains(v) && v != c ==> sealed(lava, after, b, v),
        forall|n: int| 0 <= n <= m ==> lava.contains(#[trigger] neighbor(c, n)) || seen(after, b, neighbor(c, n)),
{
    reveal(reached);
    let visited = after;
    let stack = new_stack;
    assert(stack.drop_last() =~= old_stack);

                        assert forall|v: Position| seen(before, b, v) implies #[trigger] seen(visited, b, v) by {
                            lemma_box_index(b, v);
                            lemma_box_index(b, nb);
                        }
                        assert forall|v: Position| #[trigger] seen(visited, b, v) && v != nb implies seen(before, b, v) by {
                            lemma_box_index(b, v);
                            lemma_box_index(b, nb);
                            if box_index(b, v) == box_index(b, nb) {
                                lemma_box_index_injective(b, v, nb);
                            } else {
                                assert(visited[box_index(b, v)] == before[box_index(b, v)]);
                            }
                        }
                        lemma_box_index(b, nb);
                        assert(seen(visited, b, nb));
                        let w = choose|q: Seq<Position>|
                            #[trigger] air_walk(lava, b, q) && q[0] == pos && q.last() == c && in_box(q.last(), b);
                        let q = w.push(nb);
                        assert(adjacent(c, nb));
                        assert forall|i: int| 0 <= i < q.len() - 1 implies adjacent(#[trigger] q[i], q[i + 1]) by {
                            if i < w.len() - 1 {
                                assert(q[i] == w[i] && q[i + 1] == w[i + 1]);
                                assert(adjacent(w[i], w[i + 1]));
                            }
                        }
                        assert forall|i: int| 0 <= i < q.len() - 1 implies in_box(#[trigger] q[i], b) by {
                            assert(q[i] == w[i]);
                            if i < w.len() - 1 {
                                assert(in_box(w[i], b));
                            }
                        }
                        assert forall|i: int| 0 <= i < q.len() implies !lava.contains(#[trigger] q[i]) by {
                            if i < w.len() {
                                assert(q[i] == w[i]);
                            }
                        }
                        assert(air_walk(lava, b, q));
                        assert forall|v: Position| #[trigger] seen(visited, b, v) implies !lava.contains(v) && exists|q: Seq<Position>|
                            #[trigger] air_walk(lava, b, q) && q[0] == pos && q.last() == v && in_box(q.last(), b) by {
                            if v == nb {
                                assert(q.last() == nb);
                            } else {
                                assert(seen(before, b, v));
                            }
                        }
                        assert forall|j: int| 0 <= j < stack.len() implies seen(visited, b, #[trigger] stack[j]) by {
                            if j < stack.len() - 1 {
                                assert(seen(before, b, stack[j]));
                            }
                        }
                        assert forall|v: Position| #[trigger] seen(visited, b, v) && !stack.contains(v) && v != c implies sealed(lava, visited, b, v) by {
                            assert(stack[stack.len() - 1] == nb);
                            assert(v != nb);
                            assert(seen(before, b, v));
                            assert forall|j: int| 0 <= j < stack.len() - 1 implies stack[j] == stack.drop_last()[j] by {}
                            if stack.drop_last().contains(v) {
                                let j = choose|j: int| 0 <= j < stack.drop_last().len() && stack.drop_last()[j] == v;
                                assert(stack[j] == v);
                            }
                            assert(sealed(lava, before, b, v));
                            lemma_sealed_grows(lava, before, visited, b, v);
                        }
                        assert forall|n: int| 0 <= n < m implies lava.contains(#[trigger] neighbor(c, n)) || seen(visited, b, neighbor(c, n)) by {
                            if !lava.contains(neighbor(c, n)) {
                                assert(seen(before, b, neighbor(c, n)));
                            }
                        }
    assert forall|n: int| 0 <= n <= m implies lava.contains(#[trigger] neighbor(c, n)) || seen(after, b, neighbor(c, n)) by {
        if n < m && !lava.contains(neighbor(c, n)) {
            assert(seen(before, b, neighbor(c, n)));
        }
    }
}


/// An air cube outside the box next to a marked cube gives an escape walk.
proof fn lemma_escape(lava: Seq<Position>, visited: Seq<bool>, b: Position, pos: Position, c: Position, nb: Position, m: int)
    requires
        reached(lava, visited, b, pos),
        seen(visited, b, c),
        0 <= m < 6,
        nb == neighbor(c, m),
        !lava.contains(nb),
        !in_box(nb, b),
    ensures
        escapes(lava, b, pos),
{
    reveal(reached);
                        let w = choose|q: Seq<Position>|
                            #[trigger] air_walk(lava, b, q) && q[0] == pos && q.last() == c && in_box(q.last(), b);
                        let q = w.push(nb);
                        assert(adjacent(c, nb));
                        assert forall|i: int| 0 <= i < q.len() - 1 implies adjacent(#[trigger] q[i], q[i + 1]) by {
                            if i < w.len() - 1 {
                                assert(q[i] == w[i] && q[i + 1] == w[i + 1]);
                                assert(adjacent(w[i], w[i + 1]));
                            }
                        }
                        assert forall|i: int| 0 <= i < q.len() - 1 implies in_box(#[trigger] q[i], b) by {
                            assert(q[i] == w[i]);
                            if i < w.len() - 1 {
                                assert(in_box(w[i], b));
                            }
                        }
                        assert forall|i: int| 0 <= i < q.len() implies !lava.contains(#[trigger] q[i]) by {
                            if i < w.len() {
                                assert(q[i] == w[i]);
                            }
                        }
                        assert(air_walk(lava, b, q));
                        assert(q[0] == pos);
                        assert(q.last() == nb);
                        assert(!in_box(q.last(), b));
                    }

} // verus!
