//! Rocks of five shapes falling into a narrow chamber, pushed by jets of gas.
//!
//! A rock appears two units from the left wall and three units above the
//! highest rock (or the floor). It is then pushed by the next jet, if it can
//! move that way, and falls one unit, if it can; when it cannot fall it comes
//! to rest. The jets repeat in a loop.
use vstd::prelude::*;

verus! {

/// Stack heights stay below this bound.
pub const HEIGHT_LIMIT: usize = 0x1000_0000;

/// A jet direction, or the direction of falling.
#[derive(Debug, Clone, Copy, PartialEq, Eq, PartialOrd, Ord, Structural)]
pub enum Direction {
    Left,
    Right,
    Down,
}

/// A point or offset of the chamber; `y` grows upward.
#[derive(Debug, Clone, Copy, PartialEq, Eq, PartialOrd, Ord, Hash, Structural)]
pub struct Vec2D(pub i64, pub i64);

/// The five rock shapes, in the order in which they fall.
#[derive(Debug, Clone, Copy, PartialEq, Eq, PartialOrd, Ord, Structural)]
pub enum Rock {
    HorizontalLine,
    Plus,
    BackwardsL,
    VerticalLine,
    Square,
}

/// The rock that falls as number `n`, counting from 0.
pub open spec fn rock_of(n: int) -> Rock {
    let k = n % 5;
    if k == 0 {
        Rock::HorizontalLine
    } else if k == 1 {
        Rock::Plus
    } else if k == 2 {
        Rock::BackwardsL
    } else if k == 3 {
        Rock::VerticalLine
    } else {
        Rock::Square
    }
}

/// Width and height of a rock's bounding box.
pub open spec fn dims(r: Rock) -> Vec2D {
    match r {
        Rock::HorizontalLine => Vec2D(4, 1),
        Rock::Plus => Vec2D(3, 3),
        Rock::BackwardsL => Vec2D(3, 3),
        Rock::VerticalLine => Vec2D(1, 4),
        Rock::Square => Vec2D(2, 2),
    }
}

/// The cells of a rock, relative to the lower left corner of its bounding box.
pub open spec fn shape(r: Rock) -> Seq<Vec2D> {
    match r {
        Rock::HorizontalLine => seq![Vec2D(0, 0), Vec2D(1, 0), Vec2D(2, 0), Vec2D(3, 0)],
        Rock::Plus => seq![Vec2D(1, 0), Vec2D(0, 1), Vec2D(1, 1), Vec2D(2, 1), Vec2D(1, 2)],
        Rock::BackwardsL => seq![Vec2D(0, 0), Vec2D(1, 0), Vec2D(2, 0), Vec2D(2, 1), Vec2D(2, 2)],
        Rock::VerticalLine => seq![Vec2D(0, 0), Vec2D(0, 1), Vec2D(0, 2), Vec2D(0, 3)],
        Rock::Square => seq![Vec2D(0, 0), Vec2D(1, 0), Vec2D(0, 1), Vec2D(1, 1)],
    }
}

/// Rock `r` at `pos` and rock `o` at `opos` share a cell.
pub open spec fn meets(r: Rock, pos: Vec2D, o: Rock, opos: Vec2D) -> bool {
    exists|i: int, j: int|
        0 <= i < shape(r).len() && 0 <= j < shape(o).len() && #[trigger] (pos.0 + shape(r)[i].0)
            == #[trigger] (opos.0 + shape(o)[j].0) && pos.1 + shape(r)[i].1 == opos.1 + shape(
            o,
        )[j].1
}

/// Rock `r` at `pos` shares no cell with any rock at rest.
pub open spec fn fits(r: Rock, pos: Vec2D, placed: Seq<(Vec2D, Rock)>) -> bool {
    forall|k: int| 0 <= k < placed.len() ==> !meets(r, pos, #[trigger] placed[k].1, placed[k].0)
}

/// Rock `r` at `pos` can move one unit in direction `d`.
pub open spec fn can_move(
    width: int,
    placed: Seq<(Vec2D, Rock)>,
    r: Rock,
    pos: Vec2D,
    d: Direction,
) -> bool {
    match d {
        Direction::Left => pos.0 != 0 && fits(r, Vec2D((pos.0 - 1) as i64, pos.1), placed),
        Direction::Right => pos.0 + dims(r).0 < width && fits(r, Vec2D((pos.0 + 1) as i64, pos.1), placed),
        Direction::Down => fits(r, Vec2D(pos.0, (pos.1 - 1) as i64), placed),
    }
}

/// Where rock `r`, starting at `pos` with `moves` jets used so far, comes to
/// rest, and how many jets have been used then.
pub open spec fn landing(
    width: int,
    placed: Seq<(Vec2D, Rock)>,
    wind: Seq<Direction>,
    r: Rock,
    pos: Vec2D,
    moves: nat,
) -> (Vec2D, nat)
    decreases pos.1,
{
    let w = wind[(moves % wind.len()) as int];
    let x = if can_move(width, placed, r, pos, w) {
        if w == Direction::Left {
            pos.0 - 1
        } else {
            pos.0 + 1
        }
    } else {
        pos.0 as int
    };
    let p = Vec2D(x as i64, pos.1);
    if pos.1 <= 1 || !can_move(width, placed, r, p, Direction::Down) {
        (p, moves + 1)
    } else {
        landing(width, placed, wind, r, Vec2D(p.0, (pos.1 - 1) as i64), moves + 1)
    }
}

impl Rock {
    /// The rock that falls as number `rock_count`, counting from 0.
    pub fn from_rock_count(rock_count: usize) -> (r: Rock)
        ensures
            r == rock_of(rock_count as int),
    {
        match rock_count % 5 {
            0 => Rock::HorizontalLine,
            1 => Rock::Plus,
            2 => Rock::BackwardsL,
            3 => Rock::VerticalLine,
            _ => Rock::Square,
        }
    }

    /// Width and height of the rock's bounding box.
    pub fn get_dimensions(&self) -> (r: Vec2D)
        ensures
            r == dims(*self),
    {
        match self {
            Rock::HorizontalLine => Vec2D(4, 1),
            Rock::Plus => Vec2D(3, 3),
            Rock::BackwardsL => Vec2D(3, 3),
            Rock::VerticalLine => Vec2D(1, 4),
            Rock::Square => Vec2D(2, 2),
        }
    }

    /// The cells of the rock, relative to the lower left corner.
    pub fn get_shape(&self) -> (r: Vec<Vec2D>)
        ensures
            r@ == shape(*self),
    {
        let r = match self {
            Rock::HorizontalLine => vec![Vec2D(0, 0), Vec2D(1, 0), Vec2D(2, 0), Vec2D(3, 0)],
            Rock::Plus => vec![Vec2D(1, 0), Vec2D(0, 1), Vec2D(1, 1), Vec2D(2, 1), Vec2D(1, 2)],
            Rock::BackwardsL => vec![Vec2D(0, 0), Vec2D(1, 0), Vec2D(2, 0), Vec2D(2, 1), Vec2D(2, 2)],
            Rock::VerticalLine => vec![Vec2D(0, 0), Vec2D(0, 1), Vec2D(0, 2), Vec2D(0, 3)],
            Rock::Square => vec![Vec2D(0, 0), Vec2D(1, 0), Vec2D(0, 1), Vec2D(1, 1)],
        };
        proof {
            assert(r@ =~= shape(*self));
        }
        r
    }

    /// Whether this rock at `pos` shares a cell with rock `other` at `other_pos`.
    pub fn check_if_intersects_with(&self, pos: Vec2D, other: &Self, other_pos: Vec2D) -> (r: bool)
        requires
            -0x1_0000_0000_0000 <= pos.0 <= 0x1_0000_0000_0000,
            -0x1_0000_0000_0000 <= pos.1 <= 0x1_0000_0000_0000,
            -0x1_0000_0000_0000 <= other_pos.0 <= 0x1_0000_0000_0000,
            -0x1_0000_0000_0000 <= other_pos.1 <= 0x1_0000_0000_0000,
        ensures
            r == meets(*self, pos, *other, other_pos),
    {
        let own_dim = self.get_dimensions();
        let other_dim = other.get_dimensions();
        let x_padding = own_dim.0 + other_dim.0;
        let y_padding = own_dim.1 + other_dim.1;
        let dx = pos.0 - other_pos.0;
        let dy = pos.1 - other_pos.1;
        let own_shape = self.get_shape();
        let other_shape = other.get_shape();
        if dx > x_padding || -dx > x_padding || dy > y_padding || -dy > y_padding {
            proof {
                assert forall|i: int, j: int|
                    0 <= i < own_shape@.len() && 0 <= j < other_shape@.len() implies !(pos.0
                    + own_shape@[i].0 == other_pos.0 + other_shape@[j].0 && pos.1 + own_shape@[i].1
                    == other_pos.1 + other_shape@[j].1) by {
                    lemma_shape_in_box(*self, i);
                    lemma_shape_in_box(*other, j);
                }
            }
            return false;
        }
        let mut i: usize = 0;
        while i < own_shape.len()
            invariant
                own_shape@ == shape(*self),
                other_shape@ == shape(*other),
                0 <= i <= own_shape@.len(),
                -0x1_0000_0000_0000 <= pos.0 <= 0x1_0000_0000_0000,
                -0x1_0000_0000_0000 <= pos.1 <= 0x1_0000_0000_0000,
                -0x1_0000_0000_0000 <= other_pos.0 <= 0x1_0000_0000_0000,
                -0x1_0000_0000_0000 <= other_pos.1 <= 0x1_0000_0000_0000,
                forall|a: int, b: int|
                    0 <= a < i && 0 <= b < other_shape@.len() ==> !(pos.0 + own_shape@[a].0
                        == other_pos.0 + other_shape@[b].0 && pos.1 + own_shape@[a].1 == other_pos.1
                        + other_shape@[b].1),
            decreases own_shape@.len() - i,
        {
            let p = own_shape[i];
            proof {
                lemma_shape_in_box(*self, i as int);
            }
            let mut j: usize = 0;
            while j < other_shape.len()
                invariant
                    own_shape@ == shape(*self),
                    other_shape@ == shape(*other),
                    0 <= i < own_shape@.len(),
                    p == own_shape@[i as int],
                    0 <= p.0 < 4 && 0 <= p.1 < 4,
                    0 <= j <= other_shape@.len(),
                    -0x1_0000_0000_0000 <= pos.0 <= 0x1_0000_0000_0000,
                    -0x1_0000_0000_0000 <= pos.1 <= 0x1_0000_0000_0000,
                    -0x1_0000_0000_0000 <= other_pos.0 <= 0x1_0000_0000_0000,
                    -0x1_0000_0000_0000 <= other_pos.1 <= 0x1_0000_0000_0000,
                    forall|b: int|
                        0 <= b < j ==> !(pos.0 + p.0 == other_pos.0 + other_shape@[b].0 && pos.1
                            + p.1 == other_pos.1 + other_shape@[b].1),
                decreases other_shape@.len() - j,
            {
                let q = other_shape[j];
                proof {
                    lemma_shape_in_box(*other, j as int);
                }
                if pos.0 + p.0 == other_pos.0 + q.0 && pos.1 + p.1 == other_pos.1 + q.1 {
                    proof {
                        assert(pos.0 + shape(*self)[i as int].0 == other_pos.0 + shape(*other)[j as int].0);
                    }
                    return true;
                }
                j = j + 1;
            }
            i = i + 1;
        }
        false
    }

    /// Whether this rock at `pos` shares no cell with any rock in `placed`.
    pub fn check_if_placable(&self, pos: Vec2D, placed: &Vec<(Vec2D, Rock)>) -> (r: bool)
        requires
            -0x1_0000_0000_0000 <= pos.0 <= 0x1_0000_0000_0000,
            -0x1_0000_0000_0000 <= pos.1 <= 0x1_0000_0000_0000,
            forall|k: int|
                0 <= k < placed@.len() ==> in_range(#[trigger] placed@[k].0),
        ensures
            r == fits(*self, pos, placed@),
    {
        let mut k: usize = 0;
        while k < placed.len()
            invariant
                0 <= k <= placed@.len(),
                -0x1_0000_0000_0000 <= pos.0 <= 0x1_0000_0000_0000,
                -0x1_0000_0000_0000 <= pos.1 <= 0x1_0000_0000_0000,
                forall|m: int| 0 <= m < placed@.len() ==> in_range(#[trigger] placed@[m].0),
                forall|m: int| 0 <= m < k ==> !meets(*self, pos, #[trigger] placed@[m].1, placed@[m].0),
            decreases placed@.len() - k,
        {
            let other = placed[k];
            proof {
                assert(in_range(placed@[k as int].0));
            }
            if self.check_if_intersects_with(pos, &other.1, other.0) {
                return false;
            }
            k = k + 1;
        }
        true
    }
}

/// Coordinates far inside the `i64` range.
pub open spec fn in_range(p: Vec2D) -> bool {
    -0x1_0000_0000_0000 <= p.0 <= 0x1_0000_0000_0000 && -0x1_0000_0000_0000 <= p.1
        <= 0x1_0000_0000_0000
}

proof fn lemma_shape_in_box(r: Rock, i: int)
    requires
        0 <= i < shape(r).len(),
    ensures
        0 <= shape(r)[i].0 < dims(r).0,
        0 <= shape(r)[i].1 < dims(r).1,
        dims(r).0 <= 4,
        dims(r).1 <= 4,
{
}

/// The chamber and the rocks at rest in it.
#[derive(Debug, Clone)]
pub struct Chamber {
    width: u8,
    placed: Vec<(Vec2D, Rock)>,
    stack_height: usize,
    rock_count: usize,
    moves_count: usize,
    wind_loop: Vec<Direction>,
}

impl Chamber {
    pub closed spec fn width_spec(&self) -> int {
        self.width as int
    }

    /// Rocks at rest with their lower left corners, in the order they landed.
    pub closed spec fn placed_spec(&self) -> Seq<(Vec2D, Rock)> {
        self.placed@
    }

    /// Height of the highest rock cell; the floor is at 0.
    pub closed spec fn height_spec(&self) -> int {
        self.stack_height as int
    }

    pub closed spec fn rocks_spec(&self) -> int {
        self.rock_count as int
    }

    pub closed spec fn moves_spec(&self) -> int {
        self.moves_count as int
    }

    pub closed spec fn wind_spec(&self) -> Seq<Direction> {
        self.wind_loop@
    }

    pub closed spec fn wf(&self) -> bool {
        &&& self.wind_loop@.len() > 0
        &&& forall|k: int|
            0 <= k < self.wind_loop@.len() ==> #[trigger] self.wind_loop@[k] != Direction::Down
        &&& self.stack_height <= HEIGHT_LIMIT
        &&& forall|k: int| 0 <= k < self.placed@.len() ==> in_range(#[trigger] self.placed@[k].0)
    }

    /// An empty chamber of the given width with the given jet pattern, which
    /// pushes only left or right.
    pub fn new(width: u8, wind_loop: Vec<Direction>) -> (r: Chamber)
        requires
            wind_loop@.len() > 0,
            forall|k: int| 0 <= k < wind_loop@.len() ==> #[trigger] wind_loop@[k] != Direction::Down,
        ensures
            r.wf(),
            r.width_spec() == width,
            r.placed_spec() == Seq::<(Vec2D, Rock)>::empty(),
            r.height_spec() == 0,
            r.rocks_spec() == 0,
            r.moves_spec() == 0,
            r.wind_spec() == wind_loop@,
    {
        Chamber {
            width,
            placed: Vec::new(),
            stack_height: 0,
            rock_count: 0,
            moves_count: 0,
            wind_loop,
        }
    }

    /// Height of the tower of rocks at rest.
    pub fn height(&self) -> (r: usize)
        ensures
            r == self.height_spec(),
    {
        self.stack_height
    }

    /// Whether `rock` at `pos` can move one unit in `direction`.
    pub fn check_move_in_dir(&self, rock: Rock, pos: Vec2D, direction: Direction) -> (r: bool)
        requires
            self.wf(),
            -0x100_0000_0000 <= pos.0 <= 0x100_0000_0000,
            -0x100_0000_0000 <= pos.1 <= 0x100_0000_0000,
        ensures
            r == can_move(self.width_spec(), self.placed_spec(), rock, pos, direction),
    {
        let dim = rock.get_dimensions();
        match direction {
            Direction::Left => {
                if pos.0 == 0 {
                    return false;
                }
                rock.check_if_placable(Vec2D(pos.0 - 1, pos.1), &self.placed)
            },
            Direction::Right => {
                if pos.0 + dim.0 >= self.width as i64 {
                    return false;
                }
                rock.check_if_placable(Vec2D(pos.0 + 1, pos.1), &self.placed)
            },
            Direction::Down => rock.check_if_placable(Vec2D(pos.0, pos.1 - 1), &self.placed),
        }
    }

    /// Lets the next rock fall until it comes to rest.
    pub fn spawn_rock(&mut self)
        requires
            old(self).wf(),
            old(self).height_spec() + 8 <= HEIGHT_LIMIT,
            old(self).moves_spec() + old(self).height_spec() + 8 <= usize::MAX,
            old(self).rocks_spec() < usize::MAX,
        ensures
            final(self).wf(),
            ({
                let rock = rock_of(old(self).rocks_spec());
                let (p, m) = landing(
                    old(self).width_spec(),
                    old(self).placed_spec(),
                    old(self).wind_spec(),
                    rock,
                    Vec2D(2, (old(self).height_spec() + 4) as i64),
                    old(self).moves_spec() as nat,
                );
                let top = p.1 + dims(rock).1 - 1;
                &&& final(self).placed_spec() == old(self).placed_spec().push((p, rock))
                &&& final(self).moves_spec() == m
                &&& final(self).rocks_spec() == old(self).rocks_spec() + 1
                &&& final(self).height_spec() == if top > old(self).height_spec() {
                    top
                } else {
                    old(self).height_spec()
                }
                &&& final(self).width_spec() == old(self).width_spec()
                &&& final(self).wind_spec() == old(self).wind_spec()
            }),
    {
        let mut pos = Vec2D(2, (self.stack_height + 4) as i64);
        let rock = Rock::from_rock_count(self.rock_count);
        let rock_dimensions = rock.get_dimensions();
        self.rock_count = self.rock_count + 1;
        let ghost goal = landing(
            self.width as int,
            self.placed@,
            self.wind_loop@,
            rock,
            pos,
            self.moves_count as nat,
        );
        let ghost start_moves = self.moves_count as int;
        let ghost start_height = self.stack_height as int;
        loop
            invariant
                self.wf(),
                self.width == old(self).width,
                self.placed@ == old(self).placed@,
                self.wind_loop@ == old(self).wind_loop@,
                self.stack_height == old(self).stack_height,
                self.rock_count == old(self).rock_count + 1,
                rock == rock_of(old(self).rock_count as int),
                rock_dimensions == dims(rock),
                start_height == old(self).stack_height,
                start_moves == old(self).moves_count,
                start_height + 8 <= HEIGHT_LIMIT,
                start_moves + start_height + 8 <= usize::MAX,
                1 <= pos.1 <= start_height + 4,
                0 <= pos.0 <= 255,
                self.moves_count == start_moves + (start_height + 4 - pos.1),
                goal == landing(
                    self.width as int,
                    self.placed@,
                    self.wind_loop@,
                    rock,
                    pos,
                    self.moves_count as nat,
                ),
                goal == landing(
                    old(self).width as int,
                    old(self).placed@,
                    old(self).wind_loop@,
                    rock,
                    Vec2D(2, (old(self).stack_height + 4) as i64),
                    old(self).moves_count as nat,
                ),
            decreases pos.1,
        {
            let ghost before = pos;
            let ghost m0 = self.moves_count as nat;
            let wind = self.wind_loop[self.moves_count % self.wind_loop.len()];
            proof {
                assert(self.wind_loop@[(self.moves_count as nat % self.wind_loop@.len()) as int]
                    != Direction::Down);
            }
            self.moves_count = self.moves_count + 1;
            if self.check_move_in_dir(rock, pos, wind) {
                match wind {
                    Direction::Left => {
                        pos = Vec2D(pos.0 - 1, pos.1);
                    },
                    _ => {
                        pos = Vec2D(pos.0 + 1, pos.1);
                    },
                }
            }
            proof {
                assert(pos.1 == before.1);
            }
            if pos.1 == 1 || !self.check_move_in_dir(rock, pos, Direction::Down) {
                proof {
                    assert(goal == landing(
                        self.width as int,
                        self.placed@,
                        self.wind_loop@,
                        rock,
                        before,
                        m0,
                    ));
                    assert(goal == (pos, (m0 + 1) as nat));
                }
                let n_height = (pos.1 + rock_dimensions.1) as usize - 1;
                if n_height > self.stack_height {
                    self.stack_height = n_height;
                }
                self.placed.push((pos, rock));
                proof {
                    assert forall|k: int| 0 <= k < self.placed@.len() implies in_range(
                        #[trigger] self.placed@[k].0,
                    ) by {
                        if k < self.placed@.len() - 1 {
                            assert(self.placed@[k] == old(self).placed@[k]);
                        }
                    }
                }
                return;
            }
            pos = Vec2D(pos.0, pos.1 - 1);
        }
    }
}

/// A rock that starts at height `pos.1` lands no higher, and uses one jet
/// per unit it falls, plus one.
pub proof fn lemma_landing_bounds(
    width: int,
    placed: Seq<(Vec2D, Rock)>,
    wind: Seq<Direction>,
    r: Rock,
    pos: Vec2D,
    moves: nat,
)
    requires
        wind.len() > 0,
        pos.1 >= 1,
    ensures
        1 <= landing(width, placed, wind, r, pos, moves).0.1 <= pos.1,
        landing(width, placed, wind, r, pos, moves).1 <= moves + pos.1,
    decreases pos.1,
{
    let w = wind[(moves % wind.len()) as int];
    let x = if can_move(width, placed, r, pos, w) {
        if w == Direction::Left {
            pos.0 - 1
        } else {
            pos.0 + 1
        }
    } else {
        pos.0 as int
    };
    let p = Vec2D(x as i64, pos.1);
    if !(pos.1 <= 1 || !can_move(width, placed, r, p, Direction::Down)) {
        lemma_landing_bounds(width, placed, wind, r, Vec2D(p.0, (pos.1 - 1) as i64), moves + 1);
    }
}

/// A chamber's rocks, as plain values.
pub struct Tower {
    pub placed: Seq<(Vec2D, Rock)>,
    pub height: int,
    pub rocks: int,
    pub moves: int,
}

/// The tower after the next rock comes to rest in a chamber of `width`.
pub open spec fn drop_next(t: Tower, width: int, wind: Seq<Direction>) -> Tower {
    let rock = rock_of(t.rocks);
    let (p, m) = landing(width, t.placed, wind, rock, Vec2D(2, (t.height + 4) as i64), t.moves as nat);
    let top = p.1 + dims(rock).1 - 1;
    Tower {
        placed: t.placed.push((p, rock)),
        height: if top > t.height {
            top
        } else {
            t.height
        },
        rocks: t.rocks + 1,
        moves: m as int,
    }
}

/// The tower after `n` rocks fall into an empty chamber of width 7.
pub open spec fn tower_after(wind: Seq<Direction>, n: nat) -> Tower
    decreases n,
{
    if n == 0 {
        Tower { placed: Seq::empty(), height: 0, rocks: 0, moves: 0 }
    } else {
        drop_next(tower_after(wind, (n - 1) as nat), 7, wind)
    }
}

/// Most rocks that `tower_height` lets fall.
pub const ROCK_LIMIT: usize = 10000;

/// Height of the tower after `rocks` rocks fall into an empty chamber of
/// width 7 with the jet pattern `jets`.
pub fn tower_height(jets: Vec<Direction>, rocks: usize) -> (r: usize)
    requires
        jets@.len() > 0,
        forall|k: int| 0 <= k < jets@.len() ==> #[trigger] jets@[k] != Direction::Down,
        rocks <= ROCK_LIMIT,
    ensures
        r == tower_after(jets@, rocks as nat).height,
{
    let ghost wind = jets@;
    let mut chamber = Chamber::new(7, jets);
    let mut i: usize = 0;
    while i < rocks
        invariant
            chamber.wf(),
            0 <= i <= rocks,
            rocks <= ROCK_LIMIT,
            chamber.rocks_spec() == i,
            chamber.height_spec() <= 7 * i,
            chamber.moves_spec() <= i * (7 * ROCK_LIMIT + 5),
            chamber.wind_spec().len() > 0,
            chamber.wind_spec() == wind,
            chamber.width_spec() == 7,
            chamber.placed_spec() == tower_after(wind, i as nat).placed,
            chamber.height_spec() == tower_after(wind, i as nat).height,
            chamber.moves_spec() == tower_after(wind, i as nat).moves,
            tower_after(wind, i as nat).rocks == i,
        decreases rocks - i,
    {
        proof {
            lemma_landing_bounds(
                chamber.width_spec(),
                chamber.placed_spec(),
                chamber.wind_spec(),
                rock_of(chamber.rocks_spec()),
                Vec2D(2, (chamber.height_spec() + 4) as i64),
                chamber.moves_spec() as nat,
            );
            assert(i * (7 * ROCK_LIMIT + 5) + 7 * ROCK_LIMIT + 5 <= ROCK_LIMIT * (7 * ROCK_LIMIT + 5)) by (nonlinear_arith)
                requires
                    i < ROCK_LIMIT,
            ;
            assert((i + 1) * (7 * ROCK_LIMIT + 5) == i * (7 * ROCK_LIMIT + 5) + 7 * ROCK_LIMIT + 5) by (nonlinear_arith);
        }
        chamber.spawn_rock();
        i = i + 1;
    }
    chamber.height()
}

} // verus!
