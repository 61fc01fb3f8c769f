//! Sensors and the beacons they report, under the Manhattan metric.
//!
//! Each sensor rules out every position no farther from it than its nearest
//! beacon. A distress beacon hides where no sensor reaches.
use vstd::prelude::*;

verus! {

/// Coordinates stay within this magnitude.
pub const COORD_LIMIT: i64 = 0x1000_0000_0000;

/// The search area for the distress beacon is `1..=SEARCH_LIMIT` on both axes.
pub const SEARCH_LIMIT: i64 = 4000000;

/// A position `(x, y)`.
#[derive(Debug, Clone, Copy, PartialEq, Eq, Hash, PartialOrd, Ord, Structural)]
pub struct Position(pub i64, pub i64);

pub open spec fn abs(v: int) -> int {
    if v < 0 { -v } else { v }
}

pub open spec fn small(p: Position) -> bool {
    -COORD_LIMIT <= p.0 <= COORD_LIMIT && -COORD_LIMIT <= p.1 <= COORD_LIMIT
}

/// Within the range where distances are computed.
pub open spec fn near(p: Position) -> bool {
    -16 * COORD_LIMIT <= p.0 <= 16 * COORD_LIMIT && -16 * COORD_LIMIT <= p.1 <= 16 * COORD_LIMIT
}

pub open spec fn distance(a: Position, b: Position) -> int {
    abs(a.0 - b.0) + abs(a.1 - b.1)
}

/// Point `i` of the ring at distance `r + 1` around `c`: starting from the
/// top it walks right-down, left-down, left-up, then right-up.
pub open spec fn border_point(c: Position, r: int, i: int) -> Position {
    let n = r + 1;
    let q = i / n;
    let k = i % n + 1;
    if q == 0 {
        Position((c.0 + k) as i64, (c.1 - n + k) as i64)
    } else if q == 1 {
        Position((c.0 + n - k) as i64, (c.1 + k) as i64)
    } else if q == 2 {
        Position((c.0 - k) as i64, (c.1 + n - k) as i64)
    } else {
        Position((c.0 - n + k) as i64, (c.1 - k) as i64)
    }
}

impl Position {
    /// Manhattan distance to `other`.
    pub fn get_block_distance(&self, other: &Self) -> (r: u64)
        requires
            near(*self),
            near(*other),
        ensures
            r == distance(*self, *other),
    {
        let dx = if self.0 < other.0 {
            other.0 - self.0
        } else {
            self.0 - other.0
        };
        let dy = if self.1 < other.1 {
            other.1 - self.1
        } else {
            self.1 - other.1
        };
        (dx + dy) as u64
    }

    /// The positions at distance `radius + 1`, in ring order.
    pub fn get_border_positions(&self, radius: u64) -> (r: Vec<Position>)
        requires
            small(*self),
            radius < COORD_LIMIT,
        ensures
            r@.len() == 4 * (radius + 1),
            forall|i: int| 0 <= i < r@.len() ==> #[trigger] r@[i] == border_point(*self, radius as int, i),
    {
        let n = (radius + 1) as i64;
        let mut border: Vec<Position> = Vec::new();
        let mut q: i64 = 0;
        while q < 4
            invariant
                small(*self),
                n == radius + 1,
                0 < n <= COORD_LIMIT,
                0 <= q <= 4,
                border@.len() == q * n,
                forall|i: int| 0 <= i < border@.len() ==> #[trigger] border@[i] == border_point(*self, radius as int, i),
            decreases 4 - q,
        {
            let mut k: i64 = 1;
            while k <= n
                invariant
                    small(*self),
                    n == radius + 1,
                    0 < n <= COORD_LIMIT,
                    0 <= q < 4,
                    1 <= k <= n + 1,
                    border@.len() == q * n + k - 1,
                    forall|i: int| 0 <= i < border@.len() ==> #[trigger] border@[i] == border_point(*self, radius as int, i),
                decreases n + 1 - k,
            {
                let p = if q == 0 {
                    Position(self.0 + k, self.1 - n + k)
                } else if q == 1 {
                    Position(self.0 + n - k, self.1 + k)
                } else if q == 2 {
                    Position(self.0 - k, self.1 + n - k)
                } else {
                    Position(self.0 - n + k, self.1 - k)
                };
                proof {
                    let ii: int = q * n + k - 1;
                    let nn: int = n as int;
                    let qq: int = q as int;
                    let kk: int = k as int;
                    vstd::arithmetic::div_mod::lemma_fundamental_div_mod_converse(ii, nn, qq, kk - 1);
                    assert(ii / nn == qq && ii % nn + 1 == kk);
                }
                border.push(p);
                k = k + 1;
            }
            proof {
                assert(q * n + n == (q + 1) * n) by (nonlinear_arith);
            }
            q = q + 1;
        }
        border
    }
}

/// Sensors with the distance to their nearest beacon, and a column range to scan.
#[derive(Debug, Clone)]
pub struct SensorMap {
    sensors: Vec<(Position, u64)>,
    x_min: i64,
    x_max: i64,
}

impl SensorMap {
    pub closed spec fn sensors_spec(&self) -> Seq<(Position, u64)> {
        self.sensors@
    }

    pub closed spec fn limits(&self) -> (i64, i64) {
        (self.x_min, self.x_max)
    }

    pub closed spec fn wf(&self) -> bool {
        &&& forall|k: int|
            0 <= k < self.sensors@.len() ==> small(#[trigger] self.sensors@[k].0)
                && self.sensors@[k].1 < COORD_LIMIT
        &&& -4 * COORD_LIMIT <= self.x_min <= self.x_max <= 4 * COORD_LIMIT
    }

    /// No sensor reaches `p`.
    pub open spec fn unseen(&self, p: Position) -> bool {
        forall|k: int|
            0 <= k < self.sensors_spec().len() ==> distance(p, (#[trigger] self.sensors_spec()[k]).0)
                > self.sensors_spec()[k].1
    }

    /// Builds the map from `(sensor, nearest beacon)` readings. The scanned
    /// range runs from the least `y - radius` to the greatest `y + radius` over
    /// the sensors, widened to include 0.
    pub fn new(readings: &Vec<(Position, Position)>) -> (r: SensorMap)
        requires
            forall|k: int| 0 <= k < readings@.len() ==> small((#[trigger] readings@[k]).0) && small(readings@[k].1),
            forall|k: int| 0 <= k < readings@.len() ==> distance((#[trigger] readings@[k]).0, readings@[k].1) < COORD_LIMIT,
        ensures
            r.wf(),
            r.sensors_spec().len() == readings@.len(),
            forall|k: int|
                0 <= k < readings@.len() ==> (#[trigger] r.sensors_spec()[k]).0 == readings@[k].0
                    && r.sensors_spec()[k].1 == distance(readings@[k].0, readings@[k].1),
    {
        let mut sensors: Vec<(Position, u64)> = Vec::new();
        let mut lo: i64 = 0;
        let mut hi: i64 = 0;
        let mut k: usize = 0;
        while k < readings.len()
            invariant
                0 <= k <= readings@.len(),
                forall|m: int| 0 <= m < readings@.len() ==> small((#[trigger] readings@[m]).0) && small(readings@[m].1),
                forall|m: int| 0 <= m < readings@.len() ==> distance((#[trigger] readings@[m]).0, readings@[m].1) < COORD_LIMIT,
                sensors@.len() == k,
                forall|m: int|
                    0 <= m < k ==> (#[trigger] sensors@[m]).0 == readings@[m].0 && sensors@[m].1
                        == distance(readings@[m].0, readings@[m].1),
                -4 * COORD_LIMIT <= lo <= 0 <= hi <= 4 * COORD_LIMIT,
            decreases readings@.len() - k,
        {
            let (s, b) = readings[k];
            let d = s.get_block_distance(&b);
            if s.1 - (d as i64) < lo {
                lo = s.1 - d as i64;
            }
            if s.1 + (d as i64) > hi {
                hi = s.1 + d as i64;
            }
            sensors.push((s, d));
            k = k + 1;
        }
        SensorMap { sensors, x_min: lo, x_max: hi }
    }

    /// Whether no sensor reaches `pos`.
    pub fn can_contain_beacon(&self, pos: &Position) -> (r: bool)
        requires
            self.wf(),
            near(*pos),
        ensures
            r == self.unseen(*pos),
    {
        let mut k: usize = 0;
        while k < self.sensors.len()
            invariant
                self.wf(),
                near(*pos),
                0 <= k <= self.sensors@.len(),
                forall|m: int|
                    0 <= m < k ==> distance(*pos, (#[trigger] self.sensors@[m]).0) > self.sensors@[m].1,
            decreases self.sensors@.len() - k,
        {
            let (s, radius) = self.sensors[k];
            proof {
                assert(small(self.sensors@[k as int].0));
            }
            if pos.get_block_distance(&s) <= radius {
                proof {
                    assert(self.sensors_spec()[k as int] == self.sensors@[k as int]);
                }
                return false;
            }
            k = k + 1;
        }
        true
    }

    /// The first position, sensor by sensor and in ring order around each,
    /// just outside a sensor's reach, inside the search area and reached by no
    /// sensor.
    pub fn find_free_space(&self) -> (r: Option<Position>)
        requires
            self.wf(),
        ensures
            r matches Some(p) ==> 0 < p.0 <= SEARCH_LIMIT && 0 < p.1 <= SEARCH_LIMIT && self.unseen(p)
                && exists|k: int, i: int|
                0 <= k < self.sensors_spec().len() && 0 <= i < 4 * (self.sensors_spec()[k].1 + 1)
                    && p == #[trigger] border_point(
                    self.sensors_spec()[k].0,
                    self.sensors_spec()[k].1 as int,
                    i,
                ),
            r is None ==> forall|k: int, i: int|
                0 <= k < self.sensors_spec().len() && 0 <= i < 4 * (self.sensors_spec()[k].1 + 1)
                    ==> {
                    let p = #[trigger] border_point(
                        self.sensors_spec()[k].0,
                        self.sensors_spec()[k].1 as int,
                        i,
                    );
                    !(0 < p.0 <= SEARCH_LIMIT && 0 < p.1 <= SEARCH_LIMIT && self.unseen(p))
                },
    {
        let mut k: usize = 0;
        while k < self.sensors.len()
            invariant
                self.wf(),
                0 <= k <= self.sensors@.len(),
                forall|m: int, i: int|
                    0 <= m < k && 0 <= i < 4 * (self.sensors@[m].1 + 1) ==> {
                        let p = #[trigger] border_point(self.sensors@[m].0, self.sensors@[m].1 as int, i);
                        !(0 < p.0 <= SEARCH_LIMIT && 0 < p.1 <= SEARCH_LIMIT && self.unseen(p))
                    },
            decreases self.sensors@.len() - k,
        {
            let (s, radius) = self.sensors[k];
            proof {
                assert(small(self.sensors@[k as int].0));
            }
            let border = s.get_border_positions(radius);
            let mut i: usize = 0;
            while i < border.len()
                invariant
                    self.wf(),
                    0 <= k < self.sensors@.len(),
                    s == self.sensors@[k as int].0,
                    radius == self.sensors@[k as int].1,
                    border@.len() == 4 * (radius + 1),
                    forall|j: int| 0 <= j < border@.len() ==> #[trigger] border@[j] == border_point(s, radius as int, j),
                    0 <= i <= border@.len(),
                    forall|m: int, j: int|
                        0 <= m < k && 0 <= j < 4 * (self.sensors@[m].1 + 1) ==> {
                            let p = #[trigger] border_point(self.sensors@[m].0, self.sensors@[m].1 as int, j);
                            !(0 < p.0 <= SEARCH_LIMIT && 0 < p.1 <= SEARCH_LIMIT && self.unseen(p))
                        },
                    forall|j: int|
                        0 <= j < i ==> {
                            let p = #[trigger] border@[j];
                            !(0 < p.0 <= SEARCH_LIMIT && 0 < p.1 <= SEARCH_LIMIT && self.unseen(p))
                        },
                decreases border@.len() - i,
            {
                let p = border[i];
                if p.0 > 0 && p.1 > 0 && p.0 <= SEARCH_LIMIT && p.1 <= SEARCH_LIMIT
                    && self.can_contain_beacon(&p) {
                    return Some(p);
                }
                i = i + 1;
            }
            proof {
                assert forall|m: int, j: int|
                    0 <= m < k + 1 && 0 <= j < 4 * (self.sensors@[m].1 + 1) implies {
                        let p = #[trigger] border_point(self.sensors@[m].0, self.sensors@[m].1 as int, j);
                        !(0 < p.0 <= SEARCH_LIMIT && 0 < p.1 <= SEARCH_LIMIT && self.unseen(p))
                    } by {
                    if m == k {
                        assert(border@[j] == border_point(s, radius as int, j));
                    }
                }
            }
            k = k + 1;
        }
        None
    }

    /// How many positions of row `y`, over the scanned column range, some
    /// sensor reaches, less one (the beacon that lies on that row); 0 when none.
    pub fn check_line(&self, y: i64) -> (r: u64)
        requires
            self.wf(),
            -COORD_LIMIT <= y <= COORD_LIMIT,
        ensures
            r == if covered(self, y, self.limits().0 as int, self.limits().1 as int) == 0 {
                0
            } else {
                covered(self, y, self.limits().0 as int, self.limits().1 as int) - 1
            },
    {
        let mut c: u64 = 0;
        let mut x: i64 = self.x_min;
        while x < self.x_max
            invariant
                self.wf(),
                -COORD_LIMIT <= y <= COORD_LIMIT,
                self.x_min <= x <= self.x_max,
                c == covered(self, y, self.x_min as int, x as int),
                c <= x - self.x_min,
            decreases self.x_max - x,
        {
            let pos = Position(x, y);
            if !self.can_contain_beacon(&pos) {
                c = c + 1;
            }
            x = x + 1;
        }
        if c == 0 {
            0
        } else {
            c - 1
        }
    }
}

/// How many positions `(x, y)` with `lo <= x < hi` some sensor reaches.
pub open spec fn covered(m: &SensorMap, y: i64, lo: int, hi: int) -> int
    decreases hi - lo,
{
    if hi <= lo {
        0
    } else {
        covered(m, y, lo, hi - 1) + if m.unseen(Position((hi - 1) as i64, y)) {
            0int
        } else {
            1int
        }
    }
}

} // verus!
