//! Monkeys passing items and the worry that each item causes.
//!
//! On its turn a monkey inspects each item it holds: the worry level goes
//! through the monkey's operation (and is divided by three when relief is
//! enabled), and the item is thrown to one of two monkeys depending on
//! whether the new level is divisible by the monkey's test number. Levels are
//! kept small by reducing them modulo the product of all test numbers.
use vstd::prelude::*;

verus! {

/// Worry levels, operands and the common modulus stay below this bound.
pub const WORRY_LIMIT: u64 = 0x1_0000_0000;

/// An item with its worry level.
#[derive(Debug, Clone, Copy, PartialEq, Eq, PartialOrd, Ord, Structural)]
pub struct Item {
    pub worry_level: u64,
}

/// How inspecting an item changes its worry level.
#[derive(Debug, Clone, Copy, PartialEq, Eq, Structural)]
pub enum Operation {
    Square,
    Add(u64),
    Multiply(u64),
}

/// Where an inspected item goes.
#[derive(Debug, Clone, Copy, PartialEq, Eq, Structural)]
pub struct Decision {
    pub divisible_by: u64,
    pub true_monkey: usize,
    pub false_monkey: usize,
}

/// An item on its way to monkey `destination`.
#[derive(Debug, Clone, Copy, PartialEq, Eq, Structural)]
pub struct Throw {
    pub item: Item,
    pub destination: usize,
}

pub open spec fn apply(op: Operation, v: int) -> int {
    match op {
        Operation::Square => v * v,
        Operation::Add(x) => v + x,
        Operation::Multiply(x) => v * x,
    }
}

pub open spec fn op_small(op: Operation) -> bool {
    match op {
        Operation::Square => true,
        Operation::Add(x) => x < WORRY_LIMIT,
        Operation::Multiply(x) => x < WORRY_LIMIT,
    }
}

/// The worry level after inspection, with or without relief.
pub open spec fn inspected(op: Operation, relieve: bool, v: int) -> int {
    if relieve {
        apply(op, v) / 3
    } else {
        apply(op, v)
    }
}

pub open spec fn destination(d: Decision, w: int) -> int {
    if w % (d.divisible_by as int) == 0 {
        d.true_monkey as int
    } else {
        d.false_monkey as int
    }
}

proof fn lemma_apply_fits(op: Operation, v: int)
    requires
        op_small(op),
        0 <= v < WORRY_LIMIT,
    ensures
        0 <= apply(op, v) <= u64::MAX,
{
    match op {
        Operation::Square => {
            assert(v * v <= (WORRY_LIMIT - 1) * (WORRY_LIMIT - 1)) by (nonlinear_arith)
                requires
                    0 <= v < WORRY_LIMIT,
            ;
            assert(0 <= v * v) by (nonlinear_arith)
                requires
                    0 <= v,
            ;
        },
        Operation::Add(x) => {},
        Operation::Multiply(x) => {
            assert(v * x <= (WORRY_LIMIT - 1) * (WORRY_LIMIT - 1)) by (nonlinear_arith)
                requires
                    0 <= v < WORRY_LIMIT,
                    0 <= x < WORRY_LIMIT,
            ;
            assert(0 <= v * x) by (nonlinear_arith)
                requires
                    0 <= v,
                    0 <= x,
            ;
        },
    }
}

impl Operation {
    /// The new worry level for `value`.
    pub fn execute(&self, value: u64) -> (r: u64)
        requires
            op_small(*self),
            value < WORRY_LIMIT,
        ensures
            r == apply(*self, value as int),
    {
        proof {
            lemma_apply_fits(*self, value as int);
        }
        match self {
            Operation::Square => value * value,
            Operation::Add(x) => value + *x,
            Operation::Multiply(x) => value * *x,
        }
    }
}

impl Decision {
    /// The monkey that receives `item`.
    pub fn decide(&self, item: &Item) -> (r: usize)
        requires
            self.divisible_by > 0,
        ensures
            r == destination(*self, item.worry_level as int),
    {
        if item.worry_level % self.divisible_by == 0 {
            self.true_monkey
        } else {
            self.false_monkey
        }
    }
}

/// A monkey as plain values.
pub struct MonkeyModel {
    pub items: Seq<u64>,
    pub operation: Operation,
    pub decision: Decision,
    pub count: int,
}

/// One monkey: the items it holds, how it inspects and throws, and how many
/// items it has inspected.
#[derive(Debug, Clone)]
pub struct Monkey {
    pub items: Vec<Item>,
    pub operation: Operation,
    pub decision: Decision,
    pub inspection_count: u64,
}

pub open spec fn worries(items: Seq<Item>) -> Seq<u64> {
    items.map_values(|i: Item| i.worry_level)
}

/// The throws a monkey makes on its turn, as `(worry, destination)` pairs.
pub open spec fn throws_of(m: MonkeyModel, relieve: bool) -> Seq<(int, int)> {
    Seq::new(
        m.items.len(),
        |k: int|
            (
                inspected(m.operation, relieve, m.items[k] as int),
                destination(m.decision, inspected(m.operation, relieve, m.items[k] as int)),
            ),
    )
}

impl Monkey {
    pub open spec fn model(&self) -> MonkeyModel {
        MonkeyModel {
            items: worries(self.items@),
            operation: self.operation,
            decision: self.decision,
            count: self.inspection_count as int,
        }
    }

    /// Every item can be inspected without overflow.
    pub open spec fn can_inspect(&self) -> bool {
        &&& op_small(self.operation)
        &&& forall|k: int| 0 <= k < self.items@.len() ==> (#[trigger] self.items@[k]).worry_level < WORRY_LIMIT
        &&& self.inspection_count + self.items@.len() <= u64::MAX
    }

    /// Inspects every item: counts it and updates its worry level.
    pub fn inspect_items(&mut self, relieve_enabled: bool)
        requires
            old(self).can_inspect(),
        ensures
            final(self).operation == old(self).operation,
            final(self).decision == old(self).decision,
            final(self).inspection_count == old(self).inspection_count + old(self).items@.len(),
            final(self).items@.len() == old(self).items@.len(),
            forall|k: int|
                0 <= k < old(self).items@.len() ==> (#[trigger] final(self).items@[k]).worry_level
                    == inspected(old(self).operation, relieve_enabled, old(self).items@[k].worry_level as int),
    {
        let n = self.items.len();
        let mut k: usize = 0;
        while k < n
            invariant
                n == self.items@.len(),
                n == old(self).items@.len(),
                0 <= k <= n,
                self.operation == old(self).operation,
                self.decision == old(self).decision,
                op_small(self.operation),
                self.inspection_count == old(self).inspection_count + k,
                old(self).inspection_count + n <= u64::MAX,
                forall|j: int| k <= j < n ==> self.items@[j] == old(self).items@[j],
                forall|j: int| 0 <= j < n ==> (#[trigger] old(self).items@[j]).worry_level < WORRY_LIMIT,
                forall|j: int|
                    0 <= j < k ==> (#[trigger] self.items@[j]).worry_level == inspected(
                        old(self).operation,
                        relieve_enabled,
                        old(self).items@[j].worry_level as int,
                    ),
            decreases n - k,
        {
            self.inspection_count = self.inspection_count + 1;
            let mut w = self.operation.execute(self.items[k].worry_level);
            if relieve_enabled {
                w = w / 3;
            }
            self.items.set(k, Item { worry_level: w });
            k = k + 1;
        }
    }

    /// Inspects every item and throws them all; the monkey ends empty-handed.
    pub fn take_turn(&mut self, relieve_enabled: bool) -> (r: Vec<Throw>)
        requires
            old(self).can_inspect(),
            old(self).decision.divisible_by > 0,
        ensures
            final(self).operation == old(self).operation,
            final(self).decision == old(self).decision,
            final(self).inspection_count == old(self).inspection_count + old(self).items@.len(),
            final(self).items@.len() == 0,
            r@.len() == old(self).items@.len(),
            forall|k: int|
                0 <= k < r@.len() ==> ((#[trigger] r@[k]).item.worry_level as int, r@[k].destination as int)
                    == throws_of(old(self).model(), relieve_enabled)[k],
    {
        self.inspect_items(relieve_enabled);
        let mut throws: Vec<Throw> = Vec::new();
        let mut k: usize = 0;
        while k < self.items.len()
            invariant
                0 <= k <= self.items@.len(),
                self.items@.len() == old(self).items@.len(),
                self.decision == old(self).decision,
                self.decision.divisible_by > 0,
                throws@.len() == k,
                forall|j: int|
                    0 <= j < old(self).items@.len() ==> (#[trigger] self.items@[j]).worry_level
                        == inspected(old(self).operation, relieve_enabled, old(self).items@[j].worry_level as int),
                forall|j: int|
                    0 <= j < k ==> ((#[trigger] throws@[j]).item.worry_level as int, throws@[j].destination as int)
                        == throws_of(old(self).model(), relieve_enabled)[j],
            decreases self.items@.len() - k,
        {
            let item = self.items[k];
            throws.push(Throw { destination: self.decision.decide(&item), item });
            k = k + 1;
        }
        self.items.clear();
        throws
    }
}

pub open spec fn models(ms: Seq<Monkey>) -> Seq<MonkeyModel> {
    ms.map_values(|m: Monkey| m.model())
}

/// Items held by all monkeys together.
pub open spec fn total_items(ms: Seq<MonkeyModel>) -> int
    decreases ms.len(),
{
    if ms.len() == 0 {
        0
    } else {
        total_items(ms.drop_last()) + ms.last().items.len()
    }
}

proof fn lemma_total_update(ms: Seq<MonkeyModel>, i: int, m: MonkeyModel)
    requires
        0 <= i < ms.len(),
    ensures
        total_items(ms.update(i, m)) == total_items(ms) - ms[i].items.len() + m.items.len(),
        total_items(ms) >= ms[i].items.len(),
    decreases ms.len(),
{
    let t = ms.update(i, m);
    if i == ms.len() - 1 {
        assert(t.drop_last() =~= ms.drop_last());
    } else {
        assert(t.drop_last() =~= ms.drop_last().update(i, m));
        lemma_total_update(ms.drop_last(), i, m);
    }
    lemma_total_nonneg(ms.drop_last());
}

proof fn lemma_total_nonneg(ms: Seq<MonkeyModel>)
    ensures
        total_items(ms) >= 0,
    decreases ms.len(),
{
    if ms.len() > 0 {
        lemma_total_nonneg(ms.drop_last());
    }
}

/// Monkey `m` after catching an item of worry `w`.
pub open spec fn receive(m: MonkeyModel, w: u64) -> MonkeyModel {
    MonkeyModel { items: m.items.push(w), ..m }
}

/// The monkeys after the throws `ts` land, in order, each level reduced
/// modulo `common`.
pub open spec fn deliver(ms: Seq<MonkeyModel>, ts: Seq<(int, int)>, common: int) -> Seq<MonkeyModel>
    decreases ts.len(),
{
    if ts.len() == 0 {
        ms
    } else {
        let prev = deliver(ms, ts.drop_last(), common);
        let t = ts.last();
        prev.update(t.1, receive(prev[t.1], (t.0 % common) as u64))
    }
}

/// Monkey `m` after its turn: nothing in hand, every item counted.
pub open spec fn emptied(m: MonkeyModel) -> MonkeyModel {
    MonkeyModel { items: Seq::empty(), count: m.count + m.items.len(), ..m }
}

/// The monkeys after monkey `i` takes its turn.
pub open spec fn turn(ms: Seq<MonkeyModel>, i: int, common: int, relieve: bool) -> Seq<MonkeyModel> {
    deliver(ms.update(i, emptied(ms[i])), throws_of(ms[i], relieve), common)
}

/// The monkeys after monkeys `0..n` take their turns in order.
pub open spec fn turns(ms: Seq<MonkeyModel>, n: int, common: int, relieve: bool) -> Seq<MonkeyModel>
    decreases n,
{
    if n <= 0 {
        ms
    } else {
        turn(turns(ms, n - 1, common, relieve), n - 1, common, relieve)
    }
}

/// Every monkey can take its turn without overflow, and throws only to monkeys
/// of the troop.
pub open spec fn troop_ok(ms: Seq<MonkeyModel>, common: int) -> bool {
    &&& 0 < common <= WORRY_LIMIT
    &&& forall|i: int|
        0 <= i < ms.len() ==> {
            let m = #[trigger] ms[i];
            &&& op_small(m.operation)
            &&& m.decision.divisible_by > 0
            &&& m.decision.true_monkey < ms.len()
            &&& m.decision.false_monkey < ms.len()
            &&& forall|k: int| 0 <= k < m.items.len() ==> #[trigger] m.items[k] < WORRY_LIMIT
        }
}

/// `k` is the left-out index.
pub open spec fn skipped(skip: Option<usize>, k: int) -> bool {
    skip matches Some(s) && s == k
}

/// The product of all test numbers.
pub open spec fn divisor_product(ms: Seq<MonkeyModel>) -> int
    decreases ms.len(),
{
    if ms.len() == 0 {
        1
    } else {
        divisor_product(ms.drop_last()) * ms.last().decision.divisible_by
    }
}

/// All monkeys together, and the modulus that keeps worry levels small.
#[derive(Debug, Clone)]
pub struct MonkeyTroop {
    monkeys: Vec<Monkey>,
    common: u64,
}

impl MonkeyTroop {
    pub closed spec fn monkeys_spec(&self) -> Seq<MonkeyModel> {
        models(self.monkeys@)
    }

    pub closed spec fn common_spec(&self) -> int {
        self.common as int
    }

    /// The troop of `monkeys`, with the product of their test numbers as the
    /// modulus; `None` when that product exceeds the worry bound or a monkey
    /// could overflow or throw outside the troop.
    pub fn new(monkeys: Vec<Monkey>) -> (r: Option<MonkeyTroop>)
        ensures
            r is Some <==> (divisor_product(models(monkeys@)) <= WORRY_LIMIT && troop_ok(
                models(monkeys@),
                divisor_product(models(monkeys@)),
            )),
            r matches Some(t) ==> t.monkeys_spec() == models(monkeys@) && t.common_spec()
                == divisor_product(models(monkeys@)),
    {
        let ghost ms = models(monkeys@);
        let n = monkeys.len();
        let mut common: u64 = 1;
        let mut i: usize = 0;
        while i < n
            invariant
                n == monkeys@.len(),
                ms == models(monkeys@),
                0 <= i <= n,
                common == divisor_product(ms.subrange(0, i as int)),
                1 <= common <= WORRY_LIMIT,
                forall|j: int| 0 <= j < i ==> (#[trigger] monkeys@[j]).decision.divisible_by > 0,
            decreases n - i,
        {
            let d = monkeys[i].decision.divisible_by;
            proof {
                assert(ms.subrange(0, i + 1).drop_last() =~= ms.subrange(0, i as int));
                lemma_product_prefix(ms, i as int);
            }
            if d == 0 || d > WORRY_LIMIT / common {
                proof {
                    if d > 0 {
                        assert(common * d > WORRY_LIMIT) by (nonlinear_arith)
                            requires
                                d > WORRY_LIMIT / common,
                                common >= 1,
                        ;
                        lemma_product_grows(ms, i as int + 1);
                    } else {
                        assert(ms[i as int].decision.divisible_by == 0);
                    }
                }
                return None;
            }
            proof {
                assert(common * d <= WORRY_LIMIT) by (nonlinear_arith)
                    requires
                        d <= WORRY_LIMIT / common,
                        common >= 1,
                ;
                assert(common * d >= 1) by (nonlinear_arith)
                    requires
                        d >= 1,
                        common >= 1,
                ;
            }
            common = common * d;
            i = i + 1;
        }
        proof {
            assert(ms.subrange(0, n as int) =~= ms);
        }
        let mut i: usize = 0;
        while i < n
            invariant
                n == monkeys@.len(),
                ms == models(monkeys@),
                0 <= i <= n,
                forall|j: int| 0 <= j < n ==> (#[trigger] monkeys@[j]).decision.divisible_by > 0,
                forall|j: int|
                    0 <= j < i ==> {
                        let m = #[trigger] ms[j];
                        &&& op_small(m.operation)
                        &&& m.decision.divisible_by > 0
                        &&& m.decision.true_monkey < ms.len()
                        &&& m.decision.false_monkey < ms.len()
                        &&& forall|k: int| 0 <= k < m.items.len() ==> #[trigger] m.items[k] < WORRY_LIMIT
                    },
            decreases n - i,
        {
            let m = &monkeys[i];
            let ok_op = match m.operation {
                Operation::Square => true,
                Operation::Add(x) => x < WORRY_LIMIT,
                Operation::Multiply(x) => x < WORRY_LIMIT,
            };
            if !ok_op || m.decision.true_monkey >= n || m.decision.false_monkey >= n {
                proof {
                    assert(ms[i as int] == m.model());
                }
                return None;
            }
            let mut k: usize = 0;
            while k < m.items.len()
                invariant
                    n == monkeys@.len(),
                    0 <= i < n,
                    *m == monkeys@[i as int],
                    ms == models(monkeys@),
                    0 <= k <= m.items@.len(),
                    forall|j: int| 0 <= j < k ==> (#[trigger] m.items@[j]).worry_level < WORRY_LIMIT,
                decreases m.items@.len() - k,
            {
                if m.items[k].worry_level >= WORRY_LIMIT {
                    proof {
                        assert(ms[i as int] == m.model());
                        assert(ms[i as int].items[k as int] == m.items@[k as int].worry_level);
                    }
                    return None;
                }
                k = k + 1;
            }
            proof {
                let mm = ms[i as int];
                assert(mm == m.model());
                assert forall|j: int| 0 <= j < mm.items.len() implies #[trigger] mm.items[j] < WORRY_LIMIT by {
                    assert(mm.items[j] == m.items@[j].worry_level);
                }
            }
            i = i + 1;
        }
        Some(MonkeyTroop { monkeys, common })
    }

    /// How many items each monkey has inspected.
    pub fn inspection_counts(&self) -> (r: Vec<u64>)
        ensures
            r@.len() == self.monkeys_spec().len(),
            forall|i: int| 0 <= i < r@.len() ==> r@[i] == (#[trigger] self.monkeys_spec()[i]).count,
    {
        let mut out: Vec<u64> = Vec::new();
        let mut i: usize = 0;
        while i < self.monkeys.len()
            invariant
                0 <= i <= self.monkeys@.len(),
                out@.len() == i,
                forall|j: int| 0 <= j < i ==> out@[j] == (#[trigger] self.monkeys@[j]).inspection_count,
            decreases self.monkeys@.len() - i,
        {
            out.push(self.monkeys[i].inspection_count);
            i = i + 1;
        }
        proof {
            assert forall|j: int| 0 <= j < out@.len() implies out@[j] == (#[trigger] self.monkeys_spec()[j]).count by {
                assert(self.monkeys_spec()[j] == self.monkeys@[j].model());
            }
        }
        out
    }

    /// The index of a monkey with the most inspections, leaving out `skip`.
    fn busiest_except(&self, skip: Option<usize>) -> (r: Option<usize>)
        ensures
            r matches Some(i) ==> i < self.monkeys_spec().len() && skip != Some(i) && forall|k: int|
                0 <= k < self.monkeys_spec().len() && !skipped(skip, k) ==> (
                #[trigger] self.monkeys_spec()[k]).count <= self.monkeys_spec()[i as int].count,
            r is None ==> forall|k: int|
                0 <= k < self.monkeys_spec().len() ==> #[trigger] skipped(skip, k),
    {
        let mut best: Option<usize> = None;
        let mut k: usize = 0;
        while k < self.monkeys.len()
            invariant
                0 <= k <= self.monkeys@.len(),
                best matches Some(i) ==> i < k && skip != Some(i) && forall|j: int|
                    0 <= j < k && !skipped(skip, j) ==> (
                    #[trigger] self.monkeys@[j]).inspection_count <= self.monkeys@[i as int].inspection_count,
                best is None ==> forall|j: int| 0 <= j < k ==> #[trigger] skipped(skip, j),
            decreases self.monkeys@.len() - k,
        {
            let skipped = match skip {
                Some(s) => s == k,
                None => false,
            };
            if !skipped {
                match best {
                    Some(b) => {
                        if self.monkeys[k].inspection_count > self.monkeys[b].inspection_count {
                            best = Some(k);
                        }
                    },
                    None => {
                        best = Some(k);
                    },
                }
            }
            k = k + 1;
        }
        proof {
            assert forall|j: int| 0 <= j < self.monkeys@.len() implies self.monkeys_spec()[j] == self.monkeys@[j].model() by {}
        }
        best
    }

    /// The product of the two largest inspection counts (of two different
    /// monkeys); `None` with fewer than two monkeys.
    pub fn monkey_business(&self) -> (r: Option<u128>)
        ensures
            r matches Some(p) ==> exists|a: int, b: int|
                0 <= a < self.monkeys_spec().len() && 0 <= b < self.monkeys_spec().len() && a != b
                    && p == self.monkeys_spec()[a].count * self.monkeys_spec()[b].count
                    && self.monkeys_spec()[b].count <= self.monkeys_spec()[a].count && forall|k: int|
                    0 <= k < self.monkeys_spec().len() && k != a ==> (
                    #[trigger] self.monkeys_spec()[k]).count <= self.monkeys_spec()[b].count,
            r is None <==> self.monkeys_spec().len() < 2,
    {
        let a = match self.busiest_except(None) {
            Some(i) => i,
            None => {
                proof {
                    if self.monkeys_spec().len() > 0 {
                        assert(!skipped(None, 0));
                    }
                }
                return None;
            },
        };
        let b = match self.busiest_except(Some(a)) {
            Some(i) => i,
            None => {
                proof {
                    if self.monkeys_spec().len() >= 2 {
                        let other: int = if a == 0 { 1 } else { 0 };
                        assert(!skipped(Some(a), other));
                    }
                }
                return None;
            },
        };
        let x = self.monkeys[a].inspection_count as u128;
        let y = self.monkeys[b].inspection_count as u128;
        proof {
            assert(self.monkeys_spec()[a as int] == self.monkeys@[a as int].model());
            assert(self.monkeys_spec()[b as int] == self.monkeys@[b as int].model());
            assert(x * y <= 0xffff_ffff_ffff_ffff * 0xffff_ffff_ffff_ffff) by (nonlinear_arith)
                requires
                    x <= 0xffff_ffff_ffff_ffff,
                    y <= 0xffff_ffff_ffff_ffff,
            ;
            assert forall|k: int| 0 <= k < self.monkeys_spec().len() && k != a implies (
                #[trigger] self.monkeys_spec()[k]).count <= self.monkeys_spec()[b as int].count by {
                assert(!skipped(Some(a), k));
            }
        }
        Some(x * y)
    }

    /// A monkey that holds nothing, to stand in while another is taken out.
    fn placeholder() -> (r: Monkey)
        ensures
            r.items@.len() == 0,
    {
        Monkey {
            items: Vec::new(),
            operation: Operation::Square,
            decision: Decision { divisible_by: 1, true_monkey: 0, false_monkey: 0 },
            inspection_count: 0,
        }
    }

    /// Every monkey in turn inspects and throws all its items; each thrown
    /// level is reduced modulo the common modulus.
    pub fn round(&mut self, relieve_enabled: bool)
        requires
            troop_ok(old(self).monkeys_spec(), old(self).common_spec()),
            forall|i: int|
                0 <= i < old(self).monkeys_spec().len() ==> (#[trigger] old(self).monkeys_spec()[i]).count
                    + total_items(old(self).monkeys_spec()) <= u64::MAX,
        ensures
            final(self).common_spec() == old(self).common_spec(),
            final(self).monkeys_spec() == turns(
                old(self).monkeys_spec(),
                old(self).monkeys_spec().len() as int,
                old(self).common_spec(),
                relieve_enabled,
            ),
            troop_ok(final(self).monkeys_spec(), final(self).common_spec()),
            total_items(final(self).monkeys_spec()) == total_items(old(self).monkeys_spec()),
    {
        let ghost ms0 = models(self.monkeys@);
        let ghost total = total_items(ms0);
        let n = self.monkeys.len();
        let mut i: usize = 0;
        while i < n
            invariant
                n == self.monkeys@.len(),
                n == ms0.len(),
                0 <= i <= n,
                self.common == old(self).common,
                ms0 == old(self).monkeys_spec(),
                total == total_items(ms0),
                forall|j: int| 0 <= j < n ==> (#[trigger] ms0[j]).count + total <= u64::MAX,
                models(self.monkeys@) == turns(ms0, i as int, self.common as int, relieve_enabled),
                troop_ok(models(self.monkeys@), self.common as int),
                total_items(models(self.monkeys@)) == total,
                forall|j: int| i <= j < n ==> (#[trigger] models(self.monkeys@)[j]).count == ms0[j].count,
            decreases n - i,
        {
            let ghost before = models(self.monkeys@);
            let mut m = Self::placeholder();
            self.monkeys.set_and_swap(i, &mut m);
            proof {
                assert(m.model() == before[i as int]);
                assert(troop_ok(before, self.common as int));
                let bm = before[i as int];
                lemma_total_update(before, i as int, emptied(bm));
                assert forall|k: int| 0 <= k < m.items@.len() implies (#[trigger] m.items@[k]).worry_level
                    < WORRY_LIMIT by {
                    assert(bm.items[k] == m.items@[k].worry_level);
                }
            }
            let throws = m.take_turn(relieve_enabled);
            proof {
                assert(worries(m.items@) =~= Seq::<u64>::empty());
                assert(m.model() == emptied(before[i as int]));
            }
            self.monkeys.set_and_swap(i, &mut m);
            let ghost mid = before.update(i as int, emptied(before[i as int]));
            let ghost ts = throws_of(before[i as int], relieve_enabled);
            proof {
                assert(models(self.monkeys@) =~= mid);
                assert(deliver(mid, ts.take(0), self.common as int) == mid);
            }
            let mut j: usize = 0;
            while j < throws.len()
                invariant
                    n == self.monkeys@.len(),
                    n == before.len(),
                    0 <= i < n,
                    0 <= j <= throws@.len(),
                    throws@.len() == ts.len(),
                    self.common == old(self).common,
                    0 < self.common <= WORRY_LIMIT,
                    forall|k: int|
                        0 <= k < throws@.len() ==> ((#[trigger] throws@[k]).item.worry_level as int, throws@[k].destination as int)
                            == ts[k],
                    forall|k: int| 0 <= k < throws@.len() ==> (#[trigger] throws@[k]).destination < n,
                    models(self.monkeys@) == deliver(mid, ts.take(j as int), self.common as int),
                    troop_ok(models(self.monkeys@), self.common as int),
                    total_items(models(self.monkeys@)) == total_items(mid) + j,
                    forall|k: int| 0 <= k < n ==> (#[trigger] models(self.monkeys@)[k]).count == mid[k].count,
                decreases throws@.len() - j,
            {
                let t = throws[j];
                let w = t.item.worry_level % self.common;
                let d = t.destination;
                let ghost cur = models(self.monkeys@);
                let mut target = Self::placeholder();
                self.monkeys.set_and_swap(d, &mut target);
                let ghost taken = target;
                target.items.push(Item { worry_level: w });
                proof {
                    assert(taken.model() == cur[d as int]);
                    assert(worries(target.items@) =~= worries(taken.items@).push(w));
                    assert(target.model() == receive(cur[d as int], w));
                }
                self.monkeys.set_and_swap(d, &mut target);
                proof {
                    let nm = receive(cur[d as int], w);
                    assert(models(self.monkeys@) =~= cur.update(d as int, nm));
                    assert(ts.take(j + 1).drop_last() =~= ts.take(j as int));
                    assert(ts.take(j + 1).last() == ts[j as int]);
                    lemma_total_update(cur, d as int, nm);
                    assert forall|k: int| 0 <= k < n implies {
                        let mk = #[trigger] models(self.monkeys@)[k];
                        &&& op_small(mk.operation)
                        &&& mk.decision.divisible_by > 0
                        &&& mk.decision.true_monkey < n
                        &&& mk.decision.false_monkey < n
                        &&& forall|q: int| 0 <= q < mk.items.len() ==> #[trigger] mk.items[q] < WORRY_LIMIT
                    } by {
                        assert(troop_ok(cur, self.common as int));
                        let ck = cur[k];
                        if k == d {
                            assert forall|q: int| 0 <= q < nm.items.len() implies #[trigger] nm.items[q] < WORRY_LIMIT by {
                                if q < ck.items.len() {
                                    assert(nm.items[q] == ck.items[q]);
                                }
                            }
                        }
                    }
                }
                j = j + 1;
            }
            proof {
                assert(ts.take(ts.len() as int) =~= ts);
                assert(total_items(mid) == total - before[i as int].items.len());
            }
            i = i + 1;
        }
    }
}

proof fn lemma_product_prefix(ms: Seq<MonkeyModel>, i: int)
    requires
        0 <= i < ms.len(),
    ensures
        divisor_product(ms.subrange(0, i + 1)) == divisor_product(ms.subrange(0, i)) * ms[i].decision.divisible_by,
{
    assert(ms.subrange(0, i + 1).drop_last() =~= ms.subrange(0, i));
}

/// Once the product of a prefix exceeds the bound, so does the whole product,
/// as long as no test number is zero.
proof fn lemma_product_grows(ms: Seq<MonkeyModel>, n: int)
    requires
        0 < n <= ms.len(),
        divisor_product(ms.subrange(0, n)) > WORRY_LIMIT,
    ensures
        divisor_product(ms) > WORRY_LIMIT || exists|j: int| 0 <= j < ms.len() && (#[trigger] ms[j]).decision.divisible_by == 0,
    decreases ms.len() - n,
{
    if n == ms.len() {
        assert(ms.subrange(0, n) =~= ms);
    } else {
        lemma_product_prefix(ms, n);
        let d = ms[n].decision.divisible_by;
        if d > 0 {
            let p = divisor_product(ms.subrange(0, n));
            assert(p * d >= p) by (nonlinear_arith)
                requires
                    d >= 1,
                    p > 0,
            ;
            lemma_product_grows(ms, n + 1);
        }
    }
}

} // verus!
