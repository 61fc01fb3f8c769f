//! Ordering of nested packet lists.
//!
//! Two integers compare by value; two lists compare element by element, the
//! shorter running out first being in order; an integer against a list is
//! compared as a one-element list.
use vstd::prelude::*;

verus! {

broadcast use vstd::std_specs::vec::group_vec_axioms;

/// The outcome of comparing a left packet with a right one.
#[derive(Debug, Clone, Copy, PartialEq, Eq, Structural)]
pub enum ComparisonResult {
    /// Equal so far: undecided.
    Continue,
    /// The left packet comes first.
    Correct,
    /// The right packet comes first.
    Wrong,
}

/// A packet: an integer or a list of packets.
#[derive(Debug)]
pub enum Item {
    Value(u8),
    List(Vec<Item>),
}

/// Number of nodes of a packet.
pub open spec fn size(i: Item) -> nat
    decreases i,
{
    match i {
        Item::Value(_) => 1,
        Item::List(v) => 1 + size_from(v, 0),
    }
}

/// Number of nodes of the packets `v[k..]`.
pub open spec fn size_from(v: Vec<Item>, k: int) -> nat
    decreases v, v@.len() - k,
{
    if 0 <= k < v@.len() {
        size(v[k]) + size_from(v, k + 1)
    } else {
        0
    }
}

/// Number of nodes of a sequence of packets.
pub open spec fn size_seq(s: Seq<Item>) -> nat
    decreases s.len(),
{
    if s.len() == 0 {
        0
    } else {
        size(s[0]) + size_seq(s.drop_first())
    }
}

proof fn lemma_size_from(v: Vec<Item>, k: int)
    requires
        0 <= k <= v@.len(),
    ensures
        size_from(v, k) == size_seq(v@.subrange(k, v@.len() as int)),
    decreases v@.len() - k,
{
    if k < v@.len() {
        lemma_size_from(v, k + 1);
        assert(v@.subrange(k, v@.len() as int).drop_first() =~= v@.subrange(k + 1, v@.len() as int));
    } else {
        assert(v@.subrange(k, v@.len() as int) =~= Seq::<Item>::empty());
    }
}

proof fn lemma_size_list(v: Vec<Item>)
    ensures
        size(Item::List(v)) == 1 + size_seq(v@),
{
    lemma_size_from(v, 0);
    assert(v@.subrange(0, v@.len() as int) =~= v@);
}

proof fn lemma_size_seq_index(s: Seq<Item>, i: int)
    requires
        0 <= i < s.len(),
    ensures
        size(s[i]) <= size_seq(s),
        size_seq(s.subrange(i, s.len() as int)) == size(s[i]) + size_seq(s.subrange(i + 1, s.len() as int)),
        size_seq(s.subrange(i, s.len() as int)) <= size_seq(s),
    decreases i,
{
    assert(s.subrange(i, s.len() as int).drop_first() =~= s.subrange(i + 1, s.len() as int));
    if i > 0 {
        lemma_size_seq_index(s.drop_first(), i - 1);
        assert(s.drop_first()[i - 1] == s[i]);
        assert(s.drop_first().subrange(i - 1, s.len() - 1) =~= s.subrange(i, s.len() as int));
    } else {
        assert(s.subrange(0, s.len() as int) =~= s);
    }
}

/// How a left packet compares with a right one.
pub open spec fn cmp_items(a: Item, b: Item) -> ComparisonResult
    decreases size(a) + size(b), 0nat,
    via cmp_items_decreases
{
    match (a, b) {
        (Item::Value(x), Item::Value(y)) => if x == y {
            ComparisonResult::Continue
        } else if x < y {
            ComparisonResult::Correct
        } else {
            ComparisonResult::Wrong
        },
        (Item::List(s), Item::List(o)) => cmp_seqs(s@, o@),
        (Item::Value(_), Item::List(o)) => cmp_seqs(seq![a], o@),
        (Item::List(s), Item::Value(_)) => cmp_seqs(s@, seq![b]),
    }
}

/// How a left list compares with a right one, element by element.
pub open spec fn cmp_seqs(s: Seq<Item>, o: Seq<Item>) -> ComparisonResult
    decreases size_seq(s) + size_seq(o), 1nat,
    via cmp_seqs_decreases
{
    if s.len() == 0 && o.len() == 0 {
        ComparisonResult::Continue
    } else if s.len() == 0 {
        ComparisonResult::Correct
    } else if o.len() == 0 {
        ComparisonResult::Wrong
    } else {
        let c = cmp_items(s[0], o[0]);
        if c != ComparisonResult::Continue {
            c
        } else {
            cmp_seqs(s.drop_first(), o.drop_first())
        }
    }
}

#[via_fn]
proof fn cmp_items_decreases(a: Item, b: Item) {
    match a {
        Item::List(s) => lemma_size_list(s),
        _ => {},
    }
    match b {
        Item::List(o) => lemma_size_list(o),
        _ => {},
    }
    assert(size_seq(seq![a].drop_first()) == 0);
    assert(size_seq(seq![b].drop_first()) == 0);
}

#[via_fn]
proof fn cmp_seqs_decreases(s: Seq<Item>, o: Seq<Item>) {
    if s.len() > 0 && o.len() > 0 {
        lemma_size_seq_index(s, 0);
        lemma_size_seq_index(o, 0);
    }
}

impl Item {
    /// How this packet compares with `other`.
    pub fn compare(&self, other: &Self) -> (r: ComparisonResult)
        ensures
            r == cmp_items(*self, *other),
        decreases size(*self) + size(*other), 0nat,
    {
        match self {
            Item::List(s) => match other {
                Item::List(o) => {
                    proof {
                        lemma_size_list(*s);
                        lemma_size_list(*o);
                    }
                    compare_seq(s, o)
                },
                Item::Value(_) => {
                    if s.len() == 0 {
                        return ComparisonResult::Correct;
                    }
                    proof {
                        lemma_size_list(*s);
                        lemma_size_seq_index(s@, 0);
                    }
                    let c = s[0].compare(other);
                    proof {
                        let e = seq![*other].drop_first();
                        assert(e.len() == 0);
                        assert(cmp_items(*self, *other) == cmp_seqs(s@, seq![*other]));
                        assert(seq![*other][0] == *other);
                        assert(cmp_seqs(s@.drop_first(), e) == if s@.drop_first().len() == 0 {
                            ComparisonResult::Continue
                        } else {
                            ComparisonResult::Wrong
                        });
                    }
                    if c != ComparisonResult::Continue {
                        c
                    } else if s.len() > 1 {
                        ComparisonResult::Wrong
                    } else {
                        ComparisonResult::Continue
                    }
                },
            },
            Item::Value(x) => match other {
                Item::Value(y) => {
                    if *x == *y {
                        ComparisonResult::Continue
                    } else if *x < *y {
                        ComparisonResult::Correct
                    } else {
                        ComparisonResult::Wrong
                    }
                },
                Item::List(o) => {
                    if o.len() == 0 {
                        return ComparisonResult::Wrong;
                    }
                    proof {
                        lemma_size_list(*o);
                        lemma_size_seq_index(o@, 0);
                    }
                    let c = self.compare(&o[0]);
                    proof {
                        let e = seq![*self].drop_first();
                        assert(e.len() == 0);
                        assert(cmp_items(*self, *other) == cmp_seqs(seq![*self], o@));
                        assert(seq![*self][0] == *self);
                        assert(cmp_seqs(e, o@.drop_first()) == if o@.drop_first().len() == 0 {
                            ComparisonResult::Continue
                        } else {
                            ComparisonResult::Correct
                        });
                    }
                    if c != ComparisonResult::Continue {
                        c
                    } else if o.len() > 1 {
                        ComparisonResult::Correct
                    } else {
                        ComparisonResult::Continue
                    }
                },
            },
        }
    }
}

/// How the list `s` compares with the list `o`, element by element.
pub fn compare_seq(s: &Vec<Item>, o: &Vec<Item>) -> (r: ComparisonResult)
    ensures
        r == cmp_seqs(s@, o@),
    decreases size_seq(s@) + size_seq(o@), 1nat,
{
    let mut i: usize = 0;
    proof {
        assert(s@.subrange(0, s@.len() as int) =~= s@);
        assert(o@.subrange(0, o@.len() as int) =~= o@);
    }
    while i < s.len() && i < o.len()
        invariant
            0 <= i <= s@.len(),
            0 <= i <= o@.len(),
            cmp_seqs(s@, o@) == cmp_seqs(
                s@.subrange(i as int, s@.len() as int),
                o@.subrange(i as int, o@.len() as int),
            ),
        decreases s@.len() - i,
    {
        proof {
            lemma_size_seq_index(s@, i as int);
            lemma_size_seq_index(o@, i as int);
        }
        let c = s[i].compare(&o[i]);
        proof {
            let ss = s@.subrange(i as int, s@.len() as int);
            let oo = o@.subrange(i as int, o@.len() as int);
            assert(ss[0] == s@[i as int] && oo[0] == o@[i as int]);
            assert(ss.drop_first() =~= s@.subrange(i + 1, s@.len() as int));
            assert(oo.drop_first() =~= o@.subrange(i + 1, o@.len() as int));
        }
        if c != ComparisonResult::Continue {
            return c;
        }
        i = i + 1;
    }
    proof {
        let ss = s@.subrange(i as int, s@.len() as int);
        let oo = o@.subrange(i as int, o@.len() as int);
        assert(ss.len() == 0 || oo.len() == 0);
    }
    if i < o.len() {
        ComparisonResult::Correct
    } else if i < s.len() {
        ComparisonResult::Wrong
    } else {
        ComparisonResult::Continue
    }
}

/// A left and a right packet.
#[derive(Debug)]
pub struct Pair(pub Item, pub Item);

impl Pair {
    /// Whether the two packets are in the right order.
    pub fn check_order(&self) -> (r: bool)
        ensures
            r == (cmp_items(self.0, self.1) == ComparisonResult::Correct),
    {
        self.0.compare(&self.1) == ComparisonResult::Correct
    }
}

/// Sum of the 1-based indices of the pairs that are in the right order.
pub fn ordered_index_sum(pairs: &Vec<Pair>) -> (r: u64)
    requires
        pairs@.len() <= 0x1_0000,
    ensures
        r == ordered_sum(pairs@),
{
    let mut out: u64 = 0;
    let mut i: usize = 0;
    while i < pairs.len()
        invariant
            0 <= i <= pairs@.len(),
            pairs@.len() <= 0x1_0000,
            out == ordered_sum(pairs@.subrange(0, i as int)),
            out <= i * (i + 1) / 2,
        decreases pairs@.len() - i,
    {
        proof {
            assert(pairs@.subrange(0, i + 1).drop_last() =~= pairs@.subrange(0, i as int));
            assert(i * (i + 1) / 2 + i + 1 == (i + 1) * (i + 2) / 2) by (nonlinear_arith);
            assert((i + 1) * (i + 2) / 2 <= 0x1_0000 * 0x1_0001) by (nonlinear_arith)
                requires
                    i < 0x1_0000,
            ;
        }
        if pairs[i].check_order() {
            out = out + (i as u64) + 1;
        }
        i = i + 1;
    }
    proof {
        assert(pairs@.subrange(0, i as int) =~= pairs@);
    }
    out
}

/// Sum of the 1-based indices of the ordered pairs of `ps`.
pub open spec fn ordered_sum(ps: Seq<Pair>) -> int
    decreases ps.len(),
{
    if ps.len() == 0 {
        0
    } else {
        ordered_sum(ps.drop_last()) + if cmp_items(ps.last().0, ps.last().1)
            == ComparisonResult::Correct {
            ps.len() as int
        } else {
            0
        }
    }
}

/// The decimal digits of `n`, without leading zeros.
pub open spec fn digits(n: nat) -> Seq<char>
    decreases n,
{
    if n < 10 {
        seq![digit_char(n)]
    } else {
        digits(n / 10) + seq![digit_char(n % 10)]
    }
}

pub open spec fn digit_char(d: nat) -> char {
    (('0' as nat) + d) as char
}

/// The canonical text of a packet: integers in decimal, lists in brackets
/// with their elements separated by commas.
pub open spec fn render(i: Item) -> Seq<char>
    decreases size(i), 0nat,
    via render_decreases
{
    match i {
        Item::Value(n) => digits(n as nat),
        Item::List(v) => seq!['['] + render_seq(v@) + seq![']'],
    }
}

/// The elements of a list, rendered and separated by commas.
pub open spec fn render_seq(s: Seq<Item>) -> Seq<char>
    decreases size_seq(s), 1nat,
    via render_seq_decreases
{
    if s.len() == 0 {
        seq![]
    } else if s.len() == 1 {
        render(s[0])
    } else {
        render_seq(s.drop_last()) + seq![','] + render(s.last())
    }
}

proof fn lemma_size_seq_push(s: Seq<Item>, x: Item)
    ensures
        size_seq(s.push(x)) == size_seq(s) + size(x),
    decreases s.len(),
{
    if s.len() > 0 {
        assert(s.push(x).drop_first() =~= s.drop_first().push(x));
        assert(s.push(x)[0] == s[0]);
        lemma_size_seq_push(s.drop_first(), x);
    } else {
        assert(s.push(x).drop_first() =~= Seq::<Item>::empty());
        assert(s.push(x)[0] == x);
        assert(size_seq(Seq::<Item>::empty()) == 0);
    }
}

#[via_fn]
proof fn render_decreases(i: Item) {
    match i {
        Item::List(v) => lemma_size_list(v),
        _ => {},
    }
}

#[via_fn]
proof fn render_seq_decreases(s: Seq<Item>) {
    if s.len() > 0 {
        assert(s.drop_last().push(s.last()) =~= s);
        lemma_size_seq_push(s.drop_last(), s.last());
        lemma_size_seq_index(s, 0);
        if s.len() == 1 {
            assert(s.subrange(0, 1) =~= s);
        }
    }
}

proof fn lemma_digits_step(n: nat, d: nat)
    requires
        1 <= n,
        d < 10,
    ensures
        digits(n * 10 + d) == digits(n) + seq![digit_char(d)],
{
    assert((n * 10 + d) / 10 == n && (n * 10 + d) % 10 == d) by (nonlinear_arith)
        requires
            d < 10,
    ;
    assert(n * 10 + d >= 10) by (nonlinear_arith)
        requires
            n >= 1,
    ;
}

pub open spec fn is_digit(c: char) -> bool {
    '0' <= c && c <= '9'
}

/// The number written by the decimal digits `s`.
pub open spec fn value_of(s: Seq<char>) -> int
    decreases s.len(),
{
    if s.len() == 0 {
        0
    } else {
        value_of(s.drop_last()) * 10 + (s.last() as int - '0' as int)
    }
}

/// The text from `pos` on begins with the digits of `n`, and no further
/// digit follows them.
pub open spec fn starts_value(text: Seq<char>, pos: int, n: u8) -> bool {
    let d = digits(n as nat);
    &&& 0 <= pos
    &&& pos + d.len() <= text.len()
    &&& text.subrange(pos, pos + d.len()) == d
    &&& (pos + d.len() == text.len() || !is_digit(text[pos + d.len()]))
}

proof fn lemma_digits_facts(n: nat)
    ensures
        digits(n).len() >= 1,
        forall|i: int| 0 <= i < digits(n).len() ==> is_digit(#[trigger] digits(n)[i]),
        value_of(digits(n)) == n,
        digits(n)[0] == '0' ==> n == 0 && digits(n).len() == 1,
    decreases n,
{
    if n >= 10 {
        lemma_digits_facts(n / 10);
        let d = digits(n);
        assert(d.drop_last() =~= digits(n / 10));
        assert(d[0] == digits(n / 10)[0]);
        assert(forall|i: int| 0 <= i < d.len() - 1 ==> d[i] == digits(n / 10)[i]);
        assert((n / 10) * 10 + n % 10 == n);
        assert(d.last() == digit_char(n % 10));
        assert(digit_char(n % 10) as int - '0' as int == n % 10);
        assert(value_of(d) == value_of(d.drop_last()) * 10 + (d.last() as int - '0' as int));
    } else {
        let d = digits(n);
        assert(d.drop_last() =~= Seq::<char>::empty());
        assert(d.last() == digit_char(n));
        assert(digit_char(n) as int - '0' as int == n);
        assert(value_of(d) == value_of(d.drop_last()) * 10 + (d.last() as int - '0' as int));
    }
}

proof fn lemma_value_prefix(s: Seq<char>, k: int)
    requires
        forall|i: int| 0 <= i < s.len() ==> is_digit(#[trigger] s[i]),
        0 <= k <= s.len(),
    ensures
        0 <= value_of(s.subrange(0, k)) <= value_of(s),
    decreases s.len() - k,
{
    if k < s.len() {
        lemma_value_prefix(s, k + 1);
        let t = s.subrange(0, k + 1);
        assert(t.drop_last() =~= s.subrange(0, k));
        assert(is_digit(s[k]));
        assert(value_of(s.subrange(0, k)) <= value_of(t)) by (nonlinear_arith)
            requires
                value_of(t) == value_of(s.subrange(0, k)) * 10 + (t.last() as int - '0' as int),
                t.last() as int - '0' as int >= 0,
                value_of(s.subrange(0, k)) >= 0,
        ;
        if k == 0 {
            assert(s.subrange(0, 0).len() == 0);
        }
        assert(value_of(s.subrange(0, k)) >= 0) by {
            lemma_value_nonneg(s.subrange(0, k));
        }
    } else {
        assert(s.subrange(0, k) =~= s);
        lemma_value_nonneg(s);
    }
}

proof fn lemma_value_nonneg(s: Seq<char>)
    requires
        forall|i: int| 0 <= i < s.len() ==> is_digit(#[trigger] s[i]),
    ensures
        value_of(s) >= 0,
    decreases s.len(),
{
    if s.len() > 0 {
        assert(is_digit(s[s.len() - 1]));
        lemma_value_nonneg(s.drop_last());
    }
}

/// The elements of a list packet (none for an integer).
pub open spec fn elems(it: Item) -> Seq<Item> {
    match it {
        Item::List(v) => v@,
        _ => seq![],
    }
}

/// The text from `pos` on begins with the canonical text of the list `it`.
pub open spec fn starts_packet(text: Seq<char>, pos: int, it: Item) -> bool {
    &&& it is List
    &&& 0 <= pos
    &&& pos + render(it).len() <= text.len()
    &&& text.subrange(pos, pos + render(it).len()) == render(it)
}

/// Where element `j` of a list begins, counted from just after its `[`.
pub open spec fn elem_start(es: Seq<Item>, j: int) -> int {
    render_seq(es.take(j)).len() + if j > 0 {
        1int
    } else {
        0int
    }
}

proof fn lemma_render_first(x: Item)
    ensures
        render(x).len() >= 1,
        x is List ==> render(x)[0] == '[',
        x is Value ==> is_digit(render(x)[0]),
{
    match x {
        Item::Value(n) => {
            lemma_digits_facts(n as nat);
        },
        Item::List(v) => {},
    }
}

proof fn lemma_take_step(es: Seq<Item>, j: int)
    requires
        0 <= j < es.len(),
    ensures
        render_seq(es.take(j + 1)) == render_seq(es.take(j)) + (if j > 0 {
            seq![',']
        } else {
            Seq::<char>::empty()
        }) + render(es[j]),
{
    let t = es.take(j + 1);
    assert(t.drop_last() =~= es.take(j));
    assert(t.last() == es[j]);
    if j == 0 {
        assert(t.len() == 1);
        assert(t[0] == es[0]);
        assert(es.take(0).len() == 0);
        assert(render_seq(es.take(0)) == Seq::<char>::empty());
        assert(render_seq(t) =~= Seq::<char>::empty() + Seq::<char>::empty() + render(es[0]));
    }
}

proof fn lemma_take_prefix(es: Seq<Item>, j: int)
    requires
        0 <= j <= es.len(),
    ensures
        render_seq(es.take(j)).len() <= render_seq(es).len(),
        render_seq(es).subrange(0, render_seq(es.take(j)).len() as int) == render_seq(es.take(j)),
    decreases es.len() - j,
{
    if j == es.len() {
        assert(es.take(j) =~= es);
        assert(render_seq(es).subrange(0, render_seq(es).len() as int) =~= render_seq(es));
    } else {
        lemma_take_prefix(es, j + 1);
        lemma_take_step(es, j);
        let a = render_seq(es.take(j));
        let b = render_seq(es.take(j + 1));
        assert(b.subrange(0, a.len() as int) =~= a);
        assert(render_seq(es).subrange(0, a.len() as int) =~= b.subrange(0, a.len() as int));
    }
}

/// In the canonical text of a list at `pos`, element `j` sits at its start
/// offset and is followed by a comma, or by the closing bracket if it is the
/// last one.
proof fn lemma_layout(text: Seq<char>, pos: int, it: Item, j: int)
    requires
        starts_packet(text, pos, it),
        0 <= j < elems(it).len(),
    ensures
        ({
            let es = elems(it);
            let p = pos + 1 + elem_start(es, j);
            let e = p + render(es[j]).len();
            &&& e < text.len()
            &&& text.subrange(p, e) == render(es[j])
            &&& (j + 1 < es.len() ==> text[e] == ',' && pos + 1 + elem_start(es, j + 1) == e + 1)
            &&& (j + 1 == es.len() ==> text[e] == ']' && e + 1 == pos + render(it).len())
        }),
{
    let es = elems(it);
    let rs = render_seq(es);
    let r = render(it);
    assert(r == seq!['['] + rs + seq![']']);
    lemma_take_step(es, j);
    lemma_take_prefix(es, j + 1);
    let a = render_seq(es.take(j));
    let b = render_seq(es.take(j + 1));
    let x = elem_start(es, j);
    let lj = render(es[j]).len();
    assert(b.len() == x + lj);
    let p = pos + 1 + x;
    let e = p + lj;
    assert forall|k: int| 0 <= k < lj implies text[p + k] == render(es[j])[k] by {
        assert(text[p + k] == text.subrange(pos, pos + r.len())[1 + x + k]);
        assert(r[1 + x + k] == rs[x + k]);
        assert(rs[x + k] == rs.subrange(0, b.len() as int)[x + k]);
        assert(b[x + k] == render(es[j])[k]);
    }
    assert(text.subrange(p, e) =~= render(es[j]));
    if j + 1 < es.len() {
        lemma_take_step(es, j + 1);
        lemma_take_prefix(es, j + 2);
        let c = render_seq(es.take(j + 2));
        assert(c[b.len() as int] == ',');
        assert(rs[b.len() as int] == rs.subrange(0, c.len() as int)[b.len() as int]);
        assert(text[e] == text.subrange(pos, pos + r.len())[1 + b.len() as int]);
        assert(r[1 + b.len() as int] == rs[b.len() as int]);
    } else {
        assert(es.take(j + 1) =~= es);
        assert(text[e] == text.subrange(pos, pos + r.len())[1 + rs.len() as int]);
        assert(r[1 + rs.len() as int] == ']');
    }
}

/// In the canonical text of an empty list at `pos`, `]` follows `[`.
proof fn lemma_layout_empty(text: Seq<char>, pos: int, it: Item)
    requires
        starts_packet(text, pos, it),
    ensures
        elems(it).len() == 0 ==> pos + 1 < text.len() && text[pos + 1] == ']' && pos + 2 == pos + render(it).len(),
        elems(it).len() > 0 ==> pos + 1 < text.len() && text[pos + 1] != ']',
        text[pos] == '[',
{
    let es = elems(it);
    let r = render(it);
    assert(r == seq!['['] + render_seq(es) + seq![']']);
    assert(text[pos] == text.subrange(pos, pos + r.len())[0]);
    assert(text[pos + 1] == text.subrange(pos, pos + r.len())[1]);
    if es.len() > 0 {
        lemma_take_step(es, 0);
        lemma_take_prefix(es, 1);
        lemma_render_first(es[0]);
        assert(es.take(0).len() == 0);
        assert(render_seq(es.take(0)) == Seq::<char>::empty());
        assert(render_seq(es.take(1)) =~= render(es[0]));
        assert(r[1] == render_seq(es)[0]);
        assert(render_seq(es)[0] == render_seq(es).subrange(0, render_seq(es.take(1)).len() as int)[0]);
    } else {
        assert(render_seq(es) == Seq::<char>::empty());
    }
}

impl Item {
    /// Reads the integer that starts at `pos`: digits without a leading zero,
    /// at most 255. Returns the value and the position after its last digit.
    pub fn parse_value(text: &Vec<char>, pos: usize) -> (r: Option<(Item, usize)>)
        ensures
            r matches Some((it, end)) ==> pos < end <= text@.len() && it is Value
                && text@.subrange(pos as int, end as int) == render(it)
                && (end == text@.len() || !is_digit(text@[end as int])),
            forall|m: u8|
                #[trigger] starts_value(text@, pos as int, m) ==> r == Some(
                    (Item::Value(m), (pos + digits(m as nat).len()) as usize),
                ),
    {
        if pos >= text.len() || !('0' <= text[pos] && text[pos] <= '9') {
            proof {
                assert forall|m: u8| #[trigger] starts_value(text@, pos as int, m) implies false by {
                    lemma_digits_facts(m as nat);
                    assert(text@.subrange(pos as int, pos + digits(m as nat).len())[0] == text@[pos as int]);
                }
            }
            return None;
        }
        let mut n: u32 = (text[pos] as u32) - ('0' as u32);
        let mut end: usize = pos + 1;
        proof {
            assert(digits(n as nat) =~= text@.subrange(pos as int, end as int));
            assert forall|m: u8| #[trigger] starts_value(text@, pos as int, m) implies end <= pos + digits(m as nat).len() by {
                lemma_digits_facts(m as nat);
            }
        }
        while end < text.len() && '0' <= text[end] && text[end] <= '9'
            invariant
                pos < end <= text@.len(),
                n <= 255,
                text@.subrange(pos as int, end as int) == digits(n as nat),
                n == 0 ==> end == pos + 1,
                forall|m: u8| #[trigger] starts_value(text@, pos as int, m) ==> end <= pos + digits(m as nat).len(),
            decreases text@.len() - end,
        {
            proof {
                assert forall|m: u8| #[trigger] starts_value(text@, pos as int, m) implies end < pos + digits(m as nat).len() by {}
            }
            if n == 0 {
                proof {
                    assert forall|m: u8| #[trigger] starts_value(text@, pos as int, m) implies false by {
                        lemma_digits_facts(m as nat);
                        let dm = digits(m as nat);
                        assert(text@.subrange(pos as int, pos + dm.len())[0] == text@[pos as int]);
                        assert(text@.subrange(pos as int, end as int)[0] == text@[pos as int]);
                        assert(digits(0nat)[0] == '0');
                    }
                }
                return None;
            }
            let d = (text[end] as u32) - ('0' as u32);
            if n > 25 || n * 10 + d > 255 {
                proof {
                    assert forall|m: u8| #[trigger] starts_value(text@, pos as int, m) implies false by {
                        lemma_digits_facts(m as nat);
                        lemma_digits_facts(n as nat);
                        let dm = digits(m as nat);
                        let k = end + 1 - pos;
                        lemma_value_prefix(dm, k);
                        let pre = text@.subrange(pos as int, end + 1);
                        assert(pre =~= dm.subrange(0, k));
                        assert(pre.drop_last() =~= text@.subrange(pos as int, end as int));
                        assert(value_of(pre) == n * 10 + d);
                    }
                }
                return None;
            }
            proof {
                lemma_digits_step(n as nat, d as nat);
                assert(text@.subrange(pos as int, end + 1) =~= text@.subrange(pos as int, end as int)
                    + seq![text@[end as int]]);
                assert(digit_char(d as nat) == text@[end as int]);
            }
            n = n * 10 + d;
            end = end + 1;
        }
        proof {
            assert forall|m: u8| #[trigger] starts_value(text@, pos as int, m) implies Some((Item::Value(n as u8), end))
                == Some((Item::Value(m), (pos + digits(m as nat).len()) as usize)) by {
                lemma_digits_facts(m as nat);
                lemma_digits_facts(n as nat);
                let dm = digits(m as nat);
                if end < pos + dm.len() {
                    assert(text@[end as int] == text@.subrange(pos as int, pos + dm.len())[end - pos]);
                }
                assert(end == pos + dm.len());
                assert(value_of(digits(n as nat)) == value_of(dm));
            }
        }
        Some((Item::Value(n as u8), end))
    }

    /// Reads the list that starts at `pos` (with its `[`). Returns the packet
    /// and the position after its closing `]`; `None` when the text there is
    /// not a canonical packet.
    pub fn parse_list(text: &Vec<char>, pos: usize) -> (r: Option<(Item, usize)>)
        ensures
            r matches Some((it, end)) ==> pos < end <= text@.len() && text@.subrange(
                pos as int,
                end as int,
            ) == render(it),
            forall|it: Item|
                #[trigger] starts_packet(text@, pos as int, it) ==> (r matches Some((x, e)) && e == pos
                    + render(it).len()),
        decreases text@.len() - pos,
    {
        if pos >= text.len() || text[pos] != '[' {
            proof {
                assert forall|it: Item| #[trigger] starts_packet(text@, pos as int, it) implies false by {
                    lemma_layout_empty(text@, pos as int, it);
                }
            }
            return None;
        }
        let mut items: Vec<Item> = Vec::new();
        let mut p: usize = pos + 1;
        proof {
            assert(text@.subrange(pos as int, p as int) =~= seq!['['] + render_seq(items@));
            assert(seq!['['] + render_seq(items@) =~= seq!['['] + render_seq(items@) + Seq::<char>::empty());
        }
        if p < text.len() && text[p] == ']' {
            proof {
                assert(text@.subrange(pos as int, p + 1) =~= seq!['['] + render_seq(items@) + seq![']']);
                assert forall|it: Item| #[trigger] starts_packet(text@, pos as int, it) implies pos + 2 == pos
                    + render(it).len() by {
                    lemma_layout_empty(text@, pos as int, it);
                }
            }
            return Some((Item::List(items), p + 1));
        }
        proof {
            assert forall|it: Item| #[trigger] starts_packet(text@, pos as int, it) implies items@.len() < elems(it).len()
                && p == pos + 1 + elem_start(elems(it), items@.len() as int) by {
                lemma_layout_empty(text@, pos as int, it);
                assert(elems(it).take(0).len() == 0);
                assert(render_seq(elems(it).take(0)) == Seq::<char>::empty());
            }
        }
        loop
            invariant
                pos < p <= text@.len(),
                text@[pos as int] == '[',
                text@.subrange(pos as int, p as int) == seq!['['] + render_seq(items@) + if items@.len()
                    == 0 {
                    Seq::<char>::empty()
                } else {
                    seq![',']
                },
                forall|it: Item|
                    #[trigger] starts_packet(text@, pos as int, it) ==> items@.len() < elems(it).len() && p
                        == pos + 1 + elem_start(elems(it), items@.len() as int),
            decreases text@.len() - p,
        {
            let ghost j = items@.len() as int;
            if p >= text.len() {
                proof {
                    assert forall|it: Item| #[trigger] starts_packet(text@, pos as int, it) implies false by {
                        lemma_layout(text@, pos as int, it, j);
                    }
                }
                return None;
            }
            let parsed = if text[p] == '[' {
                Self::parse_list(text, p)
            } else {
                Self::parse_value(text, p)
            };
            proof {
                assert forall|it: Item| #[trigger] starts_packet(text@, pos as int, it) implies (parsed matches Some(
                    (x, end),
                ) && end == p + render(elems(it)[j]).len()) by {
                    lemma_layout(text@, pos as int, it, j);
                    let el = elems(it)[j];
                    lemma_render_first(el);
                    let e = p + render(el).len();
                    assert(text@[p as int] == text@.subrange(p as int, e)[0]);
                    match el {
                        Item::List(v) => {
                            assert(starts_packet(text@, p as int, el));
                        },
                        Item::Value(n) => {
                            assert(starts_value(text@, p as int, n));
                        },
                    }
                }
            }
            match parsed {
                Some((it, end)) => {
                    let ghost before = items@;
                    let ghost t = it;
                    proof {
                        let lead = seq!['['] + render_seq(before) + if before.len() == 0 {
                            Seq::<char>::empty()
                        } else {
                            seq![',']
                        };
                        assert(text@.subrange(pos as int, end as int) =~= lead + text@.subrange(
                            p as int,
                            end as int,
                        ));
                    }
                    items.push(it);
                    proof {
                        assert(items@.drop_last() =~= before);
                        if before.len() == 0 {
                            assert(render_seq(items@) == render(t));
                        } else {
                            assert(render_seq(items@) == render_seq(before) + seq![','] + render(t));
                        }
                    }
                    if end >= text.len() {
                        proof {
                            assert forall|it: Item| #[trigger] starts_packet(text@, pos as int, it) implies false by {
                                lemma_layout(text@, pos as int, it, j);
                            }
                        }
                        return None;
                    }
                    if text[end] == ']' {
                        proof {
                            let whole = text@.subrange(pos as int, end + 1);
                            assert(text@.subrange(p as int, end as int) == render(t));
                            if before.len() == 0 {
                                assert(whole =~= seq!['['] + render_seq(items@) + seq![']']);
                            } else {
                                assert(whole =~= seq!['['] + render_seq(items@) + seq![']']);
                            }
                            assert forall|it: Item| #[trigger] starts_packet(text@, pos as int, it) implies end + 1 == pos
                                + render(it).len() by {
                                lemma_layout(text@, pos as int, it, j);
                            }
                        }
                        return Some((Item::List(items), end + 1));
                    }
                    if text[end] != ',' {
                        proof {
                            assert forall|it: Item| #[trigger] starts_packet(text@, pos as int, it) implies false by {
                                lemma_layout(text@, pos as int, it, j);
                            }
                        }
                        return None;
                    }
                    proof {
                        assert(text@.subrange(p as int, end as int) == render(t));
                        assert(text@.subrange(pos as int, end + 1) =~= seq!['['] + render_seq(items@)
                            + seq![',']);
                        assert forall|it: Item| #[trigger] starts_packet(text@, pos as int, it) implies items@.len()
                            < elems(it).len() && end + 1 == pos + 1 + elem_start(elems(it), items@.len() as int) by {
                            lemma_layout(text@, pos as int, it, j);
                        }
                    }
                    p = end + 1;
                },
                None => {
                    return None;
                },
            }
        }
    }
}

/// Reads a whole line as one packet; `None` unless the line is exactly the
/// canonical text of a list packet.
pub fn parse_packet(text: &Vec<char>) -> (r: Option<Item>)
    ensures
        r matches Some(it) ==> text@ == render(it),
        forall|it: Item| it is List && #[trigger] render(it) == text@ ==> r is Some,
{
    proof {
        assert forall|it: Item| it is List && #[trigger] render(it) == text@ implies starts_packet(text@, 0, it) by {
            assert(text@.subrange(0, text@.len() as int) =~= text@);
        }
    }
    match Item::parse_list(text, 0) {
        Some((it, end)) => {
            if end == text.len() {
                proof {
                    assert(text@.subrange(0, end as int) =~= text@);
                }
                Some(it)
            } else {
                None
            }
        },
        None => None,
    }
}

/// How many packets of `ps` come before `divider`.
pub open spec fn count_before(ps: Seq<Item>, divider: Item) -> int
    decreases ps.len(),
{
    if ps.len() == 0 {
        0
    } else {
        count_before(ps.drop_last(), divider) + if cmp_items(ps.last(), divider)
            == ComparisonResult::Correct {
            1int
        } else {
            0int
        }
    }
}

/// How many of `packets` come before `divider`.
pub fn packets_before(packets: &Vec<Item>, divider: &Item) -> (r: u64)
    ensures
        r == count_before(packets@, *divider),
        r <= packets@.len(),
{
    let mut n: u64 = 0;
    let mut i: usize = 0;
    while i < packets.len()
        invariant
            0 <= i <= packets@.len(),
            n == count_before(packets@.subrange(0, i as int), *divider),
            n <= i,
        decreases packets@.len() - i,
    {
        proof {
            assert(packets@.subrange(0, i + 1).drop_last() =~= packets@.subrange(0, i as int));
        }
        if packets[i].compare(divider) == ComparisonResult::Correct {
            n = n + 1;
        }
        i = i + 1;
    }
    proof {
        assert(packets@.subrange(0, i as int) =~= packets@);
    }
    n
}

/// The decoder key: the product of the 1-based positions that the dividers
/// `[[2]]` and `[[6]]` take when they are sorted in among `packets`.
pub fn decoder_key(packets: &Vec<Item>) -> (r: u64)
    requires
        packets@.len() <= 0x1000_0000,
    ensures
        exists|two: Item, six: Item|
            is_divider(two, 2) && is_divider(six, 6) && r == (count_before(packets@, two) + 1) * (
            count_before(packets@, six) + 2),
{
    let two = Item::List(vec![Item::List(vec![Item::Value(2)])]);
    let six = Item::List(vec![Item::List(vec![Item::Value(6)])]);
    let ghost (t, x) = (two, six);
    let a = packets_before(packets, &two) + 1;
    let b = packets_before(packets, &six) + 2;
    proof {
        assert(a * b <= 0x1000_0001 * 0x1000_0002) by (nonlinear_arith)
            requires
                a <= 0x1000_0001,
                b <= 0x1000_0002,
        ;
    }
    proof {
        assert(is_divider(t, 2));
        assert(is_divider(x, 6));
    }
    a * b
}

/// `d` is the divider packet `[[n]]`.
pub open spec fn is_divider(d: Item, n: u8) -> bool {
    match d {
        Item::List(v) => v@.len() == 1 && match v@[0] {
            Item::List(w) => w@.len() == 1 && w@[0] == Item::Value(n),
            _ => false,
        },
        _ => false,
    }
}

} // verus!
