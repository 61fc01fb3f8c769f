//! Calories carried by each elf.
use vstd::prelude::*;

verus! {

pub open spec fn sum(s: Seq<u64>) -> int
    decreases s.len(),
{
    if s.len() == 0 {
        0
    } else {
        sum(s.drop_last()) + s.last()
    }
}

proof fn lemma_sum_prefix_le(s: Seq<u64>, i: int)
    requires
        0 <= i <= s.len(),
    ensures
        0 <= sum(s.subrange(0, i)) <= sum(s),
    decreases s.len() - i,
{
    if i < s.len() {
        lemma_sum_prefix_le(s, i + 1);
        assert(s.subrange(0, i + 1).drop_last() =~= s.subrange(0, i));
    } else {
        assert(s.subrange(0, i) =~= s);
    }
    lemma_sum_nonneg(s.subrange(0, i));
}

proof fn lemma_sum_nonneg(s: Seq<u64>)
    ensures
        sum(s) >= 0,
    decreases s.len(),
{
    if s.len() > 0 {
        lemma_sum_nonneg(s.drop_last());
    }
}

/// The total of each elf's items.
pub fn elf_totals(elves: &Vec<Vec<u64>>) -> (r: Vec<u64>)
    requires
        forall|e: int| 0 <= e < elves@.len() ==> sum((#[trigger] elves@[e])@) <= u64::MAX,
    ensures
        r@.len() == elves@.len(),
        forall|e: int| 0 <= e < elves@.len() ==> r@[e] == sum((#[trigger] elves@[e])@),
{
    let mut out: Vec<u64> = Vec::new();
    let mut e: usize = 0;
    while e < elves.len()
        invariant
            0 <= e <= elves@.len(),
            forall|k: int| 0 <= k < elves@.len() ==> sum((#[trigger] elves@[k])@) <= u64::MAX,
            out@.len() == e,
            forall|k: int| 0 <= k < e ==> out@[k] == sum((#[trigger] elves@[k])@),
        decreases elves@.len() - e,
    {
        let items = &elves[e];
        let mut t: u64 = 0;
        let mut i: usize = 0;
        while i < items.len()
            invariant
                0 <= i <= items@.len(),
                items@ == elves@[e as int]@,
                sum(items@) <= u64::MAX,
                t == sum(items@.subrange(0, i as int)),
            decreases items@.len() - i,
        {
            proof {
                assert(items@.subrange(0, i + 1).drop_last() =~= items@.subrange(0, i as int));
                lemma_sum_prefix_le(items@, i + 1);
            }
            t = t + items[i];
            i = i + 1;
        }
        proof {
            assert(items@.subrange(0, i as int) =~= items@);
        }
        out.push(t);
        e = e + 1;
    }
    out
}

pub open spec fn excluded(k: int, x: Option<usize>, y: Option<usize>) -> bool {
    (x matches Some(a) && a == k) || (y matches Some(b) && b == k)
}

/// The index of a largest value of `v`, leaving out the indices `x` and `y`.
fn largest_except(v: &Vec<u64>, x: Option<usize>, y: Option<usize>) -> (r: Option<usize>)
    ensures
        r matches Some(i) ==> i < v@.len() && !excluded(i as int, x, y) && forall|k: int|
            0 <= k < v@.len() && !excluded(k, x, y) ==> #[trigger] v@[k] <= v@[i as int],
        r is None ==> forall|k: int| 0 <= k < v@.len() ==> #[trigger] excluded(k, x, y),
{
    let mut best: Option<usize> = None;
    let mut k: usize = 0;
    while k < v.len()
        invariant
            0 <= k <= v@.len(),
            best matches Some(i) ==> i < k && !excluded(i as int, x, y) && forall|j: int|
                0 <= j < k && !excluded(j, x, y) ==> #[trigger] v@[j] <= v@[i as int],
            best is None ==> forall|j: int| 0 <= j < k ==> #[trigger] excluded(j, x, y),
        decreases v@.len() - k,
    {
        let skip = match x {
            Some(a) => a == k,
            None => false,
        } || match y {
            Some(b) => b == k,
            None => false,
        };
        if !skip {
            match best {
                Some(b) => {
                    if v[k] > v[b] {
                        best = Some(k);
                    }
                },
                None => {
                    best = Some(k);
                },
            }
        }
        k = k + 1;
    }
    best
}

/// The largest total, or `None` when there are no elves.
pub fn most_calories(totals: &Vec<u64>) -> (r: Option<u64>)
    ensures
        r matches Some(m) ==> totals@.contains(m) && forall|k: int| 0 <= k < totals@.len() ==> totals@[k] <= m,
        r is None <==> totals@.len() == 0,
{
    match largest_except(totals, None, None) {
        Some(i) => {
            proof {
                assert(totals@[i as int] == totals@[i as int]);
                assert forall|k: int| 0 <= k < totals@.len() implies totals@[k] <= totals@[i as int] by {
                    assert(!excluded(k, None, None));
                }
            }
            Some(totals[i])
        },
        None => {
            proof {
                if totals@.len() > 0 {
                    assert(excluded(0, None, None));
                }
            }
            None
        },
    }
}

/// The sum of the three largest totals (at three different elves), or `None`
/// with fewer than three elves.
pub fn top_three_total(totals: &Vec<u64>) -> (r: Option<u64>)
    requires
        forall|k: int| 0 <= k < totals@.len() ==> 3 * totals@[k] <= u64::MAX,
    ensures
        r matches Some(t) ==> exists|a: int, b: int, c: int|
            0 <= a < totals@.len() && 0 <= b < totals@.len() && 0 <= c < totals@.len() && a != b
                && b != c && a != c && t == totals@[a] + totals@[b] + totals@[c] && totals@[b]
                <= totals@[a] && totals@[c] <= totals@[b] && forall|k: int|
                0 <= k < totals@.len() && k != a && k != b && k != c ==> totals@[k] <= totals@[c],
        r is None <==> totals@.len() < 3,
{
    let a = match largest_except(totals, None, None) {
        Some(i) => i,
        None => {
            proof {
                if totals@.len() > 0 {
                    assert(excluded(0, None, None));
                }
            }
            return None;
        },
    };
    let b = match largest_except(totals, Some(a), None) {
        Some(i) => i,
        None => {
            proof {
                if totals@.len() >= 3 {
                    assert(excluded(0, Some(a), None));
                    assert(excluded(1, Some(a), None));
                }
            }
            return None;
        },
    };
    let c = match largest_except(totals, Some(a), Some(b)) {
        Some(i) => i,
        None => {
            proof {
                if totals@.len() >= 3 {
                    assert(excluded(0, Some(a), Some(b)));
                    assert(excluded(1, Some(a), Some(b)));
                    assert(excluded(2, Some(a), Some(b)));
                }
            }
            return None;
        },
    };
    proof {
        assert(!excluded(b as int, None, None));
        assert(!excluded(c as int, Some(a), None));
        assert(totals@[b as int] <= totals@[a as int]);
        assert(totals@[c as int] <= totals@[b as int]);
        assert forall|k: int|
            0 <= k < totals@.len() && k != a && k != b && k != c implies totals@[k] <= totals@[c as int] by {
            assert(!excluded(k, Some(a), Some(b)));
        }
        assert(3 * totals@[a as int] <= u64::MAX);
    }
    Some(totals[a] + totals[b] + totals[c])
}

} // verus!
