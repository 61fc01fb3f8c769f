//! Finding the start-of-packet marker in a datastream.
use vstd::prelude::*;

verus! {

/// Some character occurs twice in `s`.
pub open spec fn has_duplicate(s: Seq<char>) -> bool {
    exists|i: int, j: int| 0 <= i < j < s.len() && s[i] == s[j]
}

/// Whether some character occurs more than once in `window`.
pub fn contains_duplicate(window: &Vec<char>) -> (r: bool)
    ensures
        r == has_duplicate(window@),
{
    let n = window.len();
    let mut i: usize = 0;
    while i < n
        invariant
            n == window@.len(),
            0 <= i <= n,
            forall|a: int, b: int| 0 <= a < i && a < b < n ==> window@[a] != window@[b],
        decreases n - i,
    {
        let mut j: usize = i + 1;
        while j < n
            invariant
                n == window@.len(),
                0 <= i < n,
                i < j <= n,
                forall|a: int, b: int| 0 <= a < i && a < b < n ==> window@[a] != window@[b],
                forall|b: int| i < b < j ==> window@[i as int] != window@[b],
            decreases n - j,
        {
            if window[i] == window[j] {
                return true;
            }
            j = j + 1;
        }
        i = i + 1;
    }
    false
}

/// `end` closes a window of `k` distinct characters: the `k` characters
/// before position `end` are all different.
pub open spec fn marker_at(data: Seq<char>, k: int, end: int) -> bool {
    k <= end <= data.len() && !has_duplicate(data.subrange(end - k, end))
}

/// The number of characters read when the first window of `k` distinct
/// characters, after the first `k + 1` characters, is complete; `None` when
/// the stream holds none.
pub fn find_marker(data: &Vec<char>, k: usize) -> (r: Option<usize>)
    requires
        k > 0,
    ensures
        r matches Some(end) ==> k < end && marker_at(data@, k as int, end as int) && forall|e: int|
            k < e < end ==> !marker_at(data@, k as int, e),
        r is None ==> forall|e: int| k < e <= data@.len() ==> !marker_at(data@, k as int, e),
{
    if data.len() <= k {
        return None;
    }
    let mut end: usize = k + 1;
    while end <= data.len()
        invariant
            k > 0,
            k < end <= data@.len() + 1,
            forall|e: int| k < e < end ==> !marker_at(data@, k as int, e),
        decreases data@.len() + 1 - end,
    {
        let mut window: Vec<char> = Vec::new();
        let mut i: usize = end - k;
        while i < end
            invariant
                k < end,
                end - k <= i <= end,
                end <= data@.len(),
                window@ == data@.subrange(end - k, i as int),
            decreases end - i,
        {
            window.push(data[i]);
            proof {
                assert(window@ =~= data@.subrange(end - k, i + 1));
            }
            i = i + 1;
        }
        if !contains_duplicate(&window) {
            return Some(end);
        }
        if end == data.len() {
            return None;
        }
        end = end + 1;
    }
    None
}

} // verus!
