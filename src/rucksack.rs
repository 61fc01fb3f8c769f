//! Item priorities of rucksack contents.
use vstd::prelude::*;

verus! {

pub open spec fn is_letter(c: char) -> bool {
    ('a' <= c && c <= 'z') || ('A' <= c && c <= 'Z')
}

/// `a` to `z` rank 1 to 26, `A` to `Z` rank 27 to 52.
pub open spec fn priority(c: char) -> int {
    if 'a' <= c && c <= 'z' {
        c as int - 'a' as int + 1
    } else {
        c as int - 'A' as int + 27
    }
}

/// The priority of an item letter.
pub fn get_character_priority(c: &char) -> (r: u64)
    requires
        is_letter(*c),
    ensures
        r as int == priority(*c),
{
    let b = *c as u32;
    let base: u64 = ((b - 65) % 31) as u64;
    if 'A' <= *c && *c <= 'Z' {
        base + 27
    } else {
        base
    }
}

/// The smallest item that occurs in both compartments.
pub fn common_item(a: &Vec<char>, b: &Vec<char>) -> (r: Option<char>)
    ensures
        r matches Some(c) ==> a@.contains(c) && b@.contains(c) && forall|d: char|
            a@.contains(d) && b@.contains(d) ==> c <= d,
        r is None ==> forall|d: char| a@.contains(d) ==> !b@.contains(d),
{
    let mut best: Option<char> = None;
    let mut i: usize = 0;
    while i < a.len()
        invariant
            0 <= i <= a@.len(),
            best matches Some(c) ==> a@.contains(c) && b@.contains(c) && forall|k: int|
                0 <= k < i && b@.contains(a@[k]) ==> c <= a@[k],
            best is None ==> forall|k: int| 0 <= k < i ==> !b@.contains(#[trigger] a@[k]),
        decreases a@.len() - i,
    {
        let c = a[i];
        let mut found = false;
        let mut j: usize = 0;
        while j < b.len()
            invariant
                0 <= j <= b@.len(),
                found == exists|k: int| 0 <= k < j && b@[k] == c,
            decreases b@.len() - j,
        {
            if b[j] == c {
                found = true;
            }
            j = j + 1;
        }
        if found {
            match best {
                Some(x) => {
                    if c < x {
                        best = Some(c);
                    }
                },
                None => {
                    best = Some(c);
                },
            }
        }
        i = i + 1;
    }
    best
}

fn holds(v: &Vec<char>, c: char) -> (r: bool)
    ensures
        r == v@.contains(c),
{
    let mut j: usize = 0;
    while j < v.len()
        invariant
            0 <= j <= v@.len(),
            forall|k: int| 0 <= k < j ==> v@[k] != c,
        decreases v@.len() - j,
    {
        if v[j] == c {
            proof {
                assert(v@[j as int] == c);
            }
            return true;
        }
        j = j + 1;
    }
    false
}

/// The smallest item that all three rucksacks of a group carry: the badge.
pub fn badge(a: &Vec<char>, b: &Vec<char>, c: &Vec<char>) -> (r: Option<char>)
    ensures
        r matches Some(x) ==> a@.contains(x) && b@.contains(x) && c@.contains(x) && forall|d: char|
            a@.contains(d) && b@.contains(d) && c@.contains(d) ==> x <= d,
        r is None ==> forall|d: char| a@.contains(d) ==> !(b@.contains(d) && c@.contains(d)),
{
    let mut best: Option<char> = None;
    let mut i: usize = 0;
    while i < a.len()
        invariant
            0 <= i <= a@.len(),
            best matches Some(x) ==> a@.contains(x) && b@.contains(x) && c@.contains(x) && forall|k: int|
                0 <= k < i && b@.contains(a@[k]) && c@.contains(a@[k]) ==> x <= a@[k],
            best is None ==> forall|k: int| 0 <= k < i ==> !(b@.contains(#[trigger] a@[k]) && c@.contains(a@[k])),
        decreases a@.len() - i,
    {
        let x = a[i];
        if holds(b, x) && holds(c, x) {
            match best {
                Some(y) => {
                    if x < y {
                        best = Some(x);
                    }
                },
                None => {
                    best = Some(x);
                },
            }
        }
        i = i + 1;
    }
    best
}

} // verus!
