//! Overlapping section assignments.
use vstd::prelude::*;

verus! {

/// An inclusive range of section numbers.
#[derive(Debug, Clone, Copy, PartialEq, Eq, Structural)]
pub struct Range(pub u64, pub u64);

impl Range {
    /// Whether `other` lies entirely inside this range.
    pub fn contains(&self, other: &Self) -> (r: bool)
        ensures
            r == (self.0 <= other.0 && other.1 <= self.1),
    {
        self.0 <= other.0 && other.1 <= self.1
    }

    /// Whether the two ranges share at least one section.
    pub fn overlaps(&self, other: &Self) -> (r: bool)
        ensures
            r == (self.0 <= other.1 && other.0 <= self.1),
    {
        self.0 <= other.1 && other.0 <= self.1
    }
}

/// Number of pairs in which one range lies inside the other.
pub open spec fn count_nested(pairs: Seq<(Range, Range)>) -> int
    decreases pairs.len(),
{
    if pairs.len() == 0 {
        0
    } else {
        let p = pairs.last();
        count_nested(pairs.drop_last()) + if (p.0.0 <= p.1.0 && p.1.1 <= p.0.1) || (p.1.0 <= p.0.0
            && p.0.1 <= p.1.1) {
            1int
        } else {
            0int
        }
    }
}

/// Number of pairs whose ranges overlap.
pub open spec fn count_overlap(pairs: Seq<(Range, Range)>) -> int
    decreases pairs.len(),
{
    if pairs.len() == 0 {
        0
    } else {
        let p = pairs.last();
        count_overlap(pairs.drop_last()) + if p.0.0 <= p.1.1 && p.1.0 <= p.0.1 {
            1int
        } else {
            0int
        }
    }
}

proof fn lemma_counts_bounded(pairs: Seq<(Range, Range)>)
    ensures
        0 <= count_nested(pairs) <= pairs.len(),
        0 <= count_overlap(pairs) <= pairs.len(),
    decreases pairs.len(),
{
    if pairs.len() > 0 {
        lemma_counts_bounded(pairs.drop_last());
    }
}

/// How many pairs have one range inside the other.
pub fn count_containing(pairs: &Vec<(Range, Range)>) -> (r: u64)
    ensures
        r as int == count_nested(pairs@),
{
    let mut c: u64 = 0;
    let mut i: usize = 0;
    while i < pairs.len()
        invariant
            0 <= i <= pairs@.len(),
            c as int == count_nested(pairs@.subrange(0, i as int)),
        decreases pairs@.len() - i,
    {
        let p = pairs[i];
        proof {
            assert(pairs@.subrange(0, i + 1).drop_last() == pairs@.subrange(0, i as int));
            lemma_counts_bounded(pairs@.subrange(0, i as int));
        }
        if p.0.contains(&p.1) || p.1.contains(&p.0) {
            c = c + 1;
        }
        i = i + 1;
    }
    proof {
        assert(pairs@.subrange(0, i as int) == pairs@);
    }
    c
}

/// How many pairs have overlapping ranges.
pub fn count_overlapping(pairs: &Vec<(Range, Range)>) -> (r: u64)
    ensures
        r as int == count_overlap(pairs@),
{
    let mut c: u64 = 0;
    let mut i: usize = 0;
    while i < pairs.len()
        invariant
            0 <= i <= pairs@.len(),
            c as int == count_overlap(pairs@.subrange(0, i as int)),
        decreases pairs@.len() - i,
    {
        let p = pairs[i];
        proof {
            assert(pairs@.subrange(0, i + 1).drop_last() == pairs@.subrange(0, i as int));
            lemma_counts_bounded(pairs@.subrange(0, i as int));
        }
        if p.0.overlaps(&p.1) {
            c = c + 1;
        }
        i = i + 1;
    }
    proof {
        assert(pairs@.subrange(0, i as int) == pairs@);
    }
    c
}

} // verus!
