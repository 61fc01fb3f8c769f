//! Crane moves on stacks of crates.
//!
//! Stack number `k` (counting from 1) is `stacks[k - 1]`, bottom first, so its
//! top crate is the last element.
use vstd::prelude::*;

verus! {

/// Move `num` crates from stack `from` to stack `to` (both counted from 1).
#[derive(Debug, Clone, Copy, PartialEq, Eq, Structural)]
pub struct Command {
    pub num: usize,
    pub from: u8,
    pub to: u8,
}

pub open spec fn reversed(s: Seq<char>) -> Seq<char> {
    Seq::new(s.len(), |i: int| s[s.len() - 1 - i])
}

impl Command {
    /// The command can run on `stacks`: both stacks exist and the source holds
    /// at least `num` crates.
    pub open spec fn applicable(&self, stacks: Seq<Vec<char>>) -> bool {
        &&& 1 <= self.from <= stacks.len()
        &&& 1 <= self.to <= stacks.len()
        &&& self.num <= stacks[self.from - 1]@.len()
    }

    /// The stacks after the command, when the crane moves crates one at a time
    /// (`one_by_one`) or all at once.
    pub open spec fn moved(&self, stacks: Seq<Seq<char>>, one_by_one: bool) -> Seq<Seq<char>> {
        if self.from == self.to {
            stacks
        } else {
            let f = stacks[self.from - 1];
            let keep = f.subrange(0, f.len() - self.num);
            let lifted = f.subrange(f.len() - self.num, f.len() as int);
            let dropped = if one_by_one { reversed(lifted) } else { lifted };
            stacks.update(self.from - 1, keep).update(self.to - 1, stacks[self.to - 1] + dropped)
        }
    }

    /// Moves the crates one at a time, so that they land in reverse order.
    pub fn run9000(&self, stacks: &mut Vec<Vec<char>>)
        requires
            self.applicable(old(stacks)@),
        ensures
            final(stacks)@.map_values(|s: Vec<char>| s@) == self.moved(
                old(stacks)@.map_values(|s: Vec<char>| s@),
                true,
            ),
    {
        self.run(stacks, true)
    }

    /// Moves the crates all at once, so that they keep their order.
    pub fn run9001(&self, stacks: &mut Vec<Vec<char>>)
        requires
            self.applicable(old(stacks)@),
        ensures
            final(stacks)@.map_values(|s: Vec<char>| s@) == self.moved(
                old(stacks)@.map_values(|s: Vec<char>| s@),
                false,
            ),
    {
        self.run(stacks, false)
    }

    fn run(&self, stacks: &mut Vec<Vec<char>>, one_by_one: bool)
        requires
            self.applicable(old(stacks)@),
        ensures
            final(stacks)@.map_values(|s: Vec<char>| s@) == self.moved(
                old(stacks)@.map_values(|s: Vec<char>| s@),
                one_by_one,
            ),
    {
        let ghost before = stacks@.map_values(|s: Vec<char>| s@);
        if self.from == self.to {
            return;
        }
        let fi = (self.from - 1) as usize;
        let ti = (self.to - 1) as usize;
        let f = &stacks[fi];
        let cut = f.len() - self.num;
        let mut keep: Vec<char> = Vec::new();
        let mut i: usize = 0;
        while i < cut
            invariant
                0 <= i <= cut,
                cut <= f@.len(),
                keep@ == f@.subrange(0, i as int),
            decreases cut - i,
        {
            keep.push(f[i]);
            proof {
                assert(keep@ =~= f@.subrange(0, i + 1));
            }
            i = i + 1;
        }
        let ghost lifted = f@.subrange(cut as int, f@.len() as int);
        let mut dest: Vec<char> = Vec::new();
        let t = &stacks[ti];
        let mut j: usize = 0;
        while j < t.len()
            invariant
                0 <= j <= t@.len(),
                dest@ == t@.subrange(0, j as int),
            decreases t@.len() - j,
        {
            dest.push(t[j]);
            proof {
                assert(dest@ =~= t@.subrange(0, j + 1));
            }
            j = j + 1;
        }
        let ghost base = t@;
        let n = f.len();
        let mut k: usize = 0;
        while k < self.num
            invariant
                0 <= k <= self.num,
                n == f@.len(),
                cut == n - self.num,
                lifted == f@.subrange(cut as int, n as int),
                one_by_one ==> dest@ == base + reversed(lifted).subrange(0, k as int),
                !one_by_one ==> dest@ == base + lifted.subrange(0, k as int),
            decreases self.num - k,
        {
            let c = if one_by_one {
                f[n - 1 - k]
            } else {
                f[cut + k]
            };
            dest.push(c);
            proof {
                if one_by_one {
                    assert(dest@ =~= base + reversed(lifted).subrange(0, k + 1));
                } else {
                    assert(dest@ =~= base + lifted.subrange(0, k + 1));
                }
            }
            k = k + 1;
        }
        proof {
            assert(reversed(lifted).subrange(0, self.num as int) =~= reversed(lifted));
            assert(lifted.subrange(0, self.num as int) =~= lifted);
        }
        stacks.set(fi, keep);
        stacks.set(ti, dest);
        proof {
            assert(stacks@.map_values(|s: Vec<char>| s@) =~= self.moved(before, one_by_one));
        }
    }
}

/// The top crate of every stack.
pub fn top_crates(stacks: &Vec<Vec<char>>) -> (r: Vec<char>)
    requires
        forall|k: int| 0 <= k < stacks@.len() ==> (#[trigger] stacks@[k])@.len() > 0,
    ensures
        r@.len() == stacks@.len(),
        forall|k: int| 0 <= k < stacks@.len() ==> r@[k] == (#[trigger] stacks@[k])@.last(),
{
    let mut out: Vec<char> = Vec::new();
    let mut k: usize = 0;
    while k < stacks.len()
        invariant
            0 <= k <= stacks@.len(),
            forall|m: int| 0 <= m < stacks@.len() ==> (#[trigger] stacks@[m])@.len() > 0,
            out@.len() == k,
            forall|m: int| 0 <= m < k ==> out@[m] == (#[trigger] stacks@[m])@.last(),
        decreases stacks@.len() - k,
    {
        let s = &stacks[k];
        out.push(s[s.len() - 1]);
        k = k + 1;
    }
    out
}

} // verus!
