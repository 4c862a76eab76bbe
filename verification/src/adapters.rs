//! Joltage adapters: chains of adapters that each step up by one to three
//! jolts.

use vstd::prelude::*;

verus! {

/// The device's own joltage: the largest adapter in the bag.
pub fn device_jolt(contents: &Vec<usize>) -> (r: usize)
    requires
        contents@.len() >= 1,
    ensures
        contents@.contains(r),
        forall|i: int| 0 <= i < contents@.len() ==> contents@[i] <= r,
{
    let mut cur: usize = contents[0];
    let mut i: usize = 1;
    let n = contents.len();
    proof {
        assert(contents@.contains(contents@[0]));
    }
    while i < n
        invariant
            1 <= i <= n,
            n == contents@.len(),
            contents@.contains(cur),
            forall|j: int| 0 <= j < i ==> contents@[j] <= cur,
        decreases n - i,
    {
        if contents[i] > cur {
            cur = contents[i];
            proof {
                assert(contents@.contains(contents@[i as int]));
            }
        }
        i = i + 1;
    }
    cur
}

/// The adapters that could come right after joltage `current`: larger, but
/// by no more than three.
pub fn find_potential_next(left_contents: &Vec<usize>, current: usize) -> (r: Vec<usize>)
    ensures
        forall|k: int|
            0 <= k < r@.len() ==> current < (#[trigger] r@[k]) && r@[k] - current <= 3,
        forall|j: int|
            0 <= j < left_contents@.len() && current < (#[trigger] left_contents@[j])
                && left_contents@[j] - current <= 3 ==> r@.contains(left_contents@[j]),
        forall|k: int| 0 <= k < r@.len() ==> left_contents@.contains(#[trigger] r@[k]),
{
    let mut r: Vec<usize> = Vec::new();
    let mut i: usize = 0;
    let n = left_contents.len();
    while i < n
        invariant
            i <= n,
            n == left_contents@.len(),
            forall|k: int|
                0 <= k < r@.len() ==> current < (#[trigger] r@[k]) && r@[k] - current <= 3,
            forall|j: int|
                0 <= j < i && current < (#[trigger] left_contents@[j]) && left_contents@[j]
                    - current <= 3 ==> r@.contains(left_contents@[j]),
            forall|k: int| 0 <= k < r@.len() ==> left_contents@.contains(#[trigger] r@[k]),
        decreases n - i,
    {
        let v = left_contents[i];
        if v > current && v - current <= 3 {
            let ghost prev = r@;
            r.push(v);
            proof {
                assert(left_contents@.contains(left_contents@[i as int]));
                assert forall|j: int|
                    0 <= j < i + 1 && current < (#[trigger] left_contents@[j])
                        && left_contents@[j] - current <= 3 implies r@.contains(
                    left_contents@[j],
                ) by {
                    if j < i {
                        let w = choose|w: int|
                            0 <= w < prev.len() && prev[w] == left_contents@[j];
                        assert(r@[w] == left_contents@[j]);
                    } else {
                        assert(r@[r@.len() - 1] == left_contents@[j]);
                    }
                }
            }
        }
        i = i + 1;
    }
    r
}

/// A proposed chain is usable when it starts within three jolts of `base`,
/// steps by at most three, and ends within three of `device`.
pub open spec fn chain_ok(usable: Seq<usize>, base: int, device: int) -> bool {
    &&& usable.len() > 0 ==> usable[0] - base <= 3
    &&& forall|i: int| 0 <= i < usable.len() - 1 ==> usable[i + 1] - (#[trigger] usable[i]) <= 3
}

/// The adapters above the starting joltage, in order.
pub open spec fn usable_of(s: Seq<usize>, base: usize) -> Seq<usize> {
    s.filter(|v: usize| v > base)
}

/// Whether a sorted adapter list can link `base` to `device`, matching the
/// step-by-step walk over the entries above `base`.
pub fn is_valid(contents: &Vec<usize>, base: usize, device: usize) -> (r: bool)
    requires
        forall|i: int, j: int|
            0 <= i < j < contents@.len() ==> (#[trigger] contents@[i]) <= (#[trigger] contents@[j]),
    ensures
        r == ({
            let usable = usable_of(contents@, base);
            &&& contents@.len() > 0
            &&& usable.len() > 0
            &&& usable[0] - base <= 3
            &&& contents@[contents@.len() - 1] <= device
            &&& device - contents@[contents@.len() - 1] <= 3
            &&& chain_ok(usable, base as int, device as int)
        }),
{
    let n = contents.len();
    if n == 0 {
        return false;
    }
    let mut usable: Vec<usize> = Vec::new();
    let mut i: usize = 0;
    while i < n
        invariant
            i <= n,
            n == contents@.len(),
            forall|a: int, b: int|
                0 <= a < b < contents@.len() ==> (#[trigger] contents@[a]) <= (
                #[trigger] contents@[b]),
            usable@ == usable_of(contents@.subrange(0, i as int), base),
            forall|a: int, b: int|
                0 <= a < b < usable@.len() ==> (#[trigger] usable@[a]) <= (#[trigger] usable@[b]),
            forall|a: int| 0 <= a < usable@.len() ==> (#[trigger] usable@[a]) > base,
            usable@.len() > 0 ==> i > 0 && usable@[usable@.len() - 1] <= contents@[i - 1],
        decreases n - i,
    {
        let v = contents[i];
        proof {
            reveal_with_fuel(Seq::filter, 2);
            assert(contents@.subrange(0, i + 1).drop_last() =~= contents@.subrange(0, i as int));
            assert(contents@.subrange(0, i + 1).last() == contents@[i as int]);
        }
        if v > base {
            usable.push(v);
        }
        proof {
            assert(usable@ =~= usable_of(contents@.subrange(0, i + 1), base));
        }
        i = i + 1;
    }
    proof {
        assert(contents@.subrange(0, n as int) =~= contents@);
    }
    if usable.len() == 0 {
        return false;
    }
    if usable[0] - base > 3 {
        return false;
    }
    if device < contents[n - 1] || device - contents[n - 1] > 3 {
        return false;
    }
    let un = usable.len();
    let mut k: usize = 0;
    while k + 1 < un
        invariant
            k < un,
            un >= 1,
            un == usable@.len(),
            usable@ == usable_of(contents@, base),
            forall|a: int, b: int|
                0 <= a < b < usable@.len() ==> (#[trigger] usable@[a]) <= (#[trigger] usable@[b]),
            forall|j: int| 0 <= j < k ==> usable@[j + 1] - (#[trigger] usable@[j]) <= 3,
        decreases un - k,
    {
        if usable[k + 1] - usable[k] > 3 {
            proof {
                assert(usable@[k as int + 1] - usable@[k as int] > 3);
            }
            return false;
        }
        k = k + 1;
    }
    true
}

/// A partly built chain: what has been chosen so far and what is left.
pub struct Combi {
    pub combination: Vec<usize>,
    pub left: Vec<usize>,
}

impl Combi {
    /// The adapters of `left` that could extend the chain: above the
    /// chain's last entry (or zero for an empty chain) by at most three.
    pub fn find_potential_next(&self) -> (r: Vec<usize>)
        ensures
            ({
                let current: usize = if self.combination@.len() > 0 {
                    self.combination@[self.combination@.len() - 1]
                } else {
                    0usize
                };
                &&& forall|k: int|
                    0 <= k < r@.len() ==> current < (#[trigger] r@[k]) && r@[k] - current <= 3
                &&& forall|j: int|
                    0 <= j < self.left@.len() && current < (#[trigger] self.left@[j])
                        && self.left@[j] - current <= 3 ==> r@.contains(self.left@[j])
                &&& forall|k: int| 0 <= k < r@.len() ==> self.left@.contains(#[trigger] r@[k])
            }),
    {
        let current: usize = if self.combination.len() > 0 {
            self.combination[self.combination.len() - 1]
        } else {
            0
        };
        find_potential_next(&self.left, current)
    }
}

} // verus!
