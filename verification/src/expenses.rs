//! Expense report search: find a draw of a fixed number of entries that
//! adds up to a target, and multiply the entries found.

use vstd::prelude::*;
use vstd::multiset::Multiset;
use combinations::Combinations;

verus! {

broadcast use vstd::seq_lib::group_to_multiset_ensures;

/// The sum of a list of expenses.
pub open spec fn sum32(s: Seq<u32>) -> int
    decreases s.len(),
{
    if s.len() == 0 {
        0
    } else {
        sum32(s.drop_last()) + s.last()
    }
}

pub proof fn lemma_sum32_nonneg(s: Seq<u32>)
    ensures
        sum32(s) >= 0,
    decreases s.len(),
{
    if s.len() > 0 {
        lemma_sum32_nonneg(s.drop_last());
    }
}

proof fn lemma_sum32_prefix(s: Seq<u32>, k: int)
    requires
        0 <= k <= s.len(),
    ensures
        sum32(s.subrange(0, k)) <= sum32(s),
    decreases s.len() - k,
{
    if k < s.len() {
        lemma_sum32_prefix(s, k + 1);
        assert(s.subrange(0, k + 1).drop_last() =~= s.subrange(0, k));
        assert(s.subrange(0, k + 1).last() == s[k]);
    } else {
        assert(s.subrange(0, k) =~= s);
    }
}

/// Dropping one entry drops exactly its value from the sum.
proof fn lemma_sum32_remove(s: Seq<u32>, i: int)
    requires
        0 <= i < s.len(),
    ensures
        sum32(s) == sum32(s.remove(i)) + s[i],
    decreases s.len(),
{
    if i == s.len() - 1 {
        assert(s.remove(i) =~= s.drop_last());
    } else {
        assert(s.remove(i).drop_last() =~= s.drop_last().remove(i));
        assert(s.remove(i).last() == s.last());
        lemma_sum32_remove(s.drop_last(), i);
    }
}

/// Lists with the same entries (as a multiset) have the same sum.
pub proof fn lemma_sum32_permutation(a: Seq<u32>, b: Seq<u32>)
    requires
        a.to_multiset() == b.to_multiset(),
    ensures
        sum32(a) == sum32(b),
    decreases a.len(),
{
    if a.len() == 0 {
        assert(b.to_multiset().len() == 0);
        assert(b.len() == 0);
    } else {
        let x = a.last();
        assert(a.to_multiset().count(x) > 0) by {
            assert(a.contains(x));
        }
        assert(b.to_multiset().count(x) > 0);
        assert(b.contains(x));
        let i = choose|i: int| 0 <= i < b.len() && b[i] == x;
        assert(a.remove(a.len() - 1) =~= a.drop_last());
        assert(a.drop_last().to_multiset() =~= a.to_multiset().remove(x));
        assert(b.remove(i).to_multiset() =~= b.to_multiset().remove(x));
        lemma_sum32_permutation(a.drop_last(), b.remove(i));
        lemma_sum32_remove(b, i);
    }
}

/// A draw (a sub-multiset) sums to no more than the whole report.
pub proof fn lemma_sum32_subset(w: Seq<u32>, v: Seq<u32>)
    requires
        w.to_multiset().subset_of(v.to_multiset()),
    ensures
        sum32(w) <= sum32(v),
    decreases w.len(),
{
    if w.len() == 0 {
        lemma_sum32_nonneg(v);
    } else {
        let x = w.last();
        assert(w.to_multiset().count(x) > 0) by {
            assert(w.contains(x));
        }
        assert(v.to_multiset().count(x) > 0);
        assert(v.contains(x));
        let i = choose|i: int| 0 <= i < v.len() && v[i] == x;
        assert(w.remove(w.len() - 1) =~= w.drop_last());
        assert(w.drop_last().to_multiset() =~= w.to_multiset().remove(x));
        assert(v.remove(i).to_multiset() =~= v.to_multiset().remove(x));
        assert(w.drop_last().to_multiset().subset_of(v.remove(i).to_multiset())) by {
            assert forall|y: u32|
                w.to_multiset().remove(x).count(y) <= v.to_multiset().remove(x).count(
                    y,
                ) by {
                assert(w.to_multiset().count(y) <= v.to_multiset().count(y));
            }
        }
        lemma_sum32_subset(w.drop_last(), v.remove(i));
        lemma_sum32_remove(v, i);
    }
}

/// Relies on combinations::Combinations: iterating it yields every distinct
/// way of drawing `len` values from the input (a sub-multiset of that
/// size), each exactly once; `new` demands `1 <= len < values.len()`.
#[verifier::external_body]
fn combinations_of(values: &Vec<u32>, len: usize) -> (r: Vec<Vec<u32>>)
    requires
        1 <= len < values@.len(),
    ensures
        forall|k: int|
            0 <= k < r@.len() ==> (#[trigger] r@[k])@.len() == len
                && r@[k]@.to_multiset().subset_of(values@.to_multiset()),
        forall|m: Multiset<u32>|
            #![trigger m.subset_of(values@.to_multiset())]
            m.len() == len && m.subset_of(values@.to_multiset()) ==> exists|k: int|
                0 <= k < r@.len() && (#[trigger] r@[k])@.to_multiset() == m,
{
    Combinations::new(values.clone(), len).collect()
}

/// Search every draw of `window` entries for one that adds up to
/// `entries_sum`; the entries of such a draw are returned.
pub fn handle_expenses(expenses: &Vec<u32>, entries_sum: u32, window: usize) -> (r: Option<
    Vec<u32>,
>)
    requires
        1 <= window < expenses@.len(),
        sum32(expenses@) <= u32::MAX,
    ensures
        match r {
            Some(w) => w@.len() == window && w@.to_multiset().subset_of(expenses@.to_multiset())
                && sum32(w@) == entries_sum,
            None => forall|w: Seq<u32>|
                #![trigger w.to_multiset().subset_of(expenses@.to_multiset())]
                w.len() == window && w.to_multiset().subset_of(expenses@.to_multiset()) ==> sum32(
                    w,
                ) != entries_sum,
        },
{
    let combos = combinations_of(expenses, window);
    let n = combos.len();
    let mut k: usize = 0;
    while k < n
        invariant
            k <= n,
            n == combos@.len(),
            sum32(expenses@) <= u32::MAX,
            forall|j: int|
                0 <= j < combos@.len() ==> (#[trigger] combos@[j])@.len() == window
                    && combos@[j]@.to_multiset().subset_of(expenses@.to_multiset()),
            forall|m: Multiset<u32>|
                #![trigger m.subset_of(expenses@.to_multiset())]
                m.len() == window && m.subset_of(expenses@.to_multiset()) ==> exists|j: int|
                    0 <= j < combos@.len() && (#[trigger] combos@[j])@.to_multiset() == m,
            forall|j: int| 0 <= j < k ==> sum32((#[trigger] combos@[j])@) != entries_sum,
        decreases n - k,
    {
        let win = &combos[k];
        let mut sum: u32 = 0;
        let mut i: usize = 0;
        let m = win.len();
        proof {
            lemma_sum32_subset(win@, expenses@);
        }
        while i < m
            invariant
                i <= m,
                m == win@.len(),
                sum32(win@) <= u32::MAX,
                sum == sum32(win@.subrange(0, i as int)),
            decreases m - i,
        {
            proof {
                assert(win@.subrange(0, i + 1).drop_last() =~= win@.subrange(0, i as int));
                assert(win@.subrange(0, i + 1).last() == win@[i as int]);
                lemma_sum32_prefix(win@, i + 1);
                lemma_sum32_nonneg(win@.subrange(0, i as int));
            }
            sum = sum + win[i];
            i = i + 1;
        }
        proof {
            assert(win@.subrange(0, m as int) =~= win@);
        }
        if sum == entries_sum {
            let mut out: Vec<u32> = Vec::new();
            let mut j: usize = 0;
            while j < m
                invariant
                    j <= m,
                    m == win@.len(),
                    out@ == win@.subrange(0, j as int),
                decreases m - j,
            {
                out.push(win[j]);
                proof {
                    assert(out@ =~= win@.subrange(0, j + 1));
                }
                j = j + 1;
            }
            proof {
                assert(out@ =~= win@);
            }
            return Some(out);
        }
        k = k + 1;
    }
    proof {
        assert forall|w: Seq<u32>|
            #![trigger w.to_multiset().subset_of(expenses@.to_multiset())]
            w.len() == window && w.to_multiset().subset_of(expenses@.to_multiset()) implies sum32(
            w,
        ) != entries_sum by {
            assert(w.to_multiset().len() == window);
            let j = choose|j: int|
                0 <= j < combos@.len() && (#[trigger] combos@[j])@.to_multiset()
                    == w.to_multiset();
            lemma_sum32_permutation(w, combos@[j]@);
        }
    }
    None
}

/// Multiply the entries of a draw.
pub fn mult(v: &Vec<u32>) -> (r: u32)
    requires
        forall|k: int| 0 <= k <= v@.len() ==> prefix_product(v@, k) <= u32::MAX,
    ensures
        r == prefix_product(v@, v@.len() as int),
{
    let mut total: u32 = 1;
    let mut i: usize = 0;
    let n = v.len();
    while i < n
        invariant
            i <= n,
            n == v@.len(),
            forall|k: int| 0 <= k <= v@.len() ==> prefix_product(v@, k) <= u32::MAX,
            total == prefix_product(v@, i as int),
        decreases n - i,
    {
        proof {
            lemma_prefix_product_nonneg(v@, i as int);
            assert(prefix_product(v@, i as int + 1) == prefix_product(v@, i as int) * v@[i as int]);
        }
        total = total * v[i];
        i = i + 1;
    }
    total
}

/// The product of the first `k` entries.
pub open spec fn prefix_product(s: Seq<u32>, k: int) -> int
    decreases k,
{
    if k <= 0 {
        1
    } else {
        prefix_product(s, k - 1) * s[k - 1]
    }
}

proof fn lemma_prefix_product_nonneg(s: Seq<u32>, k: int)
    ensures
        prefix_product(s, k) >= 0,
    decreases k,
{
    if k > 0 {
        lemma_prefix_product_nonneg(s, k - 1);
        assert(prefix_product(s, k - 1) * s[k - 1] >= 0) by (nonlinear_arith)
            requires
                prefix_product(s, k - 1) >= 0,
                s[k - 1] >= 0,
        ;
    }
}

} // verus!
