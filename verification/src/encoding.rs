//! Exchange-Masking-Addition System checks: a number stream where each
//! value past the preamble must be the sum of two of the previous
//! `look_back` values, and a contiguous run summing to a target.

use vstd::prelude::*;

verus! {

/// Two distinct earlier entries add up to `v`.
pub open spec fn has_pair(s: Seq<u64>, v: u64) -> bool {
    exists|i: int, j: int| 0 <= i < j < s.len() && s[i] + s[j] == v
}

/// The sum of a run of values.
pub open spec fn seq_sum(s: Seq<u64>) -> int
    decreases s.len(),
{
    if s.len() == 0 {
        0
    } else {
        seq_sum(s.drop_last()) + s.last()
    }
}

pub proof fn lemma_seq_sum_nonneg(s: Seq<u64>)
    ensures
        seq_sum(s) >= 0,
    decreases s.len(),
{
    if s.len() > 0 {
        lemma_seq_sum_nonneg(s.drop_last());
    }
}

/// A later slice of a run sums to no more than the whole run.
pub proof fn lemma_seq_sum_subrange(s: Seq<u64>, a: int, b: int)
    requires
        0 <= a <= b <= s.len(),
    ensures
        seq_sum(s.subrange(a, b)) <= seq_sum(s),
    decreases s.len(),
{
    if a == b {
        assert(s.subrange(a, b) =~= Seq::<u64>::empty());
        lemma_seq_sum_nonneg(s);
    } else if b < s.len() {
        lemma_seq_sum_subrange(s.drop_last(), a, b);
        assert(s.drop_last().subrange(a, b) =~= s.subrange(a, b));
        lemma_seq_sum_nonneg(s.subrange(a, b));
    } else if a > 0 {
        lemma_seq_sum_subrange(s.drop_last(), a, b - 1);
        assert(s.subrange(a, b).drop_last() =~= s.drop_last().subrange(a, b - 1));
        assert(seq_sum(s.subrange(a, b)) == seq_sum(s.drop_last().subrange(a, b - 1)) + s.last());
    } else {
        assert(s.subrange(a, b) =~= s);
    }
}

/// Whether two of the history values add up to `value`.
pub fn is_valid(history: &Vec<u64>, value: u64) -> (r: bool)
    requires
        forall|i: int, j: int|
            0 <= i < j < history@.len() ==> #[trigger] (history@[i] + history@[j]) <= u64::MAX,
    ensures
        r == has_pair(history@, value),
{
    let n = history.len();
    let mut i: usize = 0;
    while i < n
        invariant
            i <= n,
            n == history@.len(),
            forall|a: int, b: int|
                0 <= a < b < history@.len() ==> #[trigger] (history@[a] + history@[b])
                    <= u64::MAX,
            forall|a: int, b: int| 0 <= a < b < history@.len() && a < i ==> history@[a]
                + history@[b] != value,
        decreases n - i,
    {
        let mut j: usize = i + 1;
        while j < n
            invariant
                i < j <= n || (i + 1 == j && j > n),
                i < n,
                n == history@.len(),
                forall|a: int, b: int|
                    0 <= a < b < history@.len() ==> #[trigger] (history@[a] + history@[b])
                        <= u64::MAX,
                forall|b: int| i < b < j ==> history@[i as int] + history@[b] != value,
            decreases n - j,
        {
            if history[i] + history[j] == value {
                return true;
            }
            j = j + 1;
        }
        i = i + 1;
    }
    false
}

/// The first stream value (after the preamble) that is not the sum of two
/// of the `look_back` values before it, if any.
pub fn first_invalid(values: &Vec<u64>, look_back: usize) -> (r: Option<u64>)
    requires
        forall|i: int, j: int|
            0 <= i < j < values@.len() ==> #[trigger] (values@[i] + values@[j]) <= u64::MAX,
    ensures
        match r {
            Some(v) => exists|k: int|
                #![trigger values@[k]]
                look_back <= k < values@.len() && v == values@[k] && !has_pair(
                    values@.subrange(k - look_back, k),
                    values@[k],
                ) && forall|m: int|
                    look_back <= m < k ==> has_pair(
                        values@.subrange(m - look_back, m),
                        #[trigger] values@[m],
                    ),
            None => forall|m: int|
                look_back <= m < values@.len() ==> has_pair(
                    values@.subrange(m - look_back, m),
                    #[trigger] values@[m],
                ),
        },
{
    let ghost s = values@;
    let n = values.len();
    let mut k: usize = look_back;
    while k < n
        invariant
            look_back <= k,
            k <= n || (k == look_back && look_back > n),
            n == s.len(),
            s == values@,
            forall|i: int, j: int| 0 <= i < j < s.len() ==> #[trigger] (s[i] + s[j]) <= u64::MAX,
            forall|m: int|
                look_back <= m < k && m < s.len() ==> has_pair(
                    s.subrange(m - look_back, m),
                    #[trigger] s[m],
                ),
        decreases n - k,
    {
        let mut window: Vec<u64> = Vec::new();
        let mut i: usize = k - look_back;
        while i < k
            invariant
                look_back <= k,
                k - look_back <= i <= k,
                k < n,
                n == s.len(),
                s == values@,
                window@ == s.subrange(k - look_back, i as int),
            decreases k - i,
        {
            window.push(values[i]);
            proof {
                assert(window@ =~= s.subrange(k - look_back, i + 1));
            }
            i = i + 1;
        }
        proof {
            assert forall|a: int, b: int|
                0 <= a < b < window@.len() implies #[trigger] (window@[a] + window@[b])
                <= u64::MAX by {
                assert(window@[a] == s[k - look_back + a]);
                assert(window@[b] == s[k - look_back + b]);
                assert(s[k - look_back + a] + s[k - look_back + b] <= u64::MAX);
            }
        }
        if !is_valid(&window, values[k]) {
            return Some(values[k]);
        }
        k = k + 1;
    }
    None
}

/// A contiguous run of at least `size` values adding to `invalid`, scanned
/// window by window; the first matching window is returned.
pub fn has_weakness(values: &Vec<u64>, invalid: u64, size: usize) -> (r: Option<Vec<u64>>)
    requires
        size >= 1,
        seq_sum(values@) <= u64::MAX,
    ensures
        match r {
            Some(w) => exists|k: int|
                #![trigger values@.subrange(k, k + size)]
                0 <= k <= values@.len() - size && w@ == values@.subrange(k, k + size) && seq_sum(
                    values@.subrange(k, k + size),
                ) == invalid && forall|m: int|
                    0 <= m < k ==> seq_sum(#[trigger] values@.subrange(m, m + size)) != invalid,
            None => forall|m: int|
                0 <= m <= values@.len() - size ==> seq_sum(
                    #[trigger] values@.subrange(m, m + size),
                ) != invalid,
        },
{
    let ghost s = values@;
    let n = values.len();
    if n < size {
        return None;
    }
    let mut k: usize = 0;
    while k <= n - size
        invariant
            size >= 1,
            size <= n,
            k <= n - size + 1,
            n == s.len(),
            s == values@,
            seq_sum(s) <= u64::MAX,
            forall|m: int| 0 <= m < k ==> seq_sum(#[trigger] s.subrange(m, m + size)) != invalid,
        decreases n - k,
    {
        let mut window: Vec<u64> = Vec::new();
        let mut sum: u64 = 0;
        let mut i: usize = k;
        while i < k + size
            invariant
                k <= i <= k + size,
                k + size <= n,
                n == s.len(),
                s == values@,
                seq_sum(s) <= u64::MAX,
                window@ == s.subrange(k as int, i as int),
                sum == seq_sum(s.subrange(k as int, i as int)),
            decreases k + size - i,
        {
            proof {
                assert(s.subrange(k as int, i + 1).drop_last() =~= s.subrange(k as int, i as int));
                assert(s.subrange(k as int, i + 1).last() == s[i as int]);
                lemma_seq_sum_subrange(s, k as int, i + 1);
                lemma_seq_sum_nonneg(s.subrange(k as int, i as int));
            }
            window.push(values[i]);
            sum = sum + values[i];
            proof {
                assert(window@ =~= s.subrange(k as int, i + 1));
            }
            i = i + 1;
        }
        if sum == invalid {
            return Some(window);
        }
        k = k + 1;
    }
    None
}

} // verus!
