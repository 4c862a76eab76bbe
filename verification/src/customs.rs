//! Customs declaration forms: per travel group, how many questions anyone
//! answered yes to, and how many everyone did.

use vstd::prelude::*;

verus! {

/// One group's tally: how many people it has, and for each question (a
/// letter) how many of them answered yes.
pub struct Group {
    pub size: usize,
    pub answers: Vec<(char, usize)>,
}

/// How often question `c` was answered yes, per the tally list.
pub open spec fn lookup_count(s: Seq<(char, usize)>, c: char) -> int {
    if exists|i: int| 0 <= i < s.len() && (#[trigger] s[i]).0 == c {
        s[choose|i: int| 0 <= i < s.len() && (#[trigger] s[i]).0 == c].1 as int
    } else {
        0
    }
}

pub open spec fn has_key(s: Seq<(char, usize)>, c: char) -> bool {
    exists|i: int| 0 <= i < s.len() && (#[trigger] s[i]).0 == c
}

/// Each question appears at most once in a tally.
pub open spec fn keys_distinct(s: Seq<(char, usize)>) -> bool {
    forall|i: int, j: int| 0 <= i < j < s.len() ==> (#[trigger] s[i]).0 != (#[trigger] s[j]).0
}

/// With distinct keys, any entry for `c` carries `lookup_count`.
proof fn lemma_lookup_at(s: Seq<(char, usize)>, c: char, i: int)
    requires
        keys_distinct(s),
        0 <= i < s.len(),
        s[i].0 == c,
    ensures
        lookup_count(s, c) == s[i].1,
{
    let j = choose|j: int| 0 <= j < s.len() && (#[trigger] s[j]).0 == c;
    if i < j {
        assert(s[i].0 != s[j].0);
    } else if j < i {
        assert(s[j].0 != s[i].0);
    }
}

/// Entries whose count equals `size`: questions everyone answered yes to.
pub open spec fn count_full(s: Seq<(char, usize)>, size: usize) -> int
    decreases s.len(),
{
    if s.len() == 0 {
        0
    } else {
        count_full(s.drop_last(), size) + if s.last().1 == size {
            1int
        } else {
            0int
        }
    }
}

impl Group {
    pub open spec fn wf(&self) -> bool {
        keys_distinct(self.answers@)
    }

    /// Record one more yes for a question; the new count is returned.
    pub fn insert(&mut self, question: &char) -> (r: usize)
        requires
            old(self).wf(),
            lookup_count(old(self).answers@, *question) + 1 <= usize::MAX,
        ensures
            final(self).wf(),
            final(self).size == old(self).size,
            r == lookup_count(old(self).answers@, *question) + 1,
            lookup_count(final(self).answers@, *question) == r,
            forall|c: char|
                c != *question ==> lookup_count(final(self).answers@, c) == lookup_count(
                    old(self).answers@,
                    c,
                ),
            forall|c: char|
                has_key(final(self).answers@, c) == (has_key(old(self).answers@, c) || c
                    == *question),
    {
        let ghost s0 = self.answers@;
        let mut i: usize = 0;
        let n = self.answers.len();
        while i < n
            invariant
                i <= n,
                n == s0.len(),
                s0 == self.answers@,
                s0 == old(self).answers@,
                self.size == old(self).size,
                lookup_count(s0, *question) + 1 <= usize::MAX,
                self.wf(),
                forall|k: int| 0 <= k < i ==> (#[trigger] s0[k]).0 != *question,
            decreases n - i,
        {
            if self.answers[i].0 == *question {
                let v = self.answers[i].1;
                proof {
                    lemma_lookup_at(s0, *question, i as int);
                }
                let q = *question;
                self.answers.set(i, (q, v + 1));
                proof {
                    let s1 = self.answers@;
                    assert(s1 == s0.update(i as int, (q, (v + 1) as usize)));
                    assert(keys_distinct(s1));
                    lemma_lookup_at(s1, q, i as int);
                    assert forall|c: char|
                        c != q implies lookup_count(s1, c) == lookup_count(s0, c) by {
                        if has_key(s0, c) {
                            let k = choose|k: int| 0 <= k < s0.len() && (#[trigger] s0[k]).0 == c;
                            assert(s1[k].0 == c);
                            lemma_lookup_at(s0, c, k);
                            lemma_lookup_at(s1, c, k);
                        } else {
                            assert(!has_key(s1, c)) by {
                                if has_key(s1, c) {
                                    let k = choose|k: int|
                                        0 <= k < s1.len() && (#[trigger] s1[k]).0 == c;
                                    assert(s0[k].0 == c);
                                }
                            }
                        }
                    }
                    assert forall|c: char|
                        has_key(s1, c) == (has_key(s0, c) || c == q) by {
                        if has_key(s1, c) {
                            let k = choose|k: int| 0 <= k < s1.len() && (#[trigger] s1[k]).0 == c;
                            if k != i {
                                assert(s0[k].0 == c);
                            }
                        }
                        if has_key(s0, c) {
                            let k = choose|k: int| 0 <= k < s0.len() && (#[trigger] s0[k]).0 == c;
                            if k != i {
                                assert(s1[k].0 == c);
                            } else {
                                assert(s1[k].0 == q && c == q);
                            }
                        }
                        if c == q {
                            assert(s1[i as int].0 == c);
                        }
                    }
                }
                return v + 1;
            }
            i = i + 1;
        }
        proof {
            assert(!has_key(s0, *question));
            assert(lookup_count(s0, *question) == 0);
        }
        let q = *question;
        self.answers.push((q, 1));
        proof {
            let s1 = self.answers@;
            assert forall|a: int, b: int|
                0 <= a < b < s1.len() implies (#[trigger] s1[a]).0 != (#[trigger] s1[b]).0 by {
                if b < s0.len() {
                    assert(s1[a] == s0[a] && s1[b] == s0[b]);
                } else {
                    assert(s1[a] == s0[a] && s1[b].0 == q);
                    assert(s0[a].0 != q);
                }
            }
            assert(s1[s1.len() - 1].0 == q);
            lemma_lookup_at(s1, q, s1.len() - 1);
            assert forall|c: char| c != q implies lookup_count(s1, c) == lookup_count(s0, c) by {
                if has_key(s0, c) {
                    let k = choose|k: int| 0 <= k < s0.len() && (#[trigger] s0[k]).0 == c;
                    assert(s1[k].0 == c);
                    lemma_lookup_at(s0, c, k);
                    lemma_lookup_at(s1, c, k);
                } else {
                    assert(!has_key(s1, c)) by {
                        if has_key(s1, c) {
                            let k = choose|k: int| 0 <= k < s1.len() && (#[trigger] s1[k]).0 == c;
                            assert(k < s0.len());
                            assert(s0[k].0 == c);
                        }
                    }
                }
            }
            assert forall|c: char| has_key(s1, c) == (has_key(s0, c) || c == q) by {
                if has_key(s1, c) {
                    let k = choose|k: int| 0 <= k < s1.len() && (#[trigger] s1[k]).0 == c;
                    if k < s0.len() {
                        assert(s0[k].0 == c);
                    }
                }
                if has_key(s0, c) {
                    let k = choose|k: int| 0 <= k < s0.len() && (#[trigger] s0[k]).0 == c;
                    assert(s1[k].0 == c);
                }
                if c == q {
                    assert(s1[s1.len() - 1].0 == c);
                }
            }
        }
        1
    }

    /// Forget everything, ready for the next group.
    pub fn clear(&mut self)
        ensures
            final(self).size == 0,
            final(self).answers@.len() == 0,
            final(self).wf(),
    {
        self.size = 0;
        self.answers.clear();
    }

    /// Questions anyone answered yes to.
    pub fn sum_anyone(&self) -> (r: usize)
        ensures
            r == self.answers@.len(),
    {
        self.answers.len()
    }

    /// Questions everyone answered yes to: their count equals the group
    /// size.
    pub fn sum_everyone(&self) -> (r: usize)
        ensures
            r == count_full(self.answers@, self.size),
    {
        let ghost s = self.answers@;
        let mut r: usize = 0;
        let mut i: usize = 0;
        let n = self.answers.len();
        while i < n
            invariant
                i <= n,
                n == s.len(),
                s == self.answers@,
                r <= i,
                r == count_full(s.subrange(0, i as int), self.size),
            decreases n - i,
        {
            proof {
                assert(s.subrange(0, i + 1).drop_last() =~= s.subrange(0, i as int));
            }
            if self.answers[i].1 == self.size {
                r = r + 1;
            }
            i = i + 1;
        }
        proof {
            assert(s.subrange(0, n as int) =~= s);
        }
        r
    }
}

/// The per-group "anyone" sums, added up.
pub open spec fn spec_sums_anyone(data: Seq<Group>) -> int
    decreases data.len(),
{
    if data.len() == 0 {
        0
    } else {
        spec_sums_anyone(data.drop_last()) + data.last().answers@.len()
    }
}

/// The per-group "everyone" sums, added up.
pub open spec fn spec_sums_everyone(data: Seq<Group>) -> int
    decreases data.len(),
{
    if data.len() == 0 {
        0
    } else {
        spec_sums_everyone(data.drop_last()) + count_full(
            data.last().answers@,
            data.last().size,
        )
    }
}

pub fn groups_sums_anyone(data: &Vec<Group>) -> (r: usize)
    requires
        spec_sums_anyone(data@) <= usize::MAX,
    ensures
        r == spec_sums_anyone(data@),
{
    let mut r: usize = 0;
    let mut i: usize = 0;
    let n = data.len();
    while i < n
        invariant
            i <= n,
            n == data@.len(),
            spec_sums_anyone(data@) <= usize::MAX,
            r == spec_sums_anyone(data@.subrange(0, i as int)),
        decreases n - i,
    {
        proof {
            assert(data@.subrange(0, i + 1).drop_last() =~= data@.subrange(0, i as int));
            lemma_sums_anyone_prefix(data@, i + 1);
        }
        r = r + data[i].sum_anyone();
        i = i + 1;
    }
    proof {
        assert(data@.subrange(0, n as int) =~= data@);
    }
    r
}

pub fn groups_sums_everyone(data: &Vec<Group>) -> (r: usize)
    requires
        spec_sums_everyone(data@) <= usize::MAX,
    ensures
        r == spec_sums_everyone(data@),
{
    let mut r: usize = 0;
    let mut i: usize = 0;
    let n = data.len();
    while i < n
        invariant
            i <= n,
            n == data@.len(),
            spec_sums_everyone(data@) <= usize::MAX,
            r == spec_sums_everyone(data@.subrange(0, i as int)),
        decreases n - i,
    {
        proof {
            assert(data@.subrange(0, i + 1).drop_last() =~= data@.subrange(0, i as int));
            lemma_sums_everyone_prefix(data@, i + 1);
            lemma_count_full_nonneg(data@[i as int].answers@, data@[i as int].size);
        }
        r = r + data[i].sum_everyone();
        i = i + 1;
    }
    proof {
        assert(data@.subrange(0, n as int) =~= data@);
    }
    r
}

proof fn lemma_count_full_nonneg(s: Seq<(char, usize)>, size: usize)
    ensures
        0 <= count_full(s, size) <= s.len(),
    decreases s.len(),
{
    if s.len() > 0 {
        lemma_count_full_nonneg(s.drop_last(), size);
    }
}

proof fn lemma_sums_anyone_nonneg(data: Seq<Group>, k: int)
    requires
        0 <= k <= data.len(),
    ensures
        spec_sums_anyone(data.subrange(0, k)) >= 0,
    decreases k,
{
    if k > 0 {
        lemma_sums_anyone_nonneg(data, k - 1);
        assert(data.subrange(0, k).drop_last() =~= data.subrange(0, k - 1));
    } else {
        assert(data.subrange(0, 0) =~= Seq::<Group>::empty());
    }
}

proof fn lemma_sums_everyone_nonneg(data: Seq<Group>, k: int)
    requires
        0 <= k <= data.len(),
    ensures
        spec_sums_everyone(data.subrange(0, k)) >= 0,
    decreases k,
{
    if k > 0 {
        lemma_sums_everyone_nonneg(data, k - 1);
        assert(data.subrange(0, k).drop_last() =~= data.subrange(0, k - 1));
        assert(data.subrange(0, k).last() == data[k - 1]);
        lemma_count_full_nonneg(data[k - 1].answers@, data[k - 1].size);
    } else {
        assert(data.subrange(0, 0) =~= Seq::<Group>::empty());
    }
}

/// A prefix sum never exceeds the whole sum.
proof fn lemma_sums_anyone_prefix(data: Seq<Group>, k: int)
    requires
        0 <= k <= data.len(),
    ensures
        spec_sums_anyone(data.subrange(0, k)) <= spec_sums_anyone(data),
        spec_sums_anyone(data.subrange(0, k)) >= 0,
    decreases data.len() - k,
{
    lemma_sums_anyone_nonneg(data, k);
    if k < data.len() {
        lemma_sums_anyone_prefix(data, k + 1);
        assert(data.subrange(0, k + 1).drop_last() =~= data.subrange(0, k));
    } else {
        assert(data.subrange(0, k) =~= data);
    }
}

proof fn lemma_sums_everyone_prefix(data: Seq<Group>, k: int)
    requires
        0 <= k <= data.len(),
    ensures
        spec_sums_everyone(data.subrange(0, k)) <= spec_sums_everyone(data),
        spec_sums_everyone(data.subrange(0, k)) >= 0,
    decreases data.len() - k,
{
    lemma_sums_everyone_nonneg(data, k);
    if k < data.len() {
        lemma_sums_everyone_prefix(data, k + 1);
        assert(data.subrange(0, k + 1).drop_last() =~= data.subrange(0, k));
        lemma_count_full_nonneg(data[k].answers@, data[k].size);
    } else {
        assert(data.subrange(0, k) =~= data);
    }
}

} // verus!
