//! Ticket field rules: named fields with allowed ranges, and the scanning
//! error rate of nearby tickets (the sum of values no rule accepts).

use vstd::prelude::*;

verus! {

/// One field rule: a name and the value ranges it accepts.
pub struct Rule {
    pub field: Vec<char>,
    pub ranges: Vec<(usize, usize)>,
}

/// Whether some range of the rule covers the value.
pub open spec fn rule_accepts(r: Rule, value: usize) -> bool {
    exists|i: int|
        0 <= i < r.ranges@.len() && (#[trigger] r.ranges@[i]).0 <= value && value
            <= r.ranges@[i].1
}

/// Whether any rule accepts the value.
pub open spec fn value_valid(rules: Seq<Rule>, value: usize) -> bool {
    exists|i: int| 0 <= i < rules.len() && rule_accepts(#[trigger] rules[i], value)
}

/// The sum of the ticket's values that no rule accepts.
pub open spec fn spec_err_rate(rules: Seq<Rule>, ticket: Seq<usize>) -> int
    decreases ticket.len(),
{
    if ticket.len() == 0 {
        0
    } else {
        spec_err_rate(rules, ticket.drop_last()) + (if value_valid(rules, ticket.last()) {
            0int
        } else {
            ticket.last() as int
        })
    }
}

proof fn lemma_err_rate_nonneg(rules: Seq<Rule>, ticket: Seq<usize>)
    ensures
        spec_err_rate(rules, ticket) >= 0,
    decreases ticket.len(),
{
    if ticket.len() > 0 {
        lemma_err_rate_nonneg(rules, ticket.drop_last());
    }
}

proof fn lemma_err_rate_prefix(rules: Seq<Rule>, ticket: Seq<usize>, k: int)
    requires
        0 <= k <= ticket.len(),
    ensures
        0 <= spec_err_rate(rules, ticket.subrange(0, k)) <= spec_err_rate(rules, ticket),
    decreases ticket.len() - k,
{
    lemma_err_rate_nonneg(rules, ticket.subrange(0, k));
    if k < ticket.len() {
        lemma_err_rate_prefix(rules, ticket, k + 1);
        assert(ticket.subrange(0, k + 1).drop_last() =~= ticket.subrange(0, k));
        assert(ticket.subrange(0, k + 1).last() == ticket[k]);
    } else {
        assert(ticket.subrange(0, k) =~= ticket);
    }
}

/// The error rates of all nearby tickets, added up.
pub open spec fn spec_total_err(rules: Seq<Rule>, tickets: Seq<Vec<usize>>) -> int
    decreases tickets.len(),
{
    if tickets.len() == 0 {
        0
    } else {
        spec_total_err(rules, tickets.drop_last()) + spec_err_rate(rules, tickets.last()@)
    }
}

proof fn lemma_total_err_nonneg(rules: Seq<Rule>, tickets: Seq<Vec<usize>>)
    ensures
        spec_total_err(rules, tickets) >= 0,
    decreases tickets.len(),
{
    if tickets.len() > 0 {
        lemma_total_err_nonneg(rules, tickets.drop_last());
        lemma_err_rate_nonneg(rules, tickets.last()@);
    }
}

proof fn lemma_total_err_prefix(rules: Seq<Rule>, tickets: Seq<Vec<usize>>, k: int)
    requires
        0 <= k <= tickets.len(),
    ensures
        0 <= spec_total_err(rules, tickets.subrange(0, k)) <= spec_total_err(rules, tickets),
    decreases tickets.len() - k,
{
    lemma_total_err_nonneg(rules, tickets.subrange(0, k));
    if k < tickets.len() {
        lemma_total_err_prefix(rules, tickets, k + 1);
        assert(tickets.subrange(0, k + 1).drop_last() =~= tickets.subrange(0, k));
        assert(tickets.subrange(0, k + 1).last() == tickets[k]);
        lemma_err_rate_nonneg(rules, tickets[k]@);
    } else {
        assert(tickets.subrange(0, k) =~= tickets);
    }
}

impl Rule {
    /// Whether the value falls in one of this rule's ranges.
    pub fn is_valid(&self, value: usize) -> (r: bool)
        ensures
            r == rule_accepts(*self, value),
    {
        let n = self.ranges.len();
        let mut i: usize = 0;
        while i < n
            invariant
                i <= n,
                n == self.ranges@.len(),
                forall|j: int|
                    0 <= j < i ==> !((#[trigger] self.ranges@[j]).0 <= value && value
                        <= self.ranges@[j].1),
            decreases n - i,
        {
            let (lo, hi) = self.ranges[i];
            if value >= lo && value <= hi {
                return true;
            }
            i = i + 1;
        }
        false
    }
}

/// The whole puzzle input: the rules, one's own ticket, and the nearby
/// tickets.
pub struct Input {
    pub rules: Vec<Rule>,
    pub my_ticket: Vec<usize>,
    pub nearby_tickets: Vec<Vec<usize>>,
}

impl Input {
    /// The sum of this ticket's values that no rule accepts.
    pub fn ticket_err_rate(&self, ticket: &Vec<usize>) -> (r: usize)
        requires
            spec_err_rate(self.rules@, ticket@) <= usize::MAX,
        ensures
            r == spec_err_rate(self.rules@, ticket@),
    {
        let ghost t = ticket@;
        let mut err: usize = 0;
        let mut i: usize = 0;
        let n = ticket.len();
        while i < n
            invariant
                i <= n,
                n == t.len(),
                t == ticket@,
                spec_err_rate(self.rules@, t) <= usize::MAX,
                err == spec_err_rate(self.rules@, t.subrange(0, i as int)),
            decreases n - i,
        {
            let v = ticket[i];
            let mut valid = false;
            let mut j: usize = 0;
            let rn = self.rules.len();
            while j < rn && !valid
                invariant
                    j <= rn,
                    rn == self.rules@.len(),
                    v == t[i as int],
                    i < n,
                    n == t.len(),
                    t == ticket@,
                    valid ==> value_valid(self.rules@, v),
                    !valid ==> forall|k: int|
                        0 <= k < j ==> !rule_accepts(#[trigger] self.rules@[k], v),
                decreases rn - j,
            {
                if self.rules[j].is_valid(v) {
                    valid = true;
                }
                j = j + 1;
            }
            proof {
                if !valid {
                    assert(!value_valid(self.rules@, v)) by {
                        if value_valid(self.rules@, v) {
                            let k = choose|k: int|
                                0 <= k < self.rules@.len() && rule_accepts(
                                    #[trigger] self.rules@[k],
                                    v,
                                );
                            assert(!rule_accepts(self.rules@[k], v));
                        }
                    }
                }
                assert(t.subrange(0, i + 1).drop_last() =~= t.subrange(0, i as int));
                assert(t.subrange(0, i + 1).last() == t[i as int]);
                lemma_err_rate_prefix(self.rules@, t, i + 1);
                lemma_err_rate_prefix(self.rules@, t.subrange(0, i as int), i as int);
                assert(t.subrange(0, i as int).subrange(0, i as int) =~= t.subrange(0, i as int));
            }
            if !valid {
                err = err + v;
            }
            i = i + 1;
        }
        proof {
            assert(t.subrange(0, n as int) =~= t);
        }
        err
    }

    /// The scanning error rate: every nearby ticket's invalid values,
    /// added up.
    pub fn compute_err_rate(&self) -> (r: usize)
        requires
            spec_total_err(self.rules@, self.nearby_tickets@) <= usize::MAX,
        ensures
            r == spec_total_err(self.rules@, self.nearby_tickets@),
    {
        let ghost ts = self.nearby_tickets@;
        let mut total: usize = 0;
        let mut i: usize = 0;
        let n = self.nearby_tickets.len();
        while i < n
            invariant
                i <= n,
                n == ts.len(),
                ts == self.nearby_tickets@,
                spec_total_err(self.rules@, ts) <= usize::MAX,
                total == spec_total_err(self.rules@, ts.subrange(0, i as int)),
            decreases n - i,
        {
            proof {
                assert(ts.subrange(0, i + 1).drop_last() =~= ts.subrange(0, i as int));
                assert(ts.subrange(0, i + 1).last() == ts[i as int]);
                lemma_total_err_prefix(self.rules@, ts, i + 1);
                lemma_total_err_prefix(self.rules@, ts.subrange(0, i as int), i as int);
                assert(ts.subrange(0, i as int).subrange(0, i as int) =~= ts.subrange(0, i as int));
                lemma_err_rate_prefix(self.rules@, ts[i as int]@, ts[i as int]@.len() as int);
                assert(ts[i as int]@.subrange(0, ts[i as int]@.len() as int) =~= ts[i as int]@);
            }
            let e = self.ticket_err_rate(&self.nearby_tickets[i]);
            total = total + e;
            i = i + 1;
        }
        proof {
            assert(ts.subrange(0, n as int) =~= ts);
        }
        total
    }
}

} // verus!
