//! Message rules: numbered grammar rules that are either a literal or one
//! or two sequences of references to other rules; a rule is compiled to a
//! regular expression and matched against candidate messages.

use vstd::prelude::*;
use crate::text::{all_digits, digits_value, space_split, split_spaces, parse_usize_chars};

verus! {

/// One grammar rule. A literal rule has a non-empty `value`; otherwise the
/// rule matches the concatenation of the rules in `ref_a`, or (when
/// `ref_b` is non-empty) alternatively the concatenation of `ref_b`.
pub struct Rule {
    pub name: usize,
    pub value: Vec<char>,
    pub ref_a: Vec<usize>,
    pub ref_b: Vec<usize>,
}

/// Rule tokens are the rule name followed by a colon, then either one
/// quoted literal or numbers with at most one `|` separator.
pub open spec fn tok_is_pipe(t: Seq<char>) -> bool {
    t =~= seq!['|']
}

/// The numbers a run of tokens denotes, when every token is a digit run.
pub open spec fn toks_nums(toks: Seq<Seq<char>>) -> Option<Seq<usize>>
    decreases toks.len(),
{
    if toks.len() == 0 {
        Some(Seq::empty())
    } else if all_digits(toks.last()) && digits_value(toks.last()) <= usize::MAX {
        match toks_nums(toks.drop_last()) {
            Some(rest) => Some(rest.push(digits_value(toks.last()) as usize)),
            None => None,
        }
    } else {
        None
    }
}

/// What a well-formed rule line denotes: tokens are `N:` then either a
/// quoted one-character literal or reference numbers split by at most one
/// pipe.
pub open spec fn spec_parse_rule(toks: Seq<Seq<char>>) -> Option<(usize, Seq<char>, Seq<usize>, Seq<usize>)> {
    if toks.len() < 2 {
        None
    } else {
        let head = toks[0];
        if !(head.len() >= 2 && head.last() == ':' && all_digits(head.drop_last())
            && digits_value(head.drop_last()) <= usize::MAX) {
            None
        } else {
            let name = digits_value(head.drop_last()) as usize;
            let rest = toks.subrange(1, toks.len() as int);
            if rest[0].len() >= 1 && rest[0][0] == '"' {
                if rest.len() == 1 && rest[0].len() >= 3 && rest[0].last() == '"' {
                    Some((name, rest[0].subrange(1, rest[0].len() - 1), Seq::empty(), Seq::empty()))
                } else {
                    None
                }
            } else {
                let pipe = choose|p: int| 0 <= p < rest.len() && tok_is_pipe(#[trigger] rest[p]);
                if exists|p: int| 0 <= p < rest.len() && tok_is_pipe(#[trigger] rest[p]) {
                    match (toks_nums(rest.subrange(0, pipe)), toks_nums(
                        rest.subrange(pipe + 1, rest.len() as int),
                    )) {
                        (Some(a), Some(b)) => if a.len() > 0 && b.len() > 0 {
                            Some((name, Seq::empty(), a, b))
                        } else {
                            None
                        },
                        _ => None,
                    }
                } else {
                    match toks_nums(rest) {
                        Some(a) => if a.len() > 0 {
                            Some((name, Seq::empty(), a, Seq::empty()))
                        } else {
                            None
                        },
                        None => None,
                    }
                }
            }
        }
    }
}

/// A token list containing a token that is not a digit run denotes nothing.
proof fn lemma_toks_nums_bad(s: Seq<Seq<char>>, i: int)
    requires
        0 <= i < s.len(),
        !(all_digits(s[i]) && digits_value(s[i]) <= usize::MAX),
    ensures
        toks_nums(s) is None,
    decreases s.len(),
{
    if i < s.len() - 1 {
        assert(s.drop_last()[i] == s[i]);
        lemma_toks_nums_bad(s.drop_last(), i);
    }
}

proof fn lemma_toks_nums_snoc(toks: Seq<Seq<char>>, t: Seq<char>)
    ensures
        toks_nums(toks.push(t)) == (if all_digits(t) && digits_value(t) <= usize::MAX {
            match toks_nums(toks) {
                Some(rest) => Some(rest.push(digits_value(t) as usize)),
                None => None,
            }
        } else {
            None::<Seq<usize>>
        }),
{
    assert(toks.push(t).drop_last() =~= toks);
    assert(toks.push(t).last() == t);
}

impl Rule {
    /// Parse one rule line. Lines that do not follow the rule grammar are
    /// rejected.
    pub fn from_string(line: &str) -> (r: Option<Rule>)
        ensures
            match r {
                Some(rule) => spec_parse_rule(space_split(line@)) matches Some(p) && rule.name
                    == p.0 && rule.value@ == p.1 && rule.ref_a@ == p.2 && rule.ref_b@ == p.3,
                None => spec_parse_rule(space_split(line@)) is None,
            },
    {
        let toks = split_spaces(line);
        let ghost ts = space_split(line@);
        proof {
            assert(ts.len() == toks@.len());
            assert(forall|i: int| 0 <= i < toks@.len() ==> (#[trigger] toks@[i])@ == ts[i]);
        }
        if toks.len() < 2 {
            return None;
        }
        let head = &toks[0];
        let hn = head.len();
        if hn < 2 || head[hn - 1] != ':' {
            return None;
        }
        let mut name_digits: Vec<char> = Vec::new();
        let mut i: usize = 0;
        while i < hn - 1
            invariant
                i <= hn - 1,
                hn == head@.len(),
                hn >= 2,
                name_digits@ == head@.subrange(0, i as int),
            decreases hn - 1 - i,
        {
            name_digits.push(head[i]);
            proof {
                assert(name_digits@ =~= head@.subrange(0, i + 1));
            }
            i = i + 1;
        }
        proof {
            assert(name_digits@ =~= head@.drop_last());
        }
        let name = match parse_usize_chars(&name_digits) {
            Some(v) => v,
            None => {
                return None;
            },
        };
        let first = &toks[1];
        if first.len() >= 1 && first[0] == '"' {
            if !(toks.len() == 2 && first.len() >= 3 && first[first.len() - 1] == '"') {
                return None;
            }
            let mut value: Vec<char> = Vec::new();
            let mut k: usize = 1;
            let fn_ = first.len();
            while k < fn_ - 1
                invariant
                    1 <= k <= fn_ - 1,
                    fn_ == first@.len(),
                    fn_ >= 3,
                    value@ == first@.subrange(1, k as int),
                decreases fn_ - 1 - k,
            {
                value.push(first[k]);
                proof {
                    assert(value@ =~= first@.subrange(1, k + 1));
                }
                k = k + 1;
            }
            proof {
                let rest = ts.subrange(1, ts.len() as int);
                assert(rest[0] == ts[1]);
                assert(rest.len() == 1);
                assert(value@ =~= rest[0].subrange(1, rest[0].len() - 1));
            }
            return Some(Rule { name, value, ref_a: Vec::new(), ref_b: Vec::new() });
        }
        // reference lists, with at most one pipe separator
        let ghost rest = ts.subrange(1, ts.len() as int);
        proof {
            assert(head@ == ts[0]);
            assert(first@ == ts[1]);
            assert(rest[0] == ts[1]);
            assert(rest.len() == ts.len() - 1);
            assert(rest.subrange(0, 0) =~= Seq::<Seq<char>>::empty());
        }
        let mut ra: Vec<usize> = Vec::new();
        let mut rb: Vec<usize> = Vec::new();
        let mut pipe_at: Option<usize> = None;
        let n = toks.len();
        let mut j: usize = 1;
        while j < n
            invariant
                1 <= j <= n,
                n == toks@.len(),
                n == ts.len(),
                n >= 2,
                ts == space_split(line@),
                ts[0].len() >= 2 && ts[0].last() == ':',
                all_digits(ts[0].drop_last()),
                digits_value(ts[0].drop_last()) <= usize::MAX,
                name == digits_value(ts[0].drop_last()),
                !(ts[1].len() >= 1 && ts[1][0] == '"'),
                rest == ts.subrange(1, ts.len() as int),
                forall|i: int| 0 <= i < toks@.len() ==> (#[trigger] toks@[i])@ == ts[i],
                match pipe_at {
                    Some(p) => 1 <= p < j && tok_is_pipe(rest[p - 1]) && (forall|q: int|
                        0 <= q < j - 1 && q != p - 1 ==> !tok_is_pipe(#[trigger] rest[q]))
                        && Some(ra@) == toks_nums(rest.subrange(0, p - 1)) && Some(rb@)
                        == toks_nums(rest.subrange(p as int, j - 1)),
                    None => (forall|q: int| 0 <= q < j - 1 ==> !tok_is_pipe(#[trigger] rest[q]))
                        && Some(ra@) == toks_nums(rest.subrange(0, j - 1)) && rb@.len() == 0,
                },
            decreases n - j,
        {
            let t = &toks[j];
            proof {
                assert(t@ == ts[j as int]);
                assert(rest[j - 1] == ts[j as int]);
            }
            if t.len() == 1 && t[0] == '|' {
                proof {
                    assert(t@ =~= seq!['|']);
                    assert(tok_is_pipe(rest[j - 1]));
                }
                match pipe_at {
                    Some(p) => {
                        proof {
                            let p1 = p - 1;
                            let b2 = j - 1;
                            assert(tok_is_pipe(rest[p1]) && tok_is_pipe(rest[b2]) && p1 != b2);
                            assert(!all_digits(seq!['|'])) by {
                                assert(seq!['|'][0] == '|');
                            }
                            let pc = choose|q: int|
                                0 <= q < rest.len() && tok_is_pipe(#[trigger] rest[q]);
                            let other = if pc == p1 {
                                b2
                            } else {
                                p1
                            };
                            assert(tok_is_pipe(rest[other]) && other != pc);
                            assert(!(all_digits(rest[other]) && digits_value(rest[other])
                                <= usize::MAX));
                            if other < pc {
                                assert(rest.subrange(0, pc)[other] == rest[other]);
                                lemma_toks_nums_bad(rest.subrange(0, pc), other);
                            } else {
                                assert(rest.subrange(pc + 1, rest.len() as int)[other - pc - 1]
                                    == rest[other]);
                                lemma_toks_nums_bad(
                                    rest.subrange(pc + 1, rest.len() as int),
                                    other - pc - 1,
                                );
                            }
                        }
                        return None;
                    },
                    None => {
                        pipe_at = Some(j);
                        proof {
                            assert(rest.subrange(j as int, j as int) =~= Seq::<Seq<char>>::empty());
                        }
                    },
                }
            } else {
                proof {
                    assert(!tok_is_pipe(rest[j - 1])) by {
                        if tok_is_pipe(rest[j - 1]) {
                            assert(rest[j - 1].len() == 1 && rest[j - 1][0] == '|');
                        }
                    }
                }
                let v = match parse_usize_chars(t) {
                    Some(v) => v,
                    None => {
                        proof {
                            let bad = j - 1;
                            assert(!(all_digits(rest[bad]) && digits_value(rest[bad])
                                <= usize::MAX));
                            if exists|p: int| 0 <= p < rest.len() && tok_is_pipe(
                                #[trigger] rest[p],
                            ) {
                                let pc = choose|p: int|
                                    0 <= p < rest.len() && tok_is_pipe(#[trigger] rest[p]);
                                assert(bad != pc);
                                if bad < pc {
                                    assert(rest.subrange(0, pc)[bad] == rest[bad]);
                                    lemma_toks_nums_bad(rest.subrange(0, pc), bad);
                                } else {
                                    assert(rest.subrange(pc + 1, rest.len() as int)[bad - pc - 1]
                                        == rest[bad]);
                                    lemma_toks_nums_bad(
                                        rest.subrange(pc + 1, rest.len() as int),
                                        bad - pc - 1,
                                    );
                                }
                            } else {
                                lemma_toks_nums_bad(rest, bad);
                            }
                        }
                        return None;
                    },
                };
                match pipe_at {
                    Some(p) => {
                        rb.push(v);
                        proof {
                            let ghost pp = p as int;
                            lemma_toks_nums_snoc(rest.subrange(pp, j - 1), rest[j - 1]);
                            assert(rest.subrange(pp, j - 1).push(rest[j - 1]) =~= rest.subrange(
                                pp,
                                j as int,
                            ));
                        }
                    },
                    None => {
                        ra.push(v);
                        proof {
                            lemma_toks_nums_snoc(rest.subrange(0, j - 1), rest[j - 1]);
                            assert(rest.subrange(0, j - 1).push(rest[j - 1]) =~= rest.subrange(
                                0,
                                j as int,
                            ));
                        }
                    },
                }
            }
            j = j + 1;
        }
        proof {
            match pipe_at {
                Some(p) => {
                    assert(tok_is_pipe(rest[p - 1]));
                    assert(exists|q: int| 0 <= q < rest.len() && tok_is_pipe(#[trigger] rest[q]));
                    let pc = choose|q: int| 0 <= q < rest.len() && tok_is_pipe(#[trigger] rest[q]);
                    assert(pc == p - 1) by {
                        if pc != p - 1 {
                            assert(!tok_is_pipe(rest[pc]));
                        }
                    }
                    assert(rest.subrange(p as int, (n - 1) as int) =~= rest.subrange(
                        pc + 1,
                        rest.len() as int,
                    ));
                },
                None => {
                    assert(!exists|q: int| 0 <= q < rest.len() && tok_is_pipe(#[trigger] rest[q]))
                        by {
                        if exists|q: int| 0 <= q < rest.len() && tok_is_pipe(#[trigger] rest[q]) {
                            let q = choose|q: int|
                                0 <= q < rest.len() && tok_is_pipe(#[trigger] rest[q]);
                            assert(!tok_is_pipe(rest[q]));
                        }
                    }
                    assert(rest.subrange(0, (n - 1) as int) =~= rest);
                },
            }
        }
        if ra.len() == 0 {
            return None;
        }
        match pipe_at {
            Some(_) => {
                if rb.len() == 0 {
                    return None;
                }
            },
            None => {},
        }
        Some(Rule { name, value: Vec::new(), ref_a: ra, ref_b: rb })
    }
}


/// Whether `pattern` is a valid regular expression. The result of
/// `regex::Regex::new` depends on the pattern alone.
pub uninterp spec fn regex_valid(pattern: Seq<char>) -> bool;

/// Whether the regular expression `pattern` matches somewhere in `text`.
/// The result of `regex::Regex::is_match` depends on the pattern and the
/// text alone.
pub uninterp spec fn regex_match(pattern: Seq<char>, text: Seq<char>) -> bool;

/// Relies on regex::Regex::new (which fails exactly on invalid patterns)
/// and regex::Regex::is_match.
#[verifier::external_body]
fn regex_is_match(pattern: &Vec<char>, text: &Vec<char>) -> (r: Option<bool>)
    ensures
        r is Some <==> regex_valid(pattern@),
        r matches Some(b) ==> b == regex_match(pattern@, text@),
{
    let p: String = pattern.iter().collect();
    let t: String = text.iter().collect();
    match regex::Regex::new(&p) {
        Ok(re) => Some(re.is_match(&t)),
        Err(_) => None,
    }
}

/// Every rule name appears once.
pub open spec fn names_distinct(rules: Seq<Rule>) -> bool {
    forall|i: int, j: int|
        0 <= i < j < rules.len() ==> (#[trigger] rules[i]).name != (#[trigger] rules[j]).name
}

pub open spec fn has_rule(rules: Seq<Rule>, name: int) -> bool {
    exists|i: int| 0 <= i < rules.len() && (#[trigger] rules[i]).name == name
}

pub open spec fn rule_at(rules: Seq<Rule>, name: int) -> Rule {
    rules[choose|i: int| 0 <= i < rules.len() && (#[trigger] rules[i]).name == name]
}

proof fn lemma_rule_at(rules: Seq<Rule>, name: int, i: int)
    requires
        names_distinct(rules),
        0 <= i < rules.len(),
        rules[i].name == name,
    ensures
        rule_at(rules, name) == rules[i],
{
    let j = choose|j: int| 0 <= j < rules.len() && (#[trigger] rules[j]).name == name;
    if i < j {
        assert(rules[i].name != rules[j].name);
    } else if j < i {
        assert(rules[j].name != rules[i].name);
    }
}

/// The regular expression a rule expands to, built with limited recursion
/// depth: a literal rule is its text, a reference rule is the
/// parenthesised concatenation of its references, with `|` between the two
/// alternatives. Missing rules or exhausted depth yield nothing.
pub open spec fn spec_to_regex(rules: Seq<Rule>, name: int, fuel: nat) -> Option<Seq<char>>
    decreases fuel, 0nat,
{
    if fuel == 0 {
        None
    } else if !has_rule(rules, name) {
        None
    } else {
        let r = rule_at(rules, name);
        if r.value@.len() > 0 {
            Some(r.value@)
        } else {
            let a = spec_concat_refs(rules, r.ref_a@, (fuel - 1) as nat);
            let b = spec_concat_refs(rules, r.ref_b@, (fuel - 1) as nat);
            match (a, b) {
                (Some(x), Some(y)) => {
                    let inner = if r.ref_a@.len() > 0 && r.ref_b@.len() > 0 {
                        x + seq!['|'] + y
                    } else if r.ref_a@.len() > 0 {
                        x
                    } else {
                        y
                    };
                    Some(seq!['('] + inner + seq![')'])
                },
                _ => None,
            }
        }
    }
}

/// The concatenation of the expansions of a reference list.
pub open spec fn spec_concat_refs(rules: Seq<Rule>, refs: Seq<usize>, fuel: nat) -> Option<
    Seq<char>,
>
    decreases fuel, refs.len() + 1,
{
    if refs.len() == 0 {
        Some(Seq::empty())
    } else {
        match spec_to_regex(rules, refs[0] as int, fuel) {
            Some(h) => match spec_concat_refs(rules, refs.drop_first(), fuel) {
                Some(t) => Some(h + t),
                None => None,
            },
            None => None,
        }
    }
}

/// Expand rule `name` to a regular expression, or report that the rule
/// table cannot be expanded (missing rule, or reference chains deeper than
/// the budget, as happens on cyclic rules).
pub fn build_regex(rules: &Vec<Rule>, name: usize, fuel: usize) -> (r: Option<Vec<char>>)
    requires
        names_distinct(rules@),
    ensures
        match r {
            Some(v) => spec_to_regex(rules@, name as int, fuel as nat) == Some(v@),
            None => spec_to_regex(rules@, name as int, fuel as nat) is None,
        },
    decreases fuel, 0nat,
{
    if fuel == 0 {
        return None;
    }
    let n = rules.len();
    let mut i: usize = 0;
    while i < n
        invariant
            i <= n,
            n == rules@.len(),
            fuel >= 1,
            names_distinct(rules@),
            forall|k: int| 0 <= k < i ==> (#[trigger] rules@[k]).name != name,
        decreases n - i,
    {
        if rules[i].name == name {
            proof {
                lemma_rule_at(rules@, name as int, i as int);
            }
            let rule = &rules[i];
            if rule.value.len() > 0 {
                let mut out: Vec<char> = Vec::new();
                let mut k: usize = 0;
                let vn = rule.value.len();
                while k < vn
                    invariant
                        k <= vn,
                        vn == rule.value@.len(),
                        out@ == rule.value@.subrange(0, k as int),
                    decreases vn - k,
                {
                    out.push(rule.value[k]);
                    proof {
                        assert(out@ =~= rule.value@.subrange(0, k + 1));
                    }
                    k = k + 1;
                }
                proof {
                    assert(out@ =~= rule.value@);
                }
                return Some(out);
            }
            let a = match concat_refs(rules, &rule.ref_a, 0, fuel - 1) {
                Some(v) => v,
                None => {
                    proof {
                        assert(rule.ref_a@.subrange(0, rule.ref_a@.len() as int) =~= rule.ref_a@);
                    }
                    return None;
                },
            };
            let b = match concat_refs(rules, &rule.ref_b, 0, fuel - 1) {
                Some(v) => v,
                None => {
                    proof {
                        assert(rule.ref_b@.subrange(0, rule.ref_b@.len() as int) =~= rule.ref_b@);
                    }
                    return None;
                },
            };
            proof {
                assert(rule.ref_a@.subrange(0, rule.ref_a@.len() as int) =~= rule.ref_a@);
                assert(rule.ref_b@.subrange(0, rule.ref_b@.len() as int) =~= rule.ref_b@);
            }
            let mut out: Vec<char> = Vec::new();
            out.push('(');
            let mut a = a;
            let mut b = b;
            if rule.ref_a.len() > 0 && rule.ref_b.len() > 0 {
                let ghost av = a@;
                let ghost bv = b@;
                out.append(&mut a);
                out.push('|');
                out.append(&mut b);
                out.push(')');
                proof {
                    assert(out@ =~= seq!['('] + (av + seq!['|'] + bv) + seq![')']);
                }
                return Some(out);
            } else if rule.ref_a.len() > 0 {
                let ghost av = a@;
                out.append(&mut a);
                out.push(')');
                proof {
                    assert(out@ =~= seq!['('] + av + seq![')']);
                }
                return Some(out);
            } else {
                let ghost bv = b@;
                out.append(&mut b);
                out.push(')');
                proof {
                    assert(out@ =~= seq!['('] + bv + seq![')']);
                }
                return Some(out);
            }
        }
        i = i + 1;
    }
    proof {
        assert(!has_rule(rules@, name as int)) by {
            if has_rule(rules@, name as int) {
                let k = choose|k: int|
                    0 <= k < rules@.len() && (#[trigger] rules@[k]).name == name;
                assert(rules@[k].name != name);
            }
        }
    }
    None
}

/// Expand and concatenate the references from index `from` on.
fn concat_refs(rules: &Vec<Rule>, refs: &Vec<usize>, from: usize, fuel: usize) -> (r: Option<
    Vec<char>,
>)
    requires
        names_distinct(rules@),
        from <= refs@.len(),
    ensures
        match r {
            Some(v) => spec_concat_refs(
                rules@,
                refs@.subrange(from as int, refs@.len() as int),
                fuel as nat,
            ) == Some(v@),
            None => spec_concat_refs(
                rules@,
                refs@.subrange(from as int, refs@.len() as int),
                fuel as nat,
            ) is None,
        },
    decreases fuel, refs@.len() - from + 1,
{
    let ghost sub = refs@.subrange(from as int, refs@.len() as int);
    if from == refs.len() {
        proof {
            assert(sub =~= Seq::<usize>::empty());
        }
        return Some(Vec::new());
    }
    proof {
        assert(sub[0] == refs@[from as int]);
        assert(sub.drop_first() =~= refs@.subrange(from + 1, refs@.len() as int));
    }
    let h = match build_regex(rules, refs[from], fuel) {
        Some(v) => v,
        None => {
            return None;
        },
    };
    let t = match concat_refs(rules, refs, from + 1, fuel) {
        Some(v) => v,
        None => {
            return None;
        },
    };
    let mut out = h;
    let ghost hv = out@;
    let mut t = t;
    let ghost tv = t@;
    out.append(&mut t);
    proof {
        assert(out@ =~= hv + tv);
    }
    Some(out)
}

impl Rule {
    /// The regular expression this rule's name expands to in the table.
    pub fn to_regex(&self, rules: &Vec<Rule>, fuel: usize) -> (r: Option<Vec<char>>)
        requires
            names_distinct(rules@),
        ensures
            match r {
                Some(v) => spec_to_regex(rules@, self.name as int, fuel as nat) == Some(v@),
                None => spec_to_regex(rules@, self.name as int, fuel as nat) is None,
            },
    {
        build_regex(rules, self.name, fuel)
    }
}

/// The rule table and the received messages.
pub struct Input {
    pub rules: Vec<Rule>,
    pub entries: Vec<Vec<char>>,
}

/// The expansion of a rule anchored to the whole message.
pub open spec fn anchored(p: Seq<char>) -> Seq<char> {
    seq!['^'] + p + seq!['$']
}

/// How many messages the anchored pattern matches.
pub open spec fn count_matching(entries: Seq<Vec<char>>, pat: Seq<char>) -> int
    decreases entries.len(),
{
    if entries.len() == 0 {
        0
    } else {
        count_matching(entries.drop_last(), pat) + if regex_match(pat, entries.last()@) {
            1int
        } else {
            0int
        }
    }
}

impl Input {
    /// Count the messages that rule `rule`, expanded and anchored at both
    /// ends, matches in full. Nothing is counted when the rule cannot be
    /// expanded (depth is bounded by the table size, which covers every
    /// acyclic table) or when the expansion is not a valid pattern.
    pub fn count_matches(&self, rule: usize) -> (r: Option<usize>)
        requires
            names_distinct(self.rules@),
            self.rules@.len() < usize::MAX,
        ensures
            match r {
                Some(c) => ({
                    &&& spec_to_regex(
                        self.rules@,
                        rule as int,
                        (self.rules@.len() + 1) as nat,
                    ) matches Some(p)
                    &&& regex_valid(anchored(p))
                    &&& c == count_matching(self.entries@, anchored(p))
                }),
                None => spec_to_regex(self.rules@, rule as int, (self.rules@.len() + 1) as nat)
                    is None || (spec_to_regex(
                    self.rules@,
                    rule as int,
                    (self.rules@.len() + 1) as nat,
                ) matches Some(p) && !regex_valid(anchored(p))),
            },
    {
        let fuel = self.rules.len() + 1;
        let pat = match build_regex(&self.rules, rule, fuel) {
            Some(p) => p,
            None => {
                return None;
            },
        };
        let mut anchored_pat: Vec<char> = Vec::new();
        anchored_pat.push('^');
        let mut middle = pat;
        let ghost pv = middle@;
        anchored_pat.append(&mut middle);
        anchored_pat.push('$');
        proof {
            assert(anchored_pat@ =~= anchored(pv));
        }
        let probe: Vec<char> = Vec::new();
        match regex_is_match(&anchored_pat, &probe) {
            Some(_) => {},
            None => {
                return None;
            },
        }
        let mut count: usize = 0;
        let mut i: usize = 0;
        let n = self.entries.len();
        while i < n
            invariant
                i <= n,
                n == self.entries@.len(),
                regex_valid(anchored_pat@),
                anchored_pat@ == anchored(pv),
                count <= i,
                count == count_matching(self.entries@.subrange(0, i as int), anchored_pat@),
            decreases n - i,
        {
            proof {
                assert(self.entries@.subrange(0, i + 1).drop_last() =~= self.entries@.subrange(
                    0,
                    i as int,
                ));
                assert(self.entries@.subrange(0, i + 1).last() == self.entries@[i as int]);
            }
            match regex_is_match(&anchored_pat, &self.entries[i]) {
                Some(true) => {
                    count = count + 1;
                },
                Some(false) => {},
                None => {
                    proof {
                        assert(false);
                    }
                },
            }
            i = i + 1;
        }
        proof {
            assert(self.entries@.subrange(0, n as int) =~= self.entries@);
        }
        Some(count)
    }
}

} // verus!
