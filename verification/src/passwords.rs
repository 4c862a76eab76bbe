//! Password policy checks: each line `A-B c: password` gives two numbers, a
//! letter and a password, validated under two different policies.

use vstd::prelude::*;
use crate::text::{all_digits, digits_value, find_char, lemma_find_char, parse_usize_range};

verus! {

/// One policy line: two numbers (a count range, or two one-based
/// positions), the constrained letter, and the password itself.
pub struct PwdEntry {
    pub value_a: usize,
    pub value_b: usize,
    pub letter: char,
    pub password: Vec<char>,
}

/// How many characters of `s` equal `c`.
pub open spec fn count_char(s: Seq<char>, c: char) -> int
    decreases s.len(),
{
    if s.len() == 0 {
        0
    } else {
        count_char(s.drop_last(), c) + if s.last() == c {
            1int
        } else {
            0int
        }
    }
}

/// A policy line is well formed when it reads `A-B c: password`: digits, a
/// dash, digits, a space, one letter, a colon and a space.
pub open spec fn entry_line_ok(s: Seq<char>) -> bool {
    let dash = find_char(s, '-', 0);
    let sp = find_char(s, ' ', 0);
    &&& dash < sp < s.len()
    &&& sp + 3 <= s.len()
    &&& all_digits(s.subrange(0, dash))
    &&& all_digits(s.subrange(dash + 1, sp))
    &&& digits_value(s.subrange(0, dash)) <= usize::MAX
    &&& digits_value(s.subrange(dash + 1, sp)) <= usize::MAX
    &&& s[sp + 2] == ':'
    &&& (sp + 3 == s.len() || s[sp + 3] == ' ')
}

impl PwdEntry {
    /// Parse a policy line. Malformed lines are rejected.
    pub fn from_string(line: &str) -> (r: Option<PwdEntry>)
        ensures
            r is Some <==> line.is_ascii() && entry_line_ok(line@),
            r matches Some(e) ==> {
                let dash = find_char(line@, '-', 0);
                let sp = find_char(line@, ' ', 0);
                &&& e.value_a == digits_value(line@.subrange(0, dash))
                &&& e.value_b == digits_value(line@.subrange(dash + 1, sp))
                &&& e.letter == line@[sp + 1]
                &&& e.password@ == (if sp + 3 == line@.len() {
                    Seq::<char>::empty()
                } else {
                    line@.subrange(sp + 4, line@.len() as int)
                })
            },
    {
        if !line.is_ascii() {
            return None;
        }
        let n = line.unicode_len();
        let ghost s = line@;
        proof {
            lemma_find_char(s, '-', 0);
            lemma_find_char(s, ' ', 0);
        }
        let mut dash: usize = 0;
        while dash < n && line.get_char(dash) != '-'
            invariant
                dash <= n,
                n == s.len(),
                s == line@,
                line.is_ascii(),
                forall|k: int| 0 <= k < dash ==> s[k] != '-',
            decreases n - dash,
        {
            dash = dash + 1;
        }
        proof {
            assert(dash == find_char(s, '-', 0)) by {
                if dash < n {
                    assert(s[dash as int] == '-');
                }
            }
        }
        let mut sp: usize = 0;
        while sp < n && line.get_char(sp) != ' '
            invariant
                sp <= n,
                n == s.len(),
                s == line@,
                line.is_ascii(),
                forall|k: int| 0 <= k < sp ==> s[k] != ' ',
            decreases n - sp,
        {
            sp = sp + 1;
        }
        proof {
            assert(sp == find_char(s, ' ', 0)) by {
                if sp < n {
                    assert(s[sp as int] == ' ');
                }
            }
        }
        if !(dash < sp && sp < n) {
            return None;
        }
        if n - sp < 3 {
            return None;
        }
        if line.get_char(sp + 2) != ':' {
            return None;
        }
        if sp + 3 < n && line.get_char(sp + 3) != ' ' {
            return None;
        }
        let va = match parse_usize_range(line, 0, dash) {
            Some(v) => v,
            None => {
                return None;
            },
        };
        let vb = match parse_usize_range(line, dash + 1, sp) {
            Some(v) => v,
            None => {
                return None;
            },
        };
        let letter = line.get_char(sp + 1);
        let mut password: Vec<char> = Vec::new();
        if sp + 3 < n {
            let mut i: usize = sp + 4;
            while i < n
                invariant
                    sp + 4 <= i <= n,
                    n == s.len(),
                    s == line@,
                    line.is_ascii(),
                    password@ == s.subrange(sp + 4, i as int),
                decreases n - i,
            {
                password.push(line.get_char(i));
                proof {
                    assert(password@ =~= s.subrange(sp + 4, i + 1));
                }
                i = i + 1;
            }
        }
        Some(PwdEntry { value_a: va, value_b: vb, letter, password })
    }

    /// First policy: the letter occurs between `value_a` and `value_b`
    /// times (inclusive) in the password.
    pub fn q1_is_valid(&self) -> (r: bool)
        ensures
            r == (self.value_a <= count_char(self.password@, self.letter) && count_char(
                self.password@,
                self.letter,
            ) <= self.value_b),
    {
        let mut count: usize = 0;
        let mut i: usize = 0;
        let n = self.password.len();
        while i < n
            invariant
                i <= n,
                n == self.password@.len(),
                count <= i,
                count == count_char(self.password@.subrange(0, i as int), self.letter),
            decreases n - i,
        {
            proof {
                assert(self.password@.subrange(0, i + 1).drop_last() =~= self.password@.subrange(
                    0,
                    i as int,
                ));
            }
            if self.password[i] == self.letter {
                count = count + 1;
            }
            i = i + 1;
        }
        proof {
            assert(self.password@.subrange(0, n as int) =~= self.password@);
            crate::passwords::lemma_count_char_nonneg(self.password@, self.letter);
        }
        self.value_a <= count && self.value_b >= count
    }

    /// Second policy: of the two one-based positions, exactly one holds the
    /// letter; a position past the end counts as holding a space.
    pub fn q2_is_valid(&self) -> (r: bool)
        requires
            self.value_a >= 1,
            self.value_b >= 1,
        ensures
            r == ({
                let s = self.password@;
                let c1: char = if self.value_a <= s.len() {
                    s[self.value_a - 1]
                } else {
                    ' '
                };
                let c2: char = if self.value_b <= s.len() {
                    s[self.value_b - 1]
                } else {
                    ' '
                };
                (if c1 == self.letter {
                    1int
                } else {
                    0int
                }) + (if c2 == self.letter {
                    1int
                } else {
                    0int
                }) == 1
            }),
    {
        let mut found: usize = 0;
        let c1 = if self.value_a - 1 < self.password.len() {
            self.password[self.value_a - 1]
        } else {
            ' '
        };
        if c1 == self.letter {
            found = found + 1;
        }
        let c2 = if self.value_b - 1 < self.password.len() {
            self.password[self.value_b - 1]
        } else {
            ' '
        };
        if c2 == self.letter {
            found = found + 1;
        }
        found == 1
    }
}

pub proof fn lemma_count_char_nonneg(s: Seq<char>, c: char)
    ensures
        0 <= count_char(s, c) <= s.len(),
    decreases s.len(),
{
    if s.len() > 0 {
        lemma_count_char_nonneg(s.drop_last(), c);
    }
}

} // verus!
