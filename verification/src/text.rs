//! Small verified text helpers shared by the puzzle parsers: decimal
//! digits and unsigned numbers read from character sequences.

use vstd::prelude::*;

verus! {

pub open spec fn is_digit_char(c: char) -> bool {
    '0' <= c && c <= '9'
}

pub open spec fn digit_of(c: char) -> int {
    c as int - '0' as int
}

/// A non-empty run of decimal digits.
pub open spec fn all_digits(s: Seq<char>) -> bool {
    s.len() > 0 && forall|i: int| 0 <= i < s.len() ==> is_digit_char(#[trigger] s[i])
}

/// The number the digit run denotes, most significant digit first.
pub open spec fn digits_value(s: Seq<char>) -> int
    decreases s.len(),
{
    if s.len() == 0 {
        0
    } else {
        digits_value(s.drop_last()) * 10 + digit_of(s.last())
    }
}

pub proof fn lemma_digits_value_nonneg(s: Seq<char>)
    requires
        forall|i: int| 0 <= i < s.len() ==> is_digit_char(#[trigger] s[i]),
    ensures
        digits_value(s) >= 0,
    decreases s.len(),
{
    if s.len() > 0 {
        lemma_digits_value_nonneg(s.drop_last());
    }
}

/// A prefix of a digit run denotes no more than the whole run.
pub proof fn lemma_digits_value_prefix(s: Seq<char>, k: int)
    requires
        forall|i: int| 0 <= i < s.len() ==> is_digit_char(#[trigger] s[i]),
        0 <= k <= s.len(),
    ensures
        digits_value(s.subrange(0, k)) <= digits_value(s),
    decreases s.len() - k,
{
    if k < s.len() {
        lemma_digits_value_prefix(s, k + 1);
        let p = s.subrange(0, k);
        let p1 = s.subrange(0, k + 1);
        assert(p1.drop_last() =~= p);
        assert(p1.last() == s[k]);
        lemma_digits_value_nonneg(p);
        assert(digits_value(p1) == digits_value(p) * 10 + digit_of(s[k]));
    } else {
        assert(s.subrange(0, k) =~= s);
    }
}

/// Read an unsigned decimal number from the character range [from, to) of
/// an ASCII string: the value, if the range is a non-empty digit run whose
/// value fits; otherwise nothing.
pub fn parse_usize_range(s: &str, from: usize, to: usize) -> (r: Option<usize>)
    requires
        from <= to <= s@.len(),
    ensures
        match r {
            Some(v) => all_digits(s@.subrange(from as int, to as int)) && v == digits_value(
                s@.subrange(from as int, to as int),
            ),
            None => !all_digits(s@.subrange(from as int, to as int)) || digits_value(
                s@.subrange(from as int, to as int),
            ) > usize::MAX,
        },
{
    let ghost d = s@.subrange(from as int, to as int);
    if from == to {
        return None;
    }
    let mut acc: usize = 0;
    let mut i: usize = from;
    while i < to
        invariant
            from <= i <= to <= s@.len(),
            d == s@.subrange(from as int, to as int),
            d.len() == to - from,
            forall|k: int| 0 <= k < i - from ==> is_digit_char(#[trigger] d[k]),
            acc == digits_value(d.subrange(0, i - from)),
        decreases to - i,
    {
        let c = s.get_char(i);
        proof {
            assert(d[i - from] == s@[i as int]);
        }
        if c < '0' || c > '9' {
            proof {
                assert(!is_digit_char(c));
            }
            return None;
        }
        proof {
            assert(is_digit_char(c));
        }
        let digit = (c as u32 - 48) as usize;
        let next = match acc.checked_mul(10) {
            Some(m) => m.checked_add(digit),
            None => None,
        };
        match next {
            Some(v) => {
                acc = v;
                proof {
                    assert(d.subrange(0, i - from + 1).drop_last() =~= d.subrange(0, i - from));
                    assert(d.subrange(0, i - from + 1).last() == d[i - from]);
                }
            },
            None => {
                proof {
                    assert(d.subrange(0, i - from + 1).drop_last() =~= d.subrange(0, i - from));
                    assert(d.subrange(0, i - from + 1).last() == d[i - from]);
                    assert(digits_value(d.subrange(0, i - from + 1)) > usize::MAX);
                    if all_digits(d) {
                        lemma_digits_value_prefix(d, i - from + 1);
                    }
                }
                return None;
            },
        }
        i = i + 1;
    }
    proof {
        assert(d.subrange(0, to - from) =~= d);
    }
    Some(acc)
}


/// The first index at or after `from` holding `c`, or the length if none.
pub open spec fn find_char(s: Seq<char>, c: char, from: int) -> int
    decreases s.len() - from,
{
    if from < 0 || from >= s.len() {
        s.len() as int
    } else if s[from] == c {
        from
    } else {
        find_char(s, c, from + 1)
    }
}

pub proof fn lemma_find_char(s: Seq<char>, c: char, from: int)
    requires
        0 <= from <= s.len(),
    ensures
        from <= find_char(s, c, from) <= s.len(),
        find_char(s, c, from) < s.len() ==> s[find_char(s, c, from)] == c,
        forall|k: int| from <= k < find_char(s, c, from) ==> s[k] != c,
    decreases s.len() - from,
{
    if from < s.len() && s[from] != c {
        lemma_find_char(s, c, from + 1);
    }
}

/// Find a character, executable form.
pub fn scan_char(s: &str, c: char, from: usize) -> (r: usize)
    requires
        from <= s@.len(),
    ensures
        r == find_char(s@, c, from as int),
{
    let n = s.unicode_len();
    let mut i: usize = from;
    while i < n && s.get_char(i) != c
        invariant
            from <= i <= n,
            n == s@.len(),
            forall|k: int| from <= k < i ==> s@[k] != c,
        decreases n - i,
    {
        i = i + 1;
    }
    proof {
        lemma_find_char(s@, c, from as int);
        if i < n {
            assert(s@[i as int] == c);
        }
    }
    i
}

/// The words of `s`, split at every single space.
pub open spec fn space_split(s: Seq<char>) -> Seq<Seq<char>>
    decreases s.len(),
{
    if s.len() == 0 {
        Seq::empty()
    } else {
        let sp = find_char(s, ' ', 0);
        if sp == s.len() {
            seq![s]
        } else {
            proof {
                lemma_find_char(s, ' ', 0);
            }
            seq![s.subrange(0, sp)] + space_split(s.subrange(sp + 1, s.len() as int))
        }
    }
}

/// Searching within a suffix is searching the whole, shifted.
proof fn lemma_find_char_suffix(s: Seq<char>, c: char, i: int, from: int)
    requires
        0 <= i <= s.len(),
        i <= from <= s.len(),
    ensures
        find_char(s.subrange(i, s.len() as int), c, from - i) == find_char(s, c, from) - i,
    decreases s.len() - from,
{
    let suf = s.subrange(i, s.len() as int);
    if from < s.len() {
        assert(suf[from - i] == s[from]);
        if s[from] != c {
            lemma_find_char_suffix(s, c, i, from + 1);
        }
    }
}

/// Tokenise a line at single spaces.
pub fn split_spaces(s: &str) -> (r: Vec<Vec<char>>)
    ensures
        r@.map_values(|t: Vec<char>| t@) == space_split(s@),
{
    let n = s.unicode_len();
    let mut r: Vec<Vec<char>> = Vec::new();
    let mut i: usize = 0;
    proof {
        assert(s@.subrange(0, n as int) =~= s@);
        assert(r@.map_values(|t: Vec<char>| t@) =~= Seq::<Seq<char>>::empty());
        assert(Seq::<Seq<char>>::empty() + space_split(s@) =~= space_split(s@));
    }
    while i < n
        invariant
            i <= n,
            n == s@.len(),
            space_split(s@) == r@.map_values(|t: Vec<char>| t@) + space_split(
                s@.subrange(i as int, n as int),
            ),
        decreases n - i,
    {
        let sp = scan_char(s, ' ', i);
        proof {
            lemma_find_char(s@, ' ', i as int);
        }
        let mut word: Vec<char> = Vec::new();
        let mut k: usize = i;
        proof {
            assert(word@ =~= s@.subrange(i as int, i as int));
        }
        while k < sp
            invariant
                i <= k <= sp,
                sp <= n,
                n == s@.len(),
                word@ == s@.subrange(i as int, k as int),
            decreases sp - k,
        {
            word.push(s.get_char(k));
            proof {
                assert(word@ =~= s@.subrange(i as int, k + 1));
            }
            k = k + 1;
        }
        let ghost prev = r@.map_values(|t: Vec<char>| t@);
        let ghost suffix = s@.subrange(i as int, n as int);
        proof {
            lemma_find_char_suffix(s@, ' ', i as int, i as int);
            assert(find_char(suffix, ' ', 0) == sp - i);
            assert(suffix.len() > 0);
            if sp < n {
                assert(suffix.subrange(0, sp - i) =~= s@.subrange(i as int, sp as int));
                assert(suffix.subrange(sp - i + 1, suffix.len() as int) =~= s@.subrange(
                    sp + 1,
                    n as int,
                ));
                assert(space_split(suffix) == seq![s@.subrange(i as int, sp as int)] + space_split(
                    s@.subrange(sp + 1, n as int),
                ));
            } else {
                assert(suffix =~= s@.subrange(i as int, sp as int));
                assert(space_split(suffix) == seq![suffix]);
            }
            assert(word@ == s@.subrange(i as int, sp as int));
        }
        r.push(word);
        proof {
            assert(r@.map_values(|t: Vec<char>| t@) =~= prev + seq![s@.subrange(
                i as int,
                sp as int,
            )]);
            if sp < n {
                assert(prev + (seq![s@.subrange(i as int, sp as int)] + space_split(
                    s@.subrange(sp + 1, n as int),
                )) =~= (prev + seq![s@.subrange(i as int, sp as int)]) + space_split(
                    s@.subrange(sp + 1, n as int),
                ));
            } else {
                assert(space_split(s@.subrange(n as int, n as int)) =~= Seq::<Seq<char>>::empty());
                assert(prev + seq![suffix] =~= (prev + seq![s@.subrange(i as int, sp as int)])
                    + space_split(s@.subrange(n as int, n as int)));
            }
        }
        if sp == n {
            i = n;
        } else {
            i = sp + 1;
        }
    }
    proof {
        assert(space_split(s@.subrange(n as int, n as int)) =~= Seq::<Seq<char>>::empty());
        assert(r@.map_values(|t: Vec<char>| t@) + Seq::<Seq<char>>::empty() =~= r@.map_values(
            |t: Vec<char>| t@,
        ));
    }
    r
}

/// Read an unsigned decimal number from a word.
pub fn parse_usize_chars(s: &Vec<char>) -> (r: Option<usize>)
    ensures
        match r {
            Some(v) => all_digits(s@) && v == digits_value(s@),
            None => !all_digits(s@) || digits_value(s@) > usize::MAX,
        },
{
    let n = s.len();
    if n == 0 {
        return None;
    }
    let mut acc: usize = 0;
    let mut i: usize = 0;
    while i < n
        invariant
            i <= n,
            n == s@.len(),
            forall|k: int| 0 <= k < i ==> is_digit_char(#[trigger] s@[k]),
            acc == digits_value(s@.subrange(0, i as int)),
        decreases n - i,
    {
        let c = s[i];
        if c < '0' || c > '9' {
            proof {
                assert(!is_digit_char(c));
            }
            return None;
        }
        proof {
            assert(is_digit_char(c));
        }
        let digit = (c as u32 - 48) as usize;
        let next = match acc.checked_mul(10) {
            Some(m) => m.checked_add(digit),
            None => None,
        };
        match next {
            Some(v) => {
                acc = v;
                proof {
                    assert(s@.subrange(0, i + 1).drop_last() =~= s@.subrange(0, i as int));
                    assert(s@.subrange(0, i + 1).last() == s@[i as int]);
                }
            },
            None => {
                proof {
                    assert(s@.subrange(0, i + 1).drop_last() =~= s@.subrange(0, i as int));
                    assert(s@.subrange(0, i + 1).last() == s@[i as int]);
                    assert(digits_value(s@.subrange(0, i + 1)) > usize::MAX);
                    if all_digits(s@) {
                        lemma_digits_value_prefix(s@, i + 1);
                    }
                }
                return None;
            },
        }
        i = i + 1;
    }
    proof {
        assert(s@.subrange(0, n as int) =~= s@);
    }
    Some(acc)
}


/// The digit character for one decimal digit.
pub open spec fn digit_char(d: int) -> char {
    if d == 0 {
        '0'
    } else if d == 1 {
        '1'
    } else if d == 2 {
        '2'
    } else if d == 3 {
        '3'
    } else if d == 4 {
        '4'
    } else if d == 5 {
        '5'
    } else if d == 6 {
        '6'
    } else if d == 7 {
        '7'
    } else if d == 8 {
        '8'
    } else {
        '9'
    }
}

/// The decimal writing of a number, most significant digit first.
pub open spec fn dec_digits(n: int) -> Seq<char>
    decreases n,
{
    if n < 10 {
        seq![digit_char(n)]
    } else {
        dec_digits(n / 10).push(digit_char(n % 10))
    }
}

fn digit_char_of(d: usize) -> (r: char)
    requires
        d < 10,
    ensures
        r == digit_char(d as int),
{
    if d == 0 {
        '0'
    } else if d == 1 {
        '1'
    } else if d == 2 {
        '2'
    } else if d == 3 {
        '3'
    } else if d == 4 {
        '4'
    } else if d == 5 {
        '5'
    } else if d == 6 {
        '6'
    } else if d == 7 {
        '7'
    } else if d == 8 {
        '8'
    } else {
        '9'
    }
}

/// Write a number in decimal.
pub fn usize_to_chars(n: usize) -> (r: Vec<char>)
    ensures
        r@ == dec_digits(n as int),
{
    if n == 0 {
        let mut r: Vec<char> = Vec::new();
        r.push('0');
        proof {
            assert(r@ =~= dec_digits(0));
        }
        return r;
    }
    let mut digits: Vec<char> = Vec::new();
    let mut m = n;
    while m > 0
        invariant
            m > 0 ==> dec_digits(n as int) == dec_digits(m as int) + digits@.reverse(),
            m == 0 ==> dec_digits(n as int) == digits@.reverse(),
            m <= n,
        decreases m,
    {
        let d = m % 10;
        let ghost before = digits@;
        digits.push(digit_char_of(d));
        proof {
            assert(digits@.reverse() =~= seq![digit_char(d as int)] + before.reverse());
            if m >= 10 {
                assert(dec_digits(m as int) == dec_digits(m as int / 10).push(
                    digit_char(m as int % 10),
                ));
                assert(dec_digits(m as int / 10) + digits@.reverse() =~= (dec_digits(
                    m as int / 10,
                ).push(digit_char(d as int))) + before.reverse());
            } else {
                assert(dec_digits(m as int) =~= seq![digit_char(d as int)]);
                assert(seq![digit_char(d as int)] + before.reverse() =~= digits@.reverse());
            }
        }
        m = m / 10;
    }
    let mut r: Vec<char> = Vec::new();
    let mut k: usize = digits.len();
    while k > 0
        invariant
            k <= digits@.len(),
            r@.len() == digits@.len() - k,
            forall|i: int| 0 <= i < r@.len() ==> r@[i] == digits@[digits@.len() - 1 - i],
        decreases k,
    {
        k = k - 1;
        r.push(digits[k]);
    }
    proof {
        assert(r@ =~= digits@.reverse());
    }
    r
}

} // verus!
