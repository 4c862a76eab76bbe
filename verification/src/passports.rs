//! Passport field checks: a passport is a list of key/value fields; it may
//! only be processed when all seven required fields are present (the
//! optional country id may be missing).

use vstd::prelude::*;

verus! {

/// A field is present.
pub open spec fn has_field(s: Seq<(Vec<char>, Vec<char>)>, key: Seq<char>) -> bool {
    exists|i: int| 0 <= i < s.len() && (#[trigger] s[i]).0@ == key
}

pub open spec fn byr_key() -> Seq<char> {
    seq!['b', 'y', 'r']
}

pub open spec fn iyr_key() -> Seq<char> {
    seq!['i', 'y', 'r']
}

pub open spec fn eyr_key() -> Seq<char> {
    seq!['e', 'y', 'r']
}

pub open spec fn hgt_key() -> Seq<char> {
    seq!['h', 'g', 't']
}

pub open spec fn hcl_key() -> Seq<char> {
    seq!['h', 'c', 'l']
}

pub open spec fn ecl_key() -> Seq<char> {
    seq!['e', 'c', 'l']
}

pub open spec fn pid_key() -> Seq<char> {
    seq!['p', 'i', 'd']
}

/// Whether one stored field carries the wanted three-letter key.
fn key_matches(field: &(Vec<char>, Vec<char>), a: char, b: char, c: char) -> (r: bool)
    ensures
        r == (field.0@ =~= seq![a, b, c]),
{
    if field.0.len() == 3 && field.0[0] == a && field.0[1] == b && field.0[2] == c {
        proof {
            assert(field.0@ =~= seq![a, b, c]);
        }
        true
    } else {
        proof {
            assert(!(field.0@ =~= seq![a, b, c]));
        }
        false
    }
}

/// Scan for a three-letter key.
fn contains_key(entries: &Vec<(Vec<char>, Vec<char>)>, a: char, b: char, c: char) -> (r: bool)
    ensures
        r == has_field(entries@, seq![a, b, c]),
{
    let n = entries.len();
    let mut i: usize = 0;
    while i < n
        invariant
            i <= n,
            n == entries@.len(),
            forall|k: int| 0 <= k < i ==> (#[trigger] entries@[k]).0@ != seq![a, b, c],
        decreases n - i,
    {
        if key_matches(&entries[i], a, b, c) {
            proof {
                assert(entries@[i as int].0@ == seq![a, b, c]);
            }
            return true;
        }
        i = i + 1;
    }
    proof {
        assert(!has_field(entries@, seq![a, b, c])) by {
            if has_field(entries@, seq![a, b, c]) {
                let k = choose|k: int|
                    0 <= k < entries@.len() && (#[trigger] entries@[k]).0@ == seq![a, b, c];
                assert(entries@[k].0@ != seq![a, b, c]);
            }
        }
    }
    false
}

/// All seven required fields are present; the country id is not required.
pub fn valid_passport_data(entries: &Vec<(Vec<char>, Vec<char>)>) -> (r: bool)
    ensures
        r == (has_field(entries@, byr_key()) && has_field(entries@, iyr_key()) && has_field(
            entries@,
            eyr_key(),
        ) && has_field(entries@, hgt_key()) && has_field(entries@, hcl_key()) && has_field(
            entries@,
            ecl_key(),
        ) && has_field(entries@, pid_key())),
{
    contains_key(entries, 'b', 'y', 'r') && contains_key(entries, 'i', 'y', 'r') && contains_key(
        entries,
        'e',
        'y',
        'r',
    ) && contains_key(entries, 'h', 'g', 't') && contains_key(entries, 'h', 'c', 'l')
        && contains_key(entries, 'e', 'c', 'l') && contains_key(entries, 'p', 'i', 'd')
}

} // verus!
