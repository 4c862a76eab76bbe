//! The handheld console: a tiny machine with no-op, jump and accumulate
//! instructions.

use vstd::prelude::*;
use crate::text::{all_digits, digits_value, space_split, split_spaces, parse_usize_chars};

verus! {

#[derive(Clone, Copy, PartialEq, Eq, Structural, Debug)]
pub enum Op {
    Nop,
    Jmp,
    Acc,
}

pub open spec fn spec_op_of(s: Seq<char>) -> Op {
    if s =~= seq!['j', 'm', 'p'] {
        Op::Jmp
    } else if s =~= seq!['a', 'c', 'c'] {
        Op::Acc
    } else {
        Op::Nop
    }
}

impl Op {
    /// The operation a mnemonic names; anything unknown reads as a no-op.
    pub fn from_string(value: &str) -> (r: Op)
        ensures
            r == spec_op_of(value@),
    {
        let n = value.unicode_len();
        if n != 3 {
            return Op::Nop;
        }
        let c0 = value.get_char(0);
        let c1 = value.get_char(1);
        let c2 = value.get_char(2);
        if c0 == 'j' && c1 == 'm' && c2 == 'p' {
            proof {
                assert(value@ =~= seq!['j', 'm', 'p']);
            }
            Op::Jmp
        } else if c0 == 'a' && c1 == 'c' && c2 == 'c' {
            proof {
                assert(value@ =~= seq!['a', 'c', 'c']);
            }
            Op::Acc
        } else {
            proof {
                assert(!(value@ =~= seq!['j', 'm', 'p']));
                assert(!(value@ =~= seq!['a', 'c', 'c']));
            }
            Op::Nop
        }
    }
}

#[derive(Clone, Copy, PartialEq, Eq, Structural, Debug)]
pub struct Instruction {
    pub op: Op,
    pub value: i32,
}

/// The signed number a `+N`/`-N` token denotes, if well formed and in
/// range.
pub open spec fn spec_signed(t: Seq<char>) -> Option<int> {
    if t.len() >= 2 && (t[0] == '+' || t[0] == '-') && all_digits(t.subrange(1, t.len() as int)) {
        let mag = digits_value(t.subrange(1, t.len() as int));
        let v: int = if t[0] == '-' {
            -mag
        } else {
            mag
        };
        if i32::MIN <= v <= i32::MAX {
            Some(v)
        } else {
            None
        }
    } else if all_digits(t) && digits_value(t) <= i32::MAX {
        Some(digits_value(t))
    } else {
        None
    }
}

impl Instruction {
    /// Parse a line such as `acc +7`: a mnemonic and a signed argument.
    pub fn from_string(line: &str) -> (r: Option<Instruction>)
        ensures
            match r {
                Some(ins) => ({
                    let toks = space_split(line@);
                    &&& toks.len() >= 2
                    &&& ins.op == spec_op_of(toks[0])
                    &&& Some(ins.value as int) == spec_signed(toks[1])
                }),
                None => ({
                    let toks = space_split(line@);
                    toks.len() < 2 || spec_signed(toks[1]) is None
                }),
            },
    {
        let toks = split_spaces(line);
        let ghost ts = space_split(line@);
        proof {
            assert(ts.len() == toks@.len());
            assert(forall|i: int| 0 <= i < toks@.len() ==> (#[trigger] toks@[i])@ == ts[i]);
        }
        if toks.len() < 2 {
            return None;
        }
        let t = &toks[1];
        let tn = t.len();
        let signed = tn >= 2 && (t[0] == '+' || t[0] == '-');
        let mut digits: Vec<char> = Vec::new();
        let from: usize = if signed {
            1
        } else {
            0
        };
        let mut k: usize = from;
        while k < tn
            invariant
                from <= k <= tn,
                tn == t@.len(),
                digits@ == t@.subrange(from as int, k as int),
            decreases tn - k,
        {
            digits.push(t[k]);
            proof {
                assert(digits@ =~= t@.subrange(from as int, k + 1));
            }
            k = k + 1;
        }
        let mag = match parse_usize_chars(&digits) {
            Some(v) => v,
            None => {
                proof {
                    if signed {
                        assert(digits@ =~= t@.subrange(1, t@.len() as int));
                    } else {
                        assert(digits@ =~= t@);
                    }
                }
                return None;
            },
        };
        proof {
            if signed {
                assert(digits@ =~= t@.subrange(1, t@.len() as int));
            } else {
                assert(digits@ =~= t@);
            }
        }
        let value: i32 = if signed && t[0] == '-' {
            if mag == 0x8000_0000usize {
                i32::MIN
            } else if mag < 0x8000_0000usize {
                -(mag as i32)
            } else {
                return None;
            }
        } else {
            if mag <= 0x7fff_ffff {
                mag as i32
            } else {
                return None;
            }
        };
        // build the mnemonic as its own string slice
        let head = &toks[0];
        let hn = head.len();
        let op = if hn == 3 && head[0] == 'j' && head[1] == 'm' && head[2] == 'p' {
            proof {
                assert(head@ =~= seq!['j', 'm', 'p']);
            }
            Op::Jmp
        } else if hn == 3 && head[0] == 'a' && head[1] == 'c' && head[2] == 'c' {
            proof {
                assert(head@ =~= seq!['a', 'c', 'c']);
            }
            Op::Acc
        } else {
            proof {
                assert(!(head@ =~= seq!['j', 'm', 'p']));
                assert(!(head@ =~= seq!['a', 'c', 'c']));
            }
            Op::Nop
        };
        Some(Instruction { op, value })
    }

    /// What executing the instruction does: how much the accumulator and
    /// the instruction pointer change.
    pub fn execute(&self) -> (r: (i32, i32))
        ensures
            r == (match self.op {
                Op::Nop => (0i32, 1i32),
                Op::Jmp => (0i32, self.value),
                Op::Acc => (self.value, 1i32),
            }),
    {
        match self.op {
            Op::Nop => (0, 1),
            Op::Jmp => (0, self.value),
            Op::Acc => (self.value, 1),
        }
    }

    /// Pair every instruction with an empty visit note, ready to run.
    pub fn to_program(code: &Vec<Instruction>) -> (r: Vec<(Instruction, Option<i32>)>)
        ensures
            r@.len() == code@.len(),
            forall|i: int| 0 <= i < r@.len() ==> r@[i] == (code@[i], None::<i32>),
    {
        let mut r: Vec<(Instruction, Option<i32>)> = Vec::new();
        let mut i: usize = 0;
        let n = code.len();
        while i < n
            invariant
                i <= n,
                n == code@.len(),
                r@.len() == i,
                forall|k: int| 0 <= k < i ==> r@[k] == (code@[k], None::<i32>),
            decreases n - i,
        {
            r.push((code[i], None));
            i = i + 1;
        }
        r
    }
}

} // verus!
