//! Docking computer bitmasks: 36-bit masks applied to written values.

use vstd::prelude::*;

verus! {

/// A 36-bit mask leaves every bit of a value alone exactly when its
/// floating part covers all bits.
pub const FULL_MASK: u64 = 0x1f_ffff_ffff;

#[derive(Clone, Copy, PartialEq, Eq, Structural, Debug)]
pub enum Op {
    NewMask,
    Write,
}

/// One program line: a new mask (`a` holds the floating bits, `b` the set
/// bits) or a write (`a` the address, `b` the value).
#[derive(Clone, Copy, PartialEq, Eq, Structural, Debug)]
pub struct Operation {
    pub op: Op,
    pub a: u64,
    pub b: u64,
}

impl Operation {
    /// The mask that keeps every value unchanged.
    pub fn empty_mask() -> (r: Operation)
        ensures
            r.op == Op::NewMask,
            r.a == FULL_MASK,
            r.b == 0,
            r.ignore_mask_spec(),
    {
        Operation { op: Op::NewMask, a: FULL_MASK, b: 0 }
    }

    /// This operation is the do-nothing mask.
    pub open spec fn ignore_mask_spec(&self) -> bool {
        self.op == Op::NewMask && self.a == FULL_MASK
    }

    pub fn ignore_mask(&self) -> (r: bool)
        ensures
            r == self.ignore_mask_spec(),
    {
        (if let Op::NewMask = self.op {
            true
        } else {
            false
        }) && self.a == FULL_MASK
    }

    /// Mask a written value: keep the floating bits of the value and add
    /// the mask's set bits. The do-nothing mask leaves the value alone.
    pub fn apply_on_value(&self, value: u64) -> (r: u64)
        requires
            (value & self.a) + self.b <= u64::MAX,
        ensures
            r == (if self.ignore_mask_spec() {
                value
            } else {
                ((value & self.a) + self.b) as u64
            }),
    {
        if !self.ignore_mask() {
            let v = value & self.a;
            v + self.b
        } else {
            value
        }
    }
}

} // verus!
