//! The door/card handshake: repeated modular multiplication by a subject
//! number.

use vstd::prelude::*;

verus! {

/// `loop_size` rounds of multiplying by `subject` modulo `divider`,
/// starting from 1.
pub open spec fn spec_encrypt(subject: int, loop_size: nat, divider: int) -> int
    decreases loop_size,
{
    if loop_size == 0 {
        1
    } else {
        (spec_encrypt(subject, (loop_size - 1) as nat, divider) * subject) % divider
    }
}

/// Transform a subject number the given number of times.
pub fn encrypt(subject: usize, loop_size: usize, divider: usize) -> (r: usize)
    requires
        divider >= 1,
        (divider - 1) * subject <= usize::MAX,
    ensures
        r == spec_encrypt(subject as int, loop_size as nat, divider as int),
{
    let mut current: usize = 1;
    let mut i: usize = 0;
    while i < loop_size
        invariant
            i <= loop_size,
            divider >= 1,
            (divider - 1) * subject <= usize::MAX,
            current == spec_encrypt(subject as int, i as nat, divider as int),
            current == 1 || current < divider,
        decreases loop_size - i,
    {
        proof {
            if current >= 2 {
                assert(current <= divider - 1);
                assert(current * subject <= (divider - 1) * subject) by (nonlinear_arith)
                    requires
                        current <= divider - 1,
                        subject >= 0,
                ;
            } else {
                assert(current * subject <= subject) by (nonlinear_arith)
                    requires
                        0 <= current <= 1,
                        subject >= 0,
                ;
            }
        }
        current = (current * subject) % divider;
        i = i + 1;
    }
    current
}

} // verus!
