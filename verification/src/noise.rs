//! Deterministic pseudo-random bits for percussion noise.
use vstd::prelude::*;

verus! {

pub open spec fn xorshift64_spec(x: u64) -> u64 {
    let a = x ^ ((x << 13u64) as u64);
    let b = a ^ (a >> 7u64);
    b ^ ((b << 17u64) as u64)
}

/// One step of the xorshift64 generator (shifts 13, 7, 17).
pub fn xorshift64(x: u64) -> (r: u64)
    ensures
        r == xorshift64_spec(x),
{
    let mut x = x;
    x ^= x << 13;
    x ^= x >> 7;
    x ^= x << 17;
    x
}

} // verus!
