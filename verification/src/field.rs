//! Arithmetic over the target machine's prime scalar field.
//!
//! All arithmetic the optimizer folds at compile time is performed modulo
//! [`FIELD_MODULUS`], so that folding never changes the wraparound behaviour
//! observable by later compilation stages.

use vstd::prelude::*;

verus! {

/// Prime modulus of the target machine's scalar field.
pub const FIELD_MODULUS: u64 = 0x7fffffff;

/// A value is a canonical field element when it is fully reduced.
pub open spec fn in_field(v: u64) -> bool {
    v < FIELD_MODULUS
}

/// Mathematical addition in the field: operands are reduced, then added
/// modulo the field's modulus.
pub open spec fn spec_felt_add(a: u64, b: u64) -> u64 {
    (((a as int % FIELD_MODULUS as int) + (b as int % FIELD_MODULUS as int))
        % FIELD_MODULUS as int) as u64
}

/// Mathematical subtraction in the field.
pub open spec fn spec_felt_sub(a: u64, b: u64) -> u64 {
    (((a as int % FIELD_MODULUS as int) + FIELD_MODULUS as int - (b as int
        % FIELD_MODULUS as int)) % FIELD_MODULUS as int) as u64
}

/// Mathematical multiplication in the field.
pub open spec fn spec_felt_mul(a: u64, b: u64) -> u64 {
    (((a as int % FIELD_MODULUS as int) * (b as int % FIELD_MODULUS as int))
        % FIELD_MODULUS as int) as u64
}

/// Field addition; total on machine words, reducing both operands first.
pub fn felt_add(a: u64, b: u64) -> (r: u64)
    ensures
        r == spec_felt_add(a, b),
        in_field(r),
{
    let ar = a % FIELD_MODULUS;
    let br = b % FIELD_MODULUS;
    (ar + br) % FIELD_MODULUS
}

/// Field subtraction; total on machine words, reducing both operands first.
pub fn felt_sub(a: u64, b: u64) -> (r: u64)
    ensures
        r == spec_felt_sub(a, b),
        in_field(r),
{
    let ar = a % FIELD_MODULUS;
    let br = b % FIELD_MODULUS;
    (ar + FIELD_MODULUS - br) % FIELD_MODULUS
}

/// Field multiplication; total on machine words, reducing both operands
/// first. The reduced operands are below `2^31`, so their product fits in a
/// machine word.
pub fn felt_mul(a: u64, b: u64) -> (r: u64)
    ensures
        r == spec_felt_mul(a, b),
        in_field(r),
{
    let ar = a % FIELD_MODULUS;
    let br = b % FIELD_MODULUS;
    assert(ar * br <= 0x7ffffffe * 0x7ffffffe) by (nonlinear_arith)
        requires
            ar <= 0x7ffffffe,
            br <= 0x7ffffffe,
    ;
    (ar * br) % FIELD_MODULUS
}

} // verus!
