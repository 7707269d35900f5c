use vstd::prelude::*;
use vstd::arithmetic::power2::pow2;
use crate::digits::u32s_val;

verus! {

/// Relies on num_bigint::BigUint: `new` reads base-2^32 digits least
/// significant first, `%` is the integer remainder (it panics on a zero
/// divisor, which the precondition rules out), and `to_u32_digits`
/// writes the result back in the same digit representation.
#[verifier::external_body]
pub(crate) fn biguint_rem(a: &Vec<u32>, m: &Vec<u32>) -> (r: Vec<u32>)
    requires
        u32s_val(m@) > 0,
    ensures
        u32s_val(r@) == u32s_val(a@) % u32s_val(m@),
{
    let x = num_bigint::BigUint::new(a.clone());
    let y = num_bigint::BigUint::new(m.clone());
    (x % y).to_u32_digits()
}

/// Relies on num_bigint::BigUint: `-` is integer subtraction, which
/// panics on underflow; the precondition keeps the difference
/// non-negative.
#[verifier::external_body]
pub(crate) fn biguint_sub(a: &Vec<u32>, b: &Vec<u32>) -> (r: Vec<u32>)
    requires
        u32s_val(b@) <= u32s_val(a@),
    ensures
        u32s_val(r@) == u32s_val(a@) - u32s_val(b@),
{
    let x = num_bigint::BigUint::new(a.clone());
    let y = num_bigint::BigUint::new(b.clone());
    (x - y).to_u32_digits()
}

/// Relies on num_bigint::BigUint: `>>` discards the k least significant
/// bits, i.e. divides by 2^k rounding down.
#[verifier::external_body]
pub(crate) fn biguint_shr(a: &Vec<u32>, k: u64) -> (r: Vec<u32>)
    ensures
        u32s_val(r@) == u32s_val(a@) / pow2(k as nat),
{
    let x = num_bigint::BigUint::new(a.clone());
    (x >> k).to_u32_digits()
}

/// Relies on num_bigint::BigUint::trailing_zeros: for a nonzero value it
/// returns the number of trailing zero bits, so 2^r divides the value
/// and the quotient is odd. The precondition rules out the zero value,
/// for which the call returns no count.
#[verifier::external_body]
pub(crate) fn biguint_trailing_zeros(a: &Vec<u32>) -> (r: u64)
    requires
        u32s_val(a@) > 0,
    ensures
        u32s_val(a@) % pow2(r as nat) == 0,
        (u32s_val(a@) / pow2(r as nat)) % 2 == 1,
{
    let x = num_bigint::BigUint::new(a.clone());
    x.trailing_zeros().unwrap()
}

/// Relies on num_bigint_dig::algorithms::jacobi: for an odd modulus it
/// returns the Jacobi symbol, one of -1, 0 and 1 (it panics on an even
/// modulus, which the precondition rules out). num_bigint_dig::BigInt::new
/// reads a sign and base-2^32 magnitude digits, least significant first.
#[verifier::external_body]
pub(crate) fn jacobi_oracle(a_negative: bool, a_digits: &Vec<u32>, m_digits: &Vec<u32>) -> (r: i8)
    requires
        u32s_val(m_digits@) % 2 == 1,
    ensures
        r == -1 || r == 0 || r == 1,
{
    let sign = if a_negative {
        num_bigint_dig::Sign::Minus
    } else {
        num_bigint_dig::Sign::Plus
    };
    let a = num_bigint_dig::BigInt::new(sign, a_digits.clone());
    let m = num_bigint_dig::BigInt::new(num_bigint_dig::Sign::Plus, m_digits.clone());
    num_bigint_dig::algorithms::jacobi(&a, &m) as i8
}

} // verus!
