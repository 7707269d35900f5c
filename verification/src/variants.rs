use vstd::prelude::*;
use vstd::arithmetic::div_mod::{lemma_div_nonincreasing, lemma_mod_bound};
use vstd::arithmetic::power2::{lemma2_to64, lemma_pow2_pos, pow2};
use crate::JacobiError;
use crate::bigops::{
    biguint_rem, biguint_shr, biguint_sub, biguint_trailing_zeros, jacobi_oracle,
};
use crate::digits::{
    digits_copy, digits_is_one, digits_is_zero, digits_low, lemma_low_digit, signed_is_even,
    signed_is_positive, u32s_val, SignedInt,
};
use crate::symbol::{
    flip_halving, flip_swap, jacobi_nat, jacobi_sym, lemma_jacobi_shift_out, lemma_neg_mod,
    lemma_odd_low_bits, lemma_sign_combine,
};

verus! {

/// Sign accumulator read as an integer factor.
pub open spec fn sign_of(t: bool) -> int {
    if t {
        1
    } else {
        -1
    }
}

/// Magnitude digits of the numerator reduced modulo the positive value
/// of md, with floor semantics: the non-negative remainder.
fn mod_floor_digits(a: &SignedInt, md: &Vec<u32>) -> (r: Vec<u32>)
    requires
        u32s_val(md@) > 0,
    ensures
        u32s_val(r@) == a.value() % (u32s_val(md@) as int),
{
    let rem = biguint_rem(&a.digits, md);
    proof {
        lemma_mod_bound(a.magnitude() as int, u32s_val(md@) as int);
        if a.negative {
            lemma_neg_mod(a.magnitude() as int, u32s_val(md@) as int);
        }
    }
    if a.negative && !digits_is_zero(&rem) {
        biguint_sub(md, &rem)
    } else {
        rem
    }
}

/// Binary-reduction Jacobi symbol: the numerator is reduced modulo the
/// modulus, factors of two are removed one by one with an explicit
/// modulo-8 check, and each exchange applies an explicit modulo-4 check.
///
/// Returns the symbol for an odd positive modulus and
/// `InvalidModulus` for every other modulus.
pub fn jacobi_base(a: &SignedInt, m: &SignedInt) -> (r: Result<i8, JacobiError>)
    ensures
        r is Ok <==> (m.value() > 0 && m.value() % 2 == 1),
        r matches Ok(t) ==> t as int == jacobi_sym(a.value(), m.value() as nat) && -1 <= t <= 1,
        r matches Err(e) ==> e == JacobiError::InvalidModulus,
{
    if !signed_is_positive(m) || signed_is_even(m) {
        return Err(JacobiError::InvalidModulus);
    }
    let ghost a0: int = a.value();
    let ghost m0: nat = m.value() as nat;
    let mut wa = mod_floor_digits(a, &m.digits);
    let mut wm = digits_copy(&m.digits);
    let mut t: bool = true;
    proof {
        lemma_mod_bound(a0, m0 as int);
    }
    let mut done = digits_is_zero(&wa);
    while !done
        invariant
            done <==> u32s_val(wa@) == 0,
            u32s_val(wm@) % 2 == 1,
            u32s_val(wa@) < u32s_val(wm@),
            m0 % 2 == 1,
            m0 >= 1,
            jacobi_sym(a0, m0) == sign_of(t) * jacobi_nat(u32s_val(wa@), u32s_val(wm@)),
        decreases u32s_val(wa@),
    {
        let ghost va_start = u32s_val(wa@);
        let mut low = digits_low(&wa);
        proof {
            lemma_low_digit(wa@);
        }
        while low % 2 == 0
            invariant
                low == crate::digits::low_digit(wa@),
                1 <= u32s_val(wa@) <= va_start,
                u32s_val(wa@) < u32s_val(wm@),
                u32s_val(wm@) % 2 == 1,
                m0 % 2 == 1,
                m0 >= 1,
                jacobi_sym(a0, m0) == sign_of(t) * jacobi_nat(u32s_val(wa@), u32s_val(wm@)),
            decreases u32s_val(wa@),
        {
            let ghost va = u32s_val(wa@);
            let ghost vm = u32s_val(wm@);
            proof {
                lemma_low_digit(wa@);
                assert(va % 2 == 0);
                assert(jacobi_nat(va, vm) == flip_halving(vm) * jacobi_nat(va / 2, vm));
            }
            wa = biguint_shr(&wa, 1);
            proof {
                lemma2_to64();
                assert(pow2(1) == 2);
                assert(u32s_val(wa@) == va / 2);
            }
            let lm = digits_low(&wm);
            let ghost told = t;
            if lm % 8 == 3 || lm % 8 == 5 {
                t = !t;
            }
            proof {
                lemma_low_digit(wm@);
                assert((lm as nat) % 8 == vm % 8);
                lemma_sign_combine(
                    flip_halving(vm),
                    1,
                    sign_of(told),
                    sign_of(t),
                    jacobi_nat(va / 2, vm),
                );
            }
            low = digits_low(&wa);
        }
        // The numerator is now odd; exchange the pair and reduce.
        let ghost va = u32s_val(wa@);
        let ghost vm = u32s_val(wm@);
        proof {
            lemma_low_digit(wa@);
            assert(va % 2 == 1);
            assert(jacobi_nat(va, vm) == flip_swap(va, vm) * jacobi_nat(vm % va, va));
        }
        let tmp = wa;
        wa = wm;
        wm = tmp;
        let la = digits_low(&wa);
        let lm = digits_low(&wm);
        let ghost told = t;
        if la % 4 == 3 && lm % 4 == 3 {
            t = !t;
        }
        proof {
            lemma_low_digit(wa@);
            lemma_low_digit(wm@);
            assert((la as nat) % 4 == vm % 4);
            assert((lm as nat) % 4 == va % 4);
            lemma_sign_combine(
                flip_swap(va, vm),
                1,
                sign_of(told),
                sign_of(t),
                jacobi_nat(vm % va, va),
            );
        }
        wa = biguint_rem(&wa, &wm);
        proof {
            lemma_mod_bound(vm as int, va as int);
        }
        done = digits_is_zero(&wa);
    }
    proof {
        assert(u32s_val(wa@) == 0);
    }
    if digits_is_one(&wm) {
        proof {
            assert(jacobi_nat(0, 1) == 1);
        }
        Ok(if t {
            1
        } else {
            -1
        })
    } else {
        proof {
            assert(jacobi_nat(0, u32s_val(wm@)) == 0);
        }
        Ok(0)
    }
}

/// Bit-trick Jacobi symbol: removes each run of trailing zero bits with
/// a single count-and-shift, decides the halving sign from two cached
/// bits of the modulus instead of a modulo-8 reduction, and decides the
/// reciprocity sign from cached second bits instead of modulo-4
/// reductions. Returns exactly what `jacobi_base` returns.
pub fn jacobi_new(a: &SignedInt, m: &SignedInt) -> (r: Result<i8, JacobiError>)
    ensures
        r is Ok <==> (m.value() > 0 && m.value() % 2 == 1),
        r matches Ok(t) ==> t as int == jacobi_sym(a.value(), m.value() as nat) && -1 <= t <= 1,
        r matches Err(e) ==> e == JacobiError::InvalidModulus,
{
    if !signed_is_positive(m) || signed_is_even(m) {
        return Err(JacobiError::InvalidModulus);
    }
    let ghost a0: int = a.value();
    let ghost m0: nat = m.value() as nat;
    let mut wa = mod_floor_digits(a, &m.digits);
    let mut wm = digits_copy(&m.digits);
    let mut t: bool = true;
    // The second bit of m, cached across iterations: after an exchange it
    // is the already-inspected second bit of the previous numerator.
    let lowm = digits_low(&wm);
    let mut m_2: bool = (lowm / 2) % 2 == 1;
    proof {
        lemma_mod_bound(a0, m0 as int);
        lemma_low_digit(wm@);
    }
    let mut done = digits_is_zero(&wa);
    while !done
        invariant
            done <==> u32s_val(wa@) == 0,
            u32s_val(wm@) % 2 == 1,
            u32s_val(wa@) < u32s_val(wm@),
            m_2 == (u32s_val(wm@) / 2 % 2 == 1),
            m0 % 2 == 1,
            m0 >= 1,
            jacobi_sym(a0, m0) == sign_of(t) * jacobi_nat(u32s_val(wa@), u32s_val(wm@)),
        decreases u32s_val(wa@),
    {
        let ghost va0 = u32s_val(wa@);
        let ghost vm = u32s_val(wm@);
        // Remove the whole run of trailing zero bits in one shift.
        let s = biguint_trailing_zeros(&wa);
        if s != 0 {
            wa = biguint_shr(&wa, s);
        }
        proof {
            if s == 0 {
                lemma2_to64();
                assert(pow2(0) == 1);
            }
            assert(u32s_val(wa@) == va0 / pow2(s as nat));
            lemma_pow2_pos(s as nat);
            lemma_div_nonincreasing(va0 as int, pow2(s as nat) as int);
            lemma_jacobi_shift_out(va0, vm, s as nat);
        }
        let ghost va1 = u32s_val(wa@);
        let lowa = digits_low(&wa);
        let a_2 = (lowa / 2) % 2 == 1;
        let lm = digits_low(&wm);
        let m_4 = (lm / 4) % 2 == 1;
        let ghost told = t;
        if ((s % 2 == 1) && (m_2 != m_4)) != (m_2 && a_2) {
            t = !t;
        }
        proof {
            lemma_low_digit(wa@);
            lemma_low_digit(wm@);
            lemma_odd_low_bits(va1);
            lemma_odd_low_bits(vm);
            let s1 = if (s as nat) % 2 == 1 {
                flip_halving(vm)
            } else {
                1int
            };
            let s2 = flip_swap(va1, vm);
            assert(jacobi_nat(va1, vm) == s2 * jacobi_nat(vm % va1, va1));
            assert(((s % 2 == 1) && (m_2 != m_4)) <==> s1 == -1);
            assert((m_2 && a_2) <==> s2 == -1);
            lemma_sign_combine(s1, s2, sign_of(told), sign_of(t), jacobi_nat(vm % va1, va1));
        }
        m_2 = a_2;
        let tmp = wa;
        wa = wm;
        wm = tmp;
        wa = biguint_rem(&wa, &wm);
        proof {
            lemma_mod_bound(vm as int, va1 as int);
        }
        done = digits_is_zero(&wa);
    }
    if digits_is_one(&wm) {
        proof {
            assert(jacobi_nat(0, 1) == 1);
        }
        Ok(if t {
            1
        } else {
            -1
        })
    } else {
        proof {
            assert(jacobi_nat(0, u32s_val(wm@)) == 0);
        }
        Ok(0)
    }
}

/// Jacobi symbol through the independent implementation in the
/// num-bigint-dig crate, used as a differential-testing reference. The
/// validity check is the same as in the other variants; the returned
/// symbol is only known to lie in {-1, 0, 1}.
pub fn jacobi_num_bigint_dig(a: &SignedInt, m: &SignedInt) -> (r: Result<i8, JacobiError>)
    ensures
        r is Ok <==> (m.value() > 0 && m.value() % 2 == 1),
        r matches Ok(t) ==> -1 <= t <= 1,
        r matches Err(e) ==> e == JacobiError::InvalidModulus,
{
    if !signed_is_positive(m) || signed_is_even(m) {
        return Err(JacobiError::InvalidModulus);
    }
    Ok(jacobi_oracle(a.negative, &a.digits, &m.digits))
}

} // verus!
