use vstd::prelude::*;
use vstd::arithmetic::div_mod::{
    lemma_fundamental_div_mod, lemma_fundamental_div_mod_converse, lemma_mod_multiples_vanish,
};

verus! {

/// Base of the digit representation: each digit is one `u32`.
pub open spec fn digit_base() -> nat {
    0x1_0000_0000
}

/// Value of a little-endian sequence of base-2^32 digits.
pub open spec fn u32s_val(s: Seq<u32>) -> nat
    decreases s.len(),
{
    if s.len() == 0 {
        0
    } else {
        (s[0] as nat) + digit_base() * u32s_val(s.drop_first())
    }
}

/// Least significant digit, or zero for an empty sequence.
pub open spec fn low_digit(s: Seq<u32>) -> u32 {
    if s.len() == 0 {
        0
    } else {
        s[0]
    }
}

/// A digit sequence has value zero exactly when every digit is zero.
pub proof fn lemma_u32s_val_zero(s: Seq<u32>)
    ensures
        (u32s_val(s) == 0) <==> (forall|i: int| 0 <= i < s.len() ==> s[i] == 0),
    decreases s.len(),
{
    if s.len() == 0 {
    } else {
        let rest = s.drop_first();
        lemma_u32s_val_zero(rest);
        assert(forall|i: int| 0 <= i < rest.len() ==> rest[i] == s[i + 1]);
        if u32s_val(s) == 0 {
            assert(s[0] == 0);
            assert(digit_base() * u32s_val(rest) == 0);
            assert(u32s_val(rest) == 0) by {
                if u32s_val(rest) >= 1 {
                    assert(digit_base() * u32s_val(rest) >= digit_base() * 1) by (nonlinear_arith)
                        requires
                            u32s_val(rest) >= 1,
                    ;
                }
            }
            assert(forall|i: int| 0 <= i < s.len() ==> s[i] == 0) by {
                assert(forall|i: int| 1 <= i < s.len() ==> s[i] == rest[i - 1]);
            }
        } else {
            if s[0] == 0 && forall|i: int| 1 <= i < s.len() ==> s[i] == 0 {
                assert(forall|i: int| 0 <= i < rest.len() ==> rest[i] == 0);
                assert(u32s_val(rest) == 0);
                assert(u32s_val(s) == 0);
            }
        }
    }
}

/// A digit sequence has value one exactly when its first digit is one
/// and every other digit is zero.
pub proof fn lemma_u32s_val_one(s: Seq<u32>)
    ensures
        (u32s_val(s) == 1) <==> (s.len() > 0 && s[0] == 1 && forall|i: int|
            1 <= i < s.len() ==> s[i] == 0),
{
    if s.len() == 0 {
    } else {
        let rest = s.drop_first();
        lemma_u32s_val_zero(rest);
        assert(forall|i: int| 0 <= i < rest.len() ==> rest[i] == s[i + 1]);
        assert(forall|i: int| 1 <= i < s.len() ==> s[i] == rest[i - 1]);
        if u32s_val(s) == 1 {
            assert(u32s_val(rest) == 0) by {
                if u32s_val(rest) >= 1 {
                    assert(digit_base() * u32s_val(rest) >= digit_base() * 1) by (nonlinear_arith)
                        requires
                            u32s_val(rest) >= 1,
                    ;
                }
            }
            assert(s[0] == 1);
        } else {
            if s[0] == 1 && forall|i: int| 1 <= i < s.len() ==> s[i] == 0 {
                assert(forall|i: int| 0 <= i < rest.len() ==> rest[i] == 0);
                assert(u32s_val(rest) == 0);
                assert(u32s_val(s) == 1);
            }
        }
    }
}

/// The low digit fixes the value modulo 2, 4 and 8, as well as the
/// second and third binary digits of the value.
pub proof fn lemma_low_digit(s: Seq<u32>)
    ensures
        u32s_val(s) % 2 == (low_digit(s) as nat) % 2,
        u32s_val(s) % 4 == (low_digit(s) as nat) % 4,
        u32s_val(s) % 8 == (low_digit(s) as nat) % 8,
        u32s_val(s) / 2 % 2 == (low_digit(s) as nat) / 2 % 2,
        u32s_val(s) / 4 % 2 == (low_digit(s) as nat) / 4 % 2,
{
    if s.len() == 0 {
    } else {
        let v = u32s_val(s) as int;
        let d = s[0] as int;
        let r = u32s_val(s.drop_first()) as int;
        assert(v == d + 0x1_0000_0000 * r);
        assert(v % 2 == d % 2) by {
            lemma_mod_multiples_vanish(0x8000_0000 * r, d, 2);
        }
        assert(v % 4 == d % 4) by {
            lemma_mod_multiples_vanish(0x4000_0000 * r, d, 4);
        }
        assert(v % 8 == d % 8) by {
            lemma_mod_multiples_vanish(0x2000_0000 * r, d, 8);
        }
        assert(v / 2 == 0x8000_0000 * r + d / 2 && v % 2 == d % 2) by {
            lemma_fundamental_div_mod(d, 2);
            lemma_fundamental_div_mod_converse(v, 2, 0x8000_0000 * r + d / 2, d % 2);
        }
        assert((0x8000_0000 * r + d / 2) % 2 == (d / 2) % 2) by {
            lemma_mod_multiples_vanish(0x4000_0000 * r, d / 2, 2);
        }
        assert(v / 4 == 0x4000_0000 * r + d / 4 && v % 4 == d % 4) by {
            lemma_fundamental_div_mod(d, 4);
            lemma_fundamental_div_mod_converse(v, 4, 0x4000_0000 * r + d / 4, d % 4);
        }
        assert((0x4000_0000 * r + d / 4) % 2 == (d / 4) % 2) by {
            lemma_mod_multiples_vanish(0x2000_0000 * r, d / 4, 2);
        }
    }
}

/// True exactly when every digit is zero, i.e. the value is zero.
pub fn digits_is_zero(v: &Vec<u32>) -> (r: bool)
    ensures
        r <==> (u32s_val(v@) == 0),
{
    proof {
        lemma_u32s_val_zero(v@);
    }
    let mut i: usize = 0;
    while i < v.len()
        invariant
            i <= v@.len(),
            forall|j: int| 0 <= j < i ==> v@[j] == 0,
        decreases v@.len() - i,
    {
        if v[i] != 0 {
            proof {
                lemma_u32s_val_zero(v@);
            }
            return false;
        }
        i += 1;
    }
    proof {
        lemma_u32s_val_zero(v@);
    }
    true
}

/// True exactly when the value of the digit sequence is one.
pub fn digits_is_one(v: &Vec<u32>) -> (r: bool)
    ensures
        r <==> (u32s_val(v@) == 1),
{
    proof {
        lemma_u32s_val_one(v@);
    }
    if v.len() == 0 {
        return false;
    }
    if v[0] != 1 {
        return false;
    }
    let mut i: usize = 1;
    while i < v.len()
        invariant
            1 <= i <= v@.len(),
            v@.len() > 0,
            v@[0] == 1,
            forall|j: int| 1 <= j < i ==> v@[j] == 0,
        decreases v@.len() - i,
    {
        if v[i] != 0 {
            proof {
                lemma_u32s_val_one(v@);
            }
            return false;
        }
        i += 1;
    }
    proof {
        lemma_u32s_val_one(v@);
    }
    true
}

/// Least significant digit of a digit vector.
pub fn digits_low(v: &Vec<u32>) -> (r: u32)
    ensures
        r == low_digit(v@),
{
    if v.len() == 0 {
        0
    } else {
        v[0]
    }
}

/// Element-for-element copy of a digit vector.
pub fn digits_copy(v: &Vec<u32>) -> (r: Vec<u32>)
    ensures
        r@ == v@,
{
    let mut out: Vec<u32> = Vec::new();
    let mut i: usize = 0;
    while i < v.len()
        invariant
            i <= v@.len(),
            out@ =~= v@.subrange(0, i as int),
        decreases v@.len() - i,
    {
        out.push(v[i]);
        i += 1;
    }
    proof {
        assert(out@ =~= v@);
    }
    out
}

/// An arbitrary-precision signed integer handed to the library as plain
/// values: a sign flag and base-2^32 magnitude digits, least significant
/// digit first.
pub struct SignedInt {
    /// True when the represented value is negative.
    pub negative: bool,
    /// Magnitude digits, least significant first.
    pub digits: Vec<u32>,
}

impl SignedInt {
    /// The integer this record represents.
    pub open spec fn value(&self) -> int {
        if self.negative {
            -(u32s_val(self.digits@) as int)
        } else {
            u32s_val(self.digits@) as int
        }
    }

    /// Magnitude of the represented integer.
    pub open spec fn magnitude(&self) -> nat {
        u32s_val(self.digits@)
    }

    /// Builds the record for a small signed integer.
    pub fn from_i64(v: i64) -> (r: SignedInt)
        ensures
            r.value() == v as int,
    {
        let negative = v < 0;
        let mag: u64 = if v < 0 {
            (-(v as i128)) as u64
        } else {
            v as u64
        };
        assert(mag == if v < 0 { -(v as int) } else { v as int });
        let lo: u32 = (mag & 0xFFFF_FFFF) as u32;
        let hi: u32 = (mag >> 32) as u32;
        assert(mag == (mag & 0xFFFF_FFFF) + 0x1_0000_0000 * (mag >> 32)) by (bit_vector);
        assert(mag & 0xFFFF_FFFF < 0x1_0000_0000 && mag >> 32 < 0x1_0000_0000) by (bit_vector);
        let digits: Vec<u32> = vec![lo, hi];
        proof {
            let s = digits@;
            assert(s.drop_first() =~= seq![hi]);
            assert(s.drop_first().drop_first() =~= Seq::<u32>::empty());
            assert(u32s_val(s.drop_first().drop_first()) == 0);
            assert(u32s_val(s.drop_first()) == hi as nat);
            assert(u32s_val(s) == lo as nat + digit_base() * (hi as nat));
        }
        SignedInt { negative, digits }
    }
}

/// True exactly when the represented value is strictly positive.
pub fn signed_is_positive(x: &SignedInt) -> (r: bool)
    ensures
        r <==> (x.value() > 0),
{
    !x.negative && !digits_is_zero(&x.digits)
}

/// True exactly when the represented value is even.
pub fn signed_is_even(x: &SignedInt) -> (r: bool)
    ensures
        r <==> (x.value() % 2 == 0),
{
    let low = digits_low(&x.digits);
    proof {
        lemma_low_digit(x.digits@);
        let mv = u32s_val(x.digits@) as int;
        if x.negative {
            assert((-mv) % 2 == 0 <==> mv % 2 == 0) by {
                lemma_fundamental_div_mod(mv, 2);
                if mv % 2 == 0 {
                    lemma_fundamental_div_mod_converse(-mv, 2, -(mv / 2), 0);
                } else {
                    lemma_fundamental_div_mod_converse(-mv, 2, -(mv / 2) - 1, 1);
                }
            }
        }
    }
    low % 2 == 0
}

} // verus!
