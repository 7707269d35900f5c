use vstd::prelude::*;
use vstd::arithmetic::div_mod::{
    lemma_fundamental_div_mod, lemma_fundamental_div_mod_converse, lemma_mod_multiples_vanish,
    lemma_small_mod,
};
use vstd::arithmetic::power2::pow2;

verus! {

/// Sign contributed by halving the numerator once: the second supplement
/// to quadratic reciprocity, (2/m) = -1 exactly when m % 8 is 3 or 5.
pub open spec fn flip_halving(m: nat) -> int {
    if m % 8 == 3 || m % 8 == 5 {
        -1
    } else {
        1
    }
}

/// Sign contributed by exchanging numerator and modulus: quadratic
/// reciprocity, -1 exactly when both are congruent to 3 modulo 4.
pub open spec fn flip_swap(a: nat, m: nat) -> int {
    if a % 4 == 3 && m % 4 == 3 {
        -1
    } else {
        1
    }
}

/// The Jacobi symbol (a/m) of a non-negative numerator and an odd
/// positive modulus, defined through the binary reduction rules:
/// periodicity of the numerator, the second supplement for factors of
/// two, and the reciprocity law for an odd numerator.
pub open spec fn jacobi_nat(a: nat, m: nat) -> int
    recommends
        m % 2 == 1,
    decreases m, a,
{
    if m <= 1 {
        1
    } else if a >= m {
        jacobi_nat(a % m, m)
    } else if a == 0 {
        0
    } else if a % 2 == 0 {
        flip_halving(m) * jacobi_nat(a / 2, m)
    } else {
        flip_swap(a, m) * jacobi_nat(m % a, a)
    }
}

/// The Jacobi symbol (a/m) of an arbitrary-sign numerator: the numerator
/// is first brought into [0, m) by floor reduction.
pub open spec fn jacobi_sym(a: int, m: nat) -> int
    recommends
        m % 2 == 1,
        m >= 1,
{
    jacobi_nat((a % (m as int)) as nat, m)
}

/// The Jacobi symbol only takes the values -1, 0 and 1.
pub proof fn lemma_jacobi_nat_range(a: nat, m: nat)
    ensures
        jacobi_nat(a, m) == -1 || jacobi_nat(a, m) == 0 || jacobi_nat(a, m) == 1,
    decreases m, a,
{
    if m <= 1 {
    } else if a >= m {
        lemma_jacobi_nat_range(a % m, m);
    } else if a == 0 {
    } else if a % 2 == 0 {
        lemma_jacobi_nat_range(a / 2, m);
    } else {
        lemma_jacobi_nat_range(m % a, a);
    }
}

/// The Jacobi symbol of numerator one is one for every odd positive
/// modulus.
pub proof fn lemma_jacobi_one_numerator(m: nat)
    requires
        m % 2 == 1,
        m >= 1,
    ensures
        jacobi_sym(1, m) == 1,
{
    if m == 1 {
        assert(1int % 1int == 0);
        assert(jacobi_nat(0, 1) == 1);
    } else {
        assert(1int % (m as int) == 1) by {
            lemma_small_mod(1, m);
        }
        assert(jacobi_nat(m % 1, 1) == 1);
        assert(m % 1 == 0);
        assert(flip_swap(1, m) == 1);
        assert(jacobi_nat(1, m) == flip_swap(1, m) * jacobi_nat(m % 1, 1));
    }
}

/// With modulus one the Jacobi symbol is one for every numerator.
pub proof fn lemma_jacobi_modulus_one(a: int)
    ensures
        jacobi_sym(a, 1) == 1,
{
    assert(a % 1int == 0) by {
        lemma_mod_multiples_vanish(a, 0, 1);
    }
    assert(jacobi_nat(0, 1) == 1);
}

/// Periodicity: shifting the numerator by any multiple of the modulus
/// leaves the Jacobi symbol unchanged.
pub proof fn lemma_jacobi_periodic(a: int, k: int, m: nat)
    requires
        m % 2 == 1,
        m >= 1,
    ensures
        jacobi_sym(a + k * m, m) == jacobi_sym(a, m),
{
    assert((m as int) * k + a == a + k * m);
    assert((a + k * m) % (m as int) == a % (m as int)) by {
        lemma_mod_multiples_vanish(k, a, m as int);
    }
}

/// Removing a run of s factors of two from the numerator multiplies the
/// symbol by the halving sign when s is odd and leaves it unchanged when
/// s is even.
pub proof fn lemma_jacobi_shift_out(a: nat, m: nat, s: nat)
    requires
        m % 2 == 1,
        m > 1,
        0 < a < m,
        a % pow2(s) == 0,
    ensures
        jacobi_nat(a, m) == (if s % 2 == 1 {
            flip_halving(m)
        } else {
            1int
        }) * jacobi_nat(a / pow2(s), m),
    decreases s,
{
    if s == 0 {
        assert(pow2(0) == 1) by {
            vstd::arithmetic::power2::lemma2_to64();
        }
        assert(a / 1 == a);
    } else {
        assert(pow2(s) == 2 * pow2((s - 1) as nat)) by {
            vstd::arithmetic::power2::lemma_pow2_unfold(s);
        }
        let p = pow2((s - 1) as nat);
        assert(p >= 1) by {
            vstd::arithmetic::power2::lemma_pow2_pos((s - 1) as nat);
        }
        // a is a multiple of 2 * p, hence even.
        let q = a / (2 * p);
        assert(a == (2 * p) * q) by {
            lemma_fundamental_div_mod(a as int, (2 * p) as int);
        }
        assert(a % 2 == 0 && a / 2 == p * q) by {
            assert((2 * p) * q == 2 * (p * q)) by (nonlinear_arith);
            lemma_fundamental_div_mod_converse(a as int, 2, (p * q) as int, 0);
        }
        assert(a / 2 % p == 0 && a / 2 / p == q) by {
            lemma_fundamental_div_mod_converse((p * q) as int, p as int, q as int, 0);
        }
        assert(q >= 1) by {
            if q == 0 {
                assert(a == (2 * p) * 0);
            }
        }
        assert(a / 2 >= 1) by {
            assert(p * q >= p * 1) by (nonlinear_arith)
                requires
                    q >= 1,
                    p >= 1,
            ;
        }
        assert(a / 2 < a) by {
            assert(a >= 1);
        }
        lemma_jacobi_shift_out(a / 2, m, (s - 1) as nat);
        assert(a / 2 / p == a / pow2(s));
        assert(jacobi_nat(a, m) == flip_halving(m) * jacobi_nat(a / 2, m));
        let inner = jacobi_nat(a / pow2(s), m);
        if (s - 1) % 2 == 1 {
            assert(jacobi_nat(a / 2, m) == flip_halving(m) * inner);
            assert(s % 2 == 0);
            let f = flip_halving(m);
            assert(f == 1 || f == -1);
            assert(f * (f * inner) == inner) by (nonlinear_arith)
                requires
                    f == 1 || f == -1,
            ;
        } else {
            assert(jacobi_nat(a / 2, m) == inner);
            assert(s % 2 == 1);
        }
    }
}

/// For an odd value the second binary digit decides the residue mod 4,
/// and the second and third binary digits together decide whether the
/// residue mod 8 lies in {3, 5}.
pub proof fn lemma_odd_low_bits(x: nat)
    requires
        x % 2 == 1,
    ensures
        (x / 2 % 2 == 1) <==> (x % 4 == 3),
        ((x / 2 % 2 == 1) != (x / 4 % 2 == 1)) <==> (x % 8 == 3 || x % 8 == 5),
{
    let r = x % 8;
    let q = x / 8;
    lemma_fundamental_div_mod(x as int, 8);
    assert(x == 8 * q + r);
    assert(r % 2 == x % 2) by {
        lemma_mod_multiples_vanish(4 * q as int, r as int, 2);
    }
    assert(x / 2 == 4 * q + r / 2 && x % 2 == r % 2) by {
        lemma_fundamental_div_mod(r as int, 2);
        lemma_fundamental_div_mod_converse(x as int, 2, (4 * q + r / 2) as int, (r % 2) as int);
    }
    assert((4 * q + r / 2) % 2 == (r / 2) % 2) by {
        lemma_mod_multiples_vanish(2 * q as int, (r / 2) as int, 2);
    }
    assert(x / 4 == 2 * q + r / 4 && x % 4 == r % 4) by {
        lemma_fundamental_div_mod(r as int, 4);
        lemma_fundamental_div_mod_converse(x as int, 4, (2 * q + r / 4) as int, (r % 4) as int);
    }
    assert((2 * q + r / 4) % 2 == (r / 4) % 2) by {
        lemma_mod_multiples_vanish(q as int, (r / 4) as int, 2);
    }
    assert(r == 1 || r == 3 || r == 5 || r == 7);
}

/// Folding two sign factors into a running sign accumulator: if the
/// accumulator is negated exactly when the product of the factors is
/// negative, the accumulated equation is preserved.
pub proof fn lemma_sign_combine(s1: int, s2: int, olds: int, news: int, j: int)
    requires
        s1 == 1 || s1 == -1,
        s2 == 1 || s2 == -1,
        olds == 1 || olds == -1,
        news == (if s1 * s2 == -1 {
            -olds
        } else {
            olds
        }),
    ensures
        news * j == olds * (s1 * (s2 * j)),
{
    assert(news * j == olds * (s1 * (s2 * j))) by (nonlinear_arith)
        requires
            s1 == 1 || s1 == -1,
            s2 == 1 || s2 == -1,
            olds == 1 || olds == -1,
            news == (if s1 * s2 == -1 {
                -olds
            } else {
                olds
            }),
    ;
}

/// Floor reduction of a negative numerator: the remainder of -v is the
/// complement of the remainder of v, for v >= 0 and a positive modulus.
pub proof fn lemma_neg_mod(v: int, m: int)
    requires
        v >= 0,
        m > 0,
    ensures
        (-v) % m == if v % m == 0 {
            0int
        } else {
            m - v % m
        },
{
    lemma_fundamental_div_mod(v, m);
    if v % m == 0 {
        assert((-(v / m)) * m == -(m * (v / m))) by (nonlinear_arith);
        lemma_fundamental_div_mod_converse(-v, m, -(v / m), 0);
    } else {
        assert((-(v / m) - 1) * m == -(m * (v / m)) - m) by (nonlinear_arith);
        lemma_fundamental_div_mod_converse(-v, m, -(v / m) - 1, m - v % m);
    }
}

} // verus!
