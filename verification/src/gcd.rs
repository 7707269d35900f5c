use vstd::prelude::*;
use vstd::arithmetic::div_mod::{lemma_fundamental_div_mod, lemma_small_mod};
use crate::symbol::{jacobi_nat, jacobi_sym, lemma_neg_mod};

verus! {

/// d divides x.
pub open spec fn divides(d: nat, x: nat) -> bool {
    exists|k: nat| x == #[trigger] (d * k)
}

/// The absolute value of an integer.
pub open spec fn int_abs(a: int) -> nat {
    if a < 0 {
        (-a) as nat
    } else {
        a as nat
    }
}

/// Greatest common divisor by Euclid's recursion.
pub open spec fn gcd(a: nat, b: nat) -> nat
    decreases b,
{
    if b == 0 {
        a
    } else {
        gcd(b, a % b)
    }
}

/// The gcd divides both of its arguments.
pub proof fn lemma_gcd_divides(a: nat, b: nat)
    ensures
        divides(gcd(a, b), a),
        divides(gcd(a, b), b),
    decreases b,
{
    if b == 0 {
        assert(a == a * 1);
        assert(0 == a * 0);
    } else {
        lemma_gcd_divides(b, a % b);
        let g = gcd(b, a % b);
        let k1 = choose|k: nat| b == #[trigger] (g * k);
        let k2 = choose|k: nat| a % b == #[trigger] (g * k);
        lemma_fundamental_div_mod(a as int, b as int);
        assert(a == g * (k1 * (a / b) + k2)) by (nonlinear_arith)
            requires
                b == g * k1,
                a % b == g * k2,
                a == b * (a / b) + a % b,
        ;
    }
}

/// Every common divisor of the arguments divides the gcd.
pub proof fn lemma_divides_gcd(d: nat, a: nat, b: nat)
    requires
        divides(d, a),
        divides(d, b),
    ensures
        divides(d, gcd(a, b)),
    decreases b,
{
    if b == 0 {
    } else {
        let ka = choose|k: nat| a == #[trigger] (d * k);
        let kb = choose|k: nat| b == #[trigger] (d * k);
        assert(d >= 1) by {
            if d == 0 {
                assert(b == 0 * kb);
            }
        }
        lemma_fundamental_div_mod(a as int, b as int);
        let q: int = (a / b) as int;
        let kk: int = ka - kb * q;
        assert(b * q == d * (kb * q)) by (nonlinear_arith)
            requires
                b == d * kb,
        ;
        assert(a % b == a - b * q);
        assert(d * ka - d * (kb * q) == d * kk) by (nonlinear_arith)
            requires
                kk == ka - kb * q,
        ;
        assert(kk >= 0) by {
            if kk < 0 {
                assert(d * kk < 0) by (nonlinear_arith)
                    requires
                        d >= 1,
                        kk < 0,
                ;
            }
        }
        assert(a % b == d * (kk as nat));
        lemma_divides_gcd(d, b, a % b);
    }
}

/// With a positive second argument the gcd is positive.
pub proof fn lemma_gcd_pos(a: nat, b: nat)
    requires
        a >= 1 || b >= 1,
    ensures
        gcd(a, b) >= 1,
    decreases b,
{
    if b == 0 {
    } else {
        lemma_gcd_pos(b, a % b);
    }
}

/// Two natural numbers that divide each other are equal.
pub proof fn lemma_divides_antisym(x: nat, y: nat)
    requires
        divides(x, y),
        divides(y, x),
    ensures
        x == y,
{
    let k = choose|k: nat| y == #[trigger] (x * k);
    let j = choose|j: nat| x == #[trigger] (y * j);
    if x == 0 {
        assert(y == 0 * k);
    } else {
        assert(x == y * j);
        assert(y == x * k);
        assert(x * (k * j) == x * 1) by (nonlinear_arith)
            requires
                y == x * k,
                x == y * j,
        ;
        assert(k * j == 1) by (nonlinear_arith)
            requires
                x * (k * j) == x * 1,
                x >= 1,
        ;
        assert(k == 1 && j == 1) by (nonlinear_arith)
            requires
                k * j == 1,
        ;
    }
}

/// The gcd is symmetric in its arguments.
pub proof fn lemma_gcd_comm(a: nat, b: nat)
    ensures
        gcd(a, b) == gcd(b, a),
{
    lemma_gcd_divides(a, b);
    lemma_gcd_divides(b, a);
    lemma_divides_gcd(gcd(a, b), b, a);
    lemma_divides_gcd(gcd(b, a), a, b);
    lemma_divides_antisym(gcd(a, b), gcd(b, a));
}

/// Reducing the first argument modulo the second leaves the gcd alone.
pub proof fn lemma_gcd_mod(a: nat, m: nat)
    requires
        m >= 1,
    ensures
        gcd(a % m, m) == gcd(a, m),
{
    assert(gcd(a, m) == gcd(m, a % m));
    assert((a % m) % m == a % m) by {
        lemma_small_mod(a % m, m);
    }
    assert(gcd(a % m, m) == gcd(m, a % m));
}

/// A divisor of an odd number is odd.
proof fn lemma_divides_odd(d: nat, m: nat)
    requires
        divides(d, m),
        m % 2 == 1,
    ensures
        d % 2 == 1,
{
    let k = choose|j: nat| m == #[trigger] (d * j);
    if d % 2 == 0 {
        let e: int = (d / 2) as int;
        lemma_fundamental_div_mod(d as int, 2);
        assert(d * k == ((e * k) * 2)) by (nonlinear_arith)
            requires
                d == 2 * e,
        ;
        assert(((e * (k as int)) * 2) % 2 == 0) by {
            vstd::arithmetic::div_mod::lemma_mod_multiples_basic(e * (k as int), 2);
        }
    }
}

/// An odd divisor of twice a number divides the number itself.
proof fn lemma_odd_divides_half(d: nat, x: nat)
    requires
        divides(d, 2 * x),
        d % 2 == 1,
    ensures
        divides(d, x),
{
    let k = choose|j: nat| 2 * x == #[trigger] (d * j);
    if k % 2 == 0 {
        assert(x == d * (k / 2)) by (nonlinear_arith)
            requires
                2 * x == d * k,
                k % 2 == 0,
                k / 2 == (k - k % 2) / 2,
                k == 2 * (k / 2) + k % 2,
        ;
    } else {
        let a1: int = (d / 2) as int;
        let b1: int = (k / 2) as int;
        lemma_fundamental_div_mod(d as int, 2);
        lemma_fundamental_div_mod(k as int, 2);
        assert(d * k == 2 * (2 * a1 * b1 + a1 + b1) + 1) by (nonlinear_arith)
            requires
                d == 2 * a1 + 1,
                k == 2 * b1 + 1,
        ;
        assert((2 * (2 * a1 * b1 + a1 + b1) + 1) % 2 == 1) by {
            vstd::arithmetic::div_mod::lemma_mod_multiples_vanish(
                2 * a1 * b1 + a1 + b1,
                1,
                2,
            );
        }
        assert((2 * x) % 2 == 0) by {
            vstd::arithmetic::div_mod::lemma_mod_multiples_basic(x as int, 2);
        }
    }
}

/// For an odd m, a factor of two in the other argument does not change
/// the gcd.
pub proof fn lemma_gcd_halving(x: nat, m: nat)
    requires
        m % 2 == 1,
    ensures
        gcd(2 * x, m) == gcd(x, m),
{
    let g1 = gcd(2 * x, m);
    let g2 = gcd(x, m);
    lemma_gcd_divides(2 * x, m);
    lemma_gcd_divides(x, m);
    // g2 divides 2x as well, so it divides g1.
    let k2 = choose|k: nat| x == #[trigger] (g2 * k);
    assert(2 * x == g2 * (2 * k2)) by (nonlinear_arith)
        requires
            x == g2 * k2,
    ;
    lemma_divides_gcd(g2, 2 * x, m);
    // g1 is odd since it divides the odd m, so it divides x.
    lemma_divides_odd(g1, m);
    lemma_odd_divides_half(g1, x);
    lemma_divides_gcd(g1, x, m);
    lemma_divides_antisym(g1, g2);
}

/// One number can be subtracted from a multiple of a common divisor.
proof fn lemma_divides_sub(d: nat, x: nat, y: nat)
    requires
        divides(d, x),
        divides(d, y),
        y <= x,
        d >= 1,
    ensures
        divides(d, (x - y) as nat),
{
    let kx = choose|k: nat| x == #[trigger] (d * k);
    let ky = choose|k: nat| y == #[trigger] (d * k);
    assert(kx >= ky) by (nonlinear_arith)
        requires
            x == d * kx,
            y == d * ky,
            y <= x,
            d >= 1,
    ;
    assert((x - y) as nat == d * ((kx - ky) as nat)) by (nonlinear_arith)
        requires
            x == d * kx,
            y == d * ky,
            kx >= ky,
    ;
}

/// Replacing one argument by its complement to the other leaves the gcd
/// alone.
pub proof fn lemma_gcd_complement(w: nat, m: nat)
    requires
        w <= m,
        m >= 1,
    ensures
        gcd((m - w) as nat, m) == gcd(w, m),
{
    let g1 = gcd((m - w) as nat, m);
    let g2 = gcd(w, m);
    lemma_gcd_divides((m - w) as nat, m);
    lemma_gcd_divides(w, m);
    lemma_gcd_pos(if m - w >= 0 {
        (m - w) as nat
    } else {
        0
    }, m);
    lemma_gcd_pos(w, m);
    lemma_divides_sub(g1, m, (m - w) as nat);
    assert(divides(g1, w));
    lemma_divides_gcd(g1, w, m);
    lemma_divides_sub(g2, m, w);
    assert(divides(g2, (m - w) as nat));
    lemma_divides_gcd(g2, (m - w) as nat, m);
    lemma_divides_antisym(g1, g2);
}

/// A positive multiple is at least as large as the divisor.
proof fn lemma_divides_le(d: nat, x: nat)
    requires
        divides(d, x),
        x >= 1,
    ensures
        x >= d,
{
    let k = choose|k: nat| x == #[trigger] (d * k);
    assert(k >= 1) by {
        if k == 0 {
            assert(x == d * 0);
        }
    }
    assert(d * k >= d * 1) by (nonlinear_arith)
        requires
            k >= 1,
    ;
}

/// The absolute value of a product is the product of the absolute
/// values.
proof fn lemma_abs_mul(a: int, b: int)
    ensures
        int_abs(a * b) == int_abs(a) * int_abs(b),
{
    if a >= 0 && b >= 0 {
        assert(a * b >= 0) by (nonlinear_arith)
            requires
                a >= 0,
                b >= 0,
        ;
    } else if a < 0 && b >= 0 {
        assert(a * b <= 0 && -(a * b) == (-a) * b) by (nonlinear_arith)
            requires
                a < 0,
                b >= 0,
        ;
    } else if a >= 0 && b < 0 {
        assert(a * b <= 0 && -(a * b) == a * (-b)) by (nonlinear_arith)
            requires
                a >= 0,
                b < 0,
        ;
    } else {
        assert(a * b >= 0 && a * b == (-a) * (-b)) by (nonlinear_arith)
            requires
                a < 0,
                b < 0,
        ;
    }
}

/// The Jacobi symbol of a non-negative numerator is zero exactly when
/// the numerator and the modulus share a factor.
pub proof fn lemma_jacobi_nat_zero_iff_gcd(a: nat, m: nat)
    requires
        m % 2 == 1,
        m >= 1,
    ensures
        (jacobi_nat(a, m) == 0) <==> (gcd(a, m) != 1),
    decreases m, a,
{
    if m <= 1 {
        assert(gcd(a, 1) == gcd(1, a % 1));
        assert(a % 1 == 0);
    } else if a >= m {
        lemma_jacobi_nat_zero_iff_gcd(a % m, m);
        lemma_gcd_mod(a, m);
    } else if a == 0 {
        assert(gcd(0, m) == gcd(m, 0nat % m));
        assert(0nat % m == 0) by {
            lemma_small_mod(0, m);
        }
        assert(gcd(m, 0) == m);
    } else if a % 2 == 0 {
        lemma_jacobi_nat_zero_iff_gcd(a / 2, m);
        assert(a == 2 * (a / 2));
        lemma_gcd_halving(a / 2, m);
        let f = crate::symbol::flip_halving(m);
        let inner = jacobi_nat(a / 2, m);
        assert(jacobi_nat(a, m) == f * inner);
        assert(f * inner == 0 <==> inner == 0) by (nonlinear_arith)
            requires
                f == 1 || f == -1,
        ;
    } else {
        lemma_jacobi_nat_zero_iff_gcd(m % a, a);
        lemma_gcd_mod(m, a);
        lemma_gcd_comm(m, a);
        let f = crate::symbol::flip_swap(a, m);
        let inner = jacobi_nat(m % a, a);
        assert(jacobi_nat(a, m) == f * inner);
        assert(f * inner == 0 <==> inner == 0) by (nonlinear_arith)
            requires
                f == 1 || f == -1,
        ;
    }
}

/// The Jacobi symbol is zero exactly when the magnitude of the
/// numerator and the modulus share a factor greater than one.
pub proof fn lemma_jacobi_zero_iff_gcd(a: int, m: nat)
    requires
        m % 2 == 1,
        m >= 1,
    ensures
        (jacobi_sym(a, m) == 0) <==> (gcd(int_abs(a), m) > 1),
{
    let r = (a % (m as int)) as nat;
    vstd::arithmetic::div_mod::lemma_mod_bound(a, m as int);
    lemma_jacobi_nat_zero_iff_gcd(r, m);
    lemma_gcd_pos(int_abs(a), m);
    if a >= 0 {
        lemma_gcd_mod(a as nat, m);
        assert(r == (a as nat) % m);
    } else {
        let v = int_abs(a);
        lemma_neg_mod(v as int, m as int);
        lemma_gcd_mod(v, m);
        if (v as int) % (m as int) == 0 {
            assert(r == 0);
            assert(v % m == 0);
            assert(gcd(r, m) == gcd(v % m, m)) by {
                assert(gcd(0nat, m) == gcd(m, 0nat % m));
            }
        } else {
            let w = v % m;
            assert(r == m - w);
            lemma_gcd_complement(w, m);
        }
    }
}


/// Multiplicativity of the symbol in the numerator, zero-absorbing
/// direction: a numerator that shares a factor with the modulus forces
/// the symbol of any product with it to zero as well, so the product
/// rule holds whenever one factor's symbol is zero.
pub proof fn lemma_jacobi_mul_zero(a: int, b: int, m: nat)
    requires
        m % 2 == 1,
        m >= 1,
        jacobi_sym(a, m) == 0,
    ensures
        jacobi_sym(a * b, m) == 0,
        jacobi_sym(a * b, m) == jacobi_sym(a, m) * jacobi_sym(b, m),
{
    lemma_jacobi_zero_iff_gcd(a, m);
    lemma_jacobi_zero_iff_gcd(a * b, m);
    let g = gcd(int_abs(a), m);
    lemma_gcd_divides(int_abs(a), m);
    lemma_abs_mul(a, b);
    let k = choose|k: nat| int_abs(a) == #[trigger] (g * k);
    assert(int_abs(a) * int_abs(b) == g * (k * int_abs(b))) by (nonlinear_arith)
        requires
            int_abs(a) == g * k,
    ;
    assert(divides(g, int_abs(a * b)));
    lemma_divides_gcd(g, int_abs(a * b), m);
    lemma_gcd_pos(int_abs(a * b), m);
    lemma_divides_le(g, gcd(int_abs(a * b), m));
}


} // verus!
