use vstd::prelude::*;
use vstd::arithmetic::div_mod::{
    lemma_div_denominator, lemma_div_is_strictly_smaller, lemma_fundamental_div_mod,
    lemma_fundamental_div_mod_converse, lemma_mod_multiples_vanish,
};
use vstd::arithmetic::power2::{lemma2_to64, lemma2_to64_rest, lemma_pow2_adds, lemma_pow2_pos, pow2};
use vstd::bits::lemma_u64_shr_is_div;
use crate::JacobiError;
use crate::symbol::{
    flip_halving, flip_swap, jacobi_nat, jacobi_sym, lemma_sign_combine,
};
use crate::variants::sign_of;

verus! {

/// Number of distinct values of one machine word.
pub open spec fn word_base() -> nat {
    0x1_0000_0000_0000_0000
}

/// Place value of the word at index k.
pub open spec fn wpow(k: nat) -> nat
    decreases k,
{
    if k == 0 {
        1
    } else {
        word_base() * wpow((k - 1) as nat)
    }
}

/// Value of the k least significant words of a little-endian word array.
pub open spec fn words_pre(s: Seq<u64>, k: int) -> nat
    decreases k,
{
    if k <= 0 {
        0
    } else {
        words_pre(s, k - 1) + wpow((k - 1) as nat) * (s[k - 1] as nat)
    }
}

/// Value of the words from index k upward, in place value relative to k.
pub open spec fn words_suf(s: Seq<u64>, k: int) -> nat
    decreases s.len() - k,
{
    if k < 0 || k >= s.len() {
        0
    } else {
        (s[k] as nat) + word_base() * words_suf(s, k + 1)
    }
}

/// Value of a little-endian word array.
pub open spec fn words_val(s: Seq<u64>) -> nat {
    words_pre(s, s.len() as int)
}

/// Every place value is positive.
pub proof fn lemma_wpow_pos(k: nat)
    ensures
        wpow(k) >= 1,
    decreases k,
{
    if k > 0 {
        lemma_wpow_pos((k - 1) as nat);
        assert(word_base() * wpow((k - 1) as nat) >= word_base() * 1) by (nonlinear_arith)
            requires
                wpow((k - 1) as nat) >= 1,
        ;
    }
}

/// The value of the k low words is below the place value of index k.
pub proof fn lemma_words_pre_bound(s: Seq<u64>, k: int)
    requires
        0 <= k <= s.len(),
    ensures
        words_pre(s, k) < wpow(k as nat),
    decreases k,
{
    if k == 0 {
    } else {
        lemma_words_pre_bound(s, k - 1);
        let w = s[k - 1] as nat;
        let p = wpow((k - 1) as nat);
        assert(p * w <= p * (word_base() - 1)) by (nonlinear_arith)
            requires
                w <= word_base() - 1,
                p >= 0,
        ;
        assert(p + p * (word_base() - 1) == word_base() * p) by (nonlinear_arith);
        assert(wpow(k as nat) == word_base() * p);
    }
}

/// The value of the k low words only depends on those words.
pub proof fn lemma_words_pre_congruent(s1: Seq<u64>, s2: Seq<u64>, k: int)
    requires
        0 <= k <= s1.len(),
        k <= s2.len(),
        forall|i: int| 0 <= i < k ==> s1[i] == s2[i],
    ensures
        words_pre(s1, k) == words_pre(s2, k),
    decreases k,
{
    if k > 0 {
        lemma_words_pre_congruent(s1, s2, k - 1);
    }
}

/// The low-to-high and high-to-low readings of a word array agree.
pub proof fn lemma_words_pre_suf(s: Seq<u64>, k: int)
    requires
        0 <= k <= s.len(),
    ensures
        words_val(s) == words_pre(s, k) + wpow(k as nat) * words_suf(s, k),
    decreases s.len() - k,
{
    if k == s.len() {
        assert(words_suf(s, k) == 0);
    } else {
        lemma_words_pre_suf(s, k + 1);
        let w = s[k] as nat;
        let p = wpow(k as nat);
        assert(words_suf(s, k) == w + word_base() * words_suf(s, k + 1));
        assert(wpow((k + 1) as nat) == word_base() * p);
        assert(p * (w + word_base() * words_suf(s, k + 1)) == p * w + (word_base() * p)
            * words_suf(s, k + 1)) by (nonlinear_arith);
        assert(words_pre(s, k + 1) == words_pre(s, k) + p * w);
        assert(p * w == w * p) by (nonlinear_arith);
    }
}

/// Reading a word array from the top gives its value.
pub proof fn lemma_words_val_suf0(s: Seq<u64>)
    ensures
        words_val(s) == words_suf(s, 0),
{
    lemma_words_pre_suf(s, 0);
    assert(words_pre(s, 0) == 0);
    assert(wpow(0) == 1);
    assert(wpow(0) * words_suf(s, 0) == words_suf(s, 0)) by (nonlinear_arith)
        requires
            wpow(0) == 1,
    ;
}

/// A word array has value zero exactly when every word is zero.
pub proof fn lemma_words_suf_zero(s: Seq<u64>, k: int)
    requires
        0 <= k <= s.len(),
    ensures
        (words_suf(s, k) == 0) <==> (forall|i: int| k <= i < s.len() ==> s[i] == 0),
    decreases s.len() - k,
{
    if k < s.len() {
        lemma_words_suf_zero(s, k + 1);
        if words_suf(s, k) == 0 {
            assert(word_base() * words_suf(s, k + 1) == 0);
            assert(words_suf(s, k + 1) == 0) by {
                if words_suf(s, k + 1) >= 1 {
                    assert(word_base() * words_suf(s, k + 1) >= word_base() * 1)
                        by (nonlinear_arith)
                        requires
                            words_suf(s, k + 1) >= 1,
                    ;
                }
            }
        } else {
            if s[k] == 0 && forall|i: int| k + 1 <= i < s.len() ==> s[i] == 0 {
                assert(words_suf(s, k + 1) == 0);
                assert(words_suf(s, k) == 0);
            }
        }
    }
}

/// A word array has value one exactly when its first word is one and
/// every other word is zero.
pub proof fn lemma_words_val_one(s: Seq<u64>)
    requires
        s.len() > 0,
    ensures
        (words_suf(s, 0) == 1) <==> (s[0] == 1 && forall|i: int| 1 <= i < s.len() ==> s[i] == 0),
{
    lemma_words_suf_zero(s, 1);
    if words_suf(s, 0) == 1 {
        assert(words_suf(s, 1) == 0) by {
            if words_suf(s, 1) >= 1 {
                assert(word_base() * words_suf(s, 1) >= word_base() * 1) by (nonlinear_arith)
                    requires
                        words_suf(s, 1) >= 1,
                ;
            }
        }
        assert(s[0] == 1);
    } else {
        if s[0] == 1 && forall|i: int| 1 <= i < s.len() ==> s[i] == 0 {
            assert(words_suf(s, 1) == 0);
            assert(words_suf(s, 0) == 1);
        }
    }
}

/// The low word fixes the value modulo 2, 4 and 8 as well as the second
/// and third binary digits of the value.
pub proof fn lemma_words_low(s: Seq<u64>)
    requires
        s.len() > 0,
    ensures
        words_val(s) % 2 == (s[0] as nat) % 2,
        words_val(s) % 4 == (s[0] as nat) % 4,
        words_val(s) % 8 == (s[0] as nat) % 8,
        words_val(s) / 2 % 2 == (s[0] as nat) / 2 % 2,
        words_val(s) / 4 % 2 == (s[0] as nat) / 4 % 2,
{
    lemma_words_val_suf0(s);
    let v = words_val(s) as int;
    let d = s[0] as int;
    let r = words_suf(s, 1) as int;
    assert(words_suf(s, 0) == s[0] as nat + word_base() * words_suf(s, 1));
    assert(v == d + 0x1_0000_0000_0000_0000 * r);
    assert(v % 2 == d % 2) by {
        lemma_mod_multiples_vanish(0x8000_0000_0000_0000 * r, d, 2);
    }
    assert(v % 4 == d % 4) by {
        lemma_mod_multiples_vanish(0x4000_0000_0000_0000 * r, d, 4);
    }
    assert(v % 8 == d % 8) by {
        lemma_mod_multiples_vanish(0x2000_0000_0000_0000 * r, d, 8);
    }
    assert(v / 2 == 0x8000_0000_0000_0000 * r + d / 2 && v % 2 == d % 2) by {
        lemma_fundamental_div_mod(d, 2);
        lemma_fundamental_div_mod_converse(v, 2, 0x8000_0000_0000_0000 * r + d / 2, d % 2);
    }
    assert((0x8000_0000_0000_0000 * r + d / 2) % 2 == (d / 2) % 2) by {
        lemma_mod_multiples_vanish(0x4000_0000_0000_0000 * r, d / 2, 2);
    }
    assert(v / 4 == 0x4000_0000_0000_0000 * r + d / 4 && v % 4 == d % 4) by {
        lemma_fundamental_div_mod(d, 4);
        lemma_fundamental_div_mod_converse(v, 4, 0x4000_0000_0000_0000 * r + d / 4, d % 4);
    }
    assert((0x4000_0000_0000_0000 * r + d / 4) % 2 == (d / 4) % 2) by {
        lemma_mod_multiples_vanish(0x2000_0000_0000_0000 * r, d / 4, 2);
    }
}

/// A fresh all-zero word array of the requested width.
pub fn words_zero(w: usize) -> (r: Vec<u64>)
    ensures
        r@.len() == w,
        words_val(r@) == 0,
        forall|i: int| 0 <= i < w ==> r@[i] == 0,
{
    let mut out: Vec<u64> = Vec::new();
    let mut i: usize = 0;
    while i < w
        invariant
            i <= w,
            out@.len() == i,
            forall|j: int| 0 <= j < i ==> out@[j] == 0,
        decreases w - i,
    {
        out.push(0);
        i += 1;
    }
    proof {
        lemma_words_suf_zero(out@, 0);
        lemma_words_val_suf0(out@);
    }
    out
}

/// True exactly when the word array has value zero.
pub fn fixed_is_zero(v: &Vec<u64>) -> (r: bool)
    ensures
        r <==> (words_val(v@) == 0),
{
    proof {
        lemma_words_suf_zero(v@, 0);
        lemma_words_val_suf0(v@);
    }
    let mut i: usize = 0;
    while i < v.len()
        invariant
            i <= v@.len(),
            forall|j: int| 0 <= j < i ==> v@[j] == 0,
        decreases v@.len() - i,
    {
        if v[i] != 0 {
            proof {
                lemma_words_suf_zero(v@, 0);
                lemma_words_val_suf0(v@);
            }
            return false;
        }
        i += 1;
    }
    true
}

/// True exactly when the word array has value one.
pub fn fixed_is_one(v: &Vec<u64>) -> (r: bool)
    ensures
        r <==> (words_val(v@) == 1),
{
    proof {
        lemma_words_val_suf0(v@);
        if v@.len() > 0 {
            lemma_words_val_one(v@);
        }
    }
    if v.len() == 0 {
        return false;
    }
    if v[0] != 1 {
        return false;
    }
    let mut i: usize = 1;
    while i < v.len()
        invariant
            1 <= i <= v@.len(),
            v@.len() > 0,
            v@[0] == 1,
            forall|j: int| 1 <= j < i ==> v@[j] == 0,
        decreases v@.len() - i,
    {
        if v[i] != 0 {
            proof {
                lemma_words_val_suf0(v@);
                lemma_words_val_one(v@);
            }
            return false;
        }
        i += 1;
    }
    proof {
        lemma_words_val_suf0(v@);
        lemma_words_val_one(v@);
    }
    true
}

/// True exactly when the first array's value is at least the second's.
pub fn fixed_ge(a: &Vec<u64>, b: &Vec<u64>) -> (r: bool)
    requires
        a@.len() == b@.len(),
    ensures
        r <==> (words_val(a@) >= words_val(b@)),
{
    let mut eq = true;
    let mut gt = false;
    let mut k: usize = 0;
    while k < a.len()
        invariant
            k <= a@.len(),
            a@.len() == b@.len(),
            eq <==> (words_pre(a@, k as int) == words_pre(b@, k as int)),
            gt <==> (words_pre(a@, k as int) > words_pre(b@, k as int)),
        decreases a@.len() - k,
    {
        let ghost pa = words_pre(a@, k as int);
        let ghost pb = words_pre(b@, k as int);
        let ghost p = wpow(k as nat);
        proof {
            lemma_words_pre_bound(a@, k as int);
            lemma_words_pre_bound(b@, k as int);
        }
        let aw = a[k];
        let bw = b[k];
        if aw > bw {
            proof {
                lemma_wpow_pos(k as nat);
                assert(p * (aw as nat) >= p * (bw as nat) + p) by (nonlinear_arith)
                    requires
                        aw as nat >= bw as nat + 1,
                        p >= 1,
                ;
            }
            eq = false;
            gt = true;
        } else if aw < bw {
            proof {
                lemma_wpow_pos(k as nat);
                assert(p * (bw as nat) >= p * (aw as nat) + p) by (nonlinear_arith)
                    requires
                        bw as nat >= aw as nat + 1,
                        p >= 1,
                ;
            }
            eq = false;
            gt = false;
        } else {
            proof {
                assert(p * (aw as nat) == p * (bw as nat));
            }
        }
        k += 1;
    }
    gt || eq
}

/// Difference of two word arrays of the same width; the first value must
/// be at least the second.
pub fn fixed_sub(a: &Vec<u64>, b: &Vec<u64>) -> (r: Vec<u64>)
    requires
        a@.len() == b@.len(),
        words_val(b@) <= words_val(a@),
    ensures
        r@.len() == a@.len(),
        words_val(r@) == words_val(a@) - words_val(b@),
{
    let n = a.len();
    let mut out: Vec<u64> = Vec::new();
    let mut borrow: u64 = 0;
    let mut k: usize = 0;
    while k < n
        invariant
            k <= n,
            a@.len() == n,
            b@.len() == n,
            out@.len() == k,
            borrow == 0 || borrow == 1,
            words_pre(a@, k as int) - words_pre(b@, k as int) == words_pre(out@, k as int) - wpow(
                k as nat,
            ) * (borrow as nat),
        decreases n - k,
    {
        let aw = a[k];
        let bw = b[k];
        let ghost pre_out = words_pre(out@, k as int);
        let (ow, nb): (u64, u64) = if (aw as u128) >= (bw as u128) + (borrow as u128) {
            (aw - bw - borrow, 0u64)
        } else {
            let d: u128 = (aw as u128) + 0x1_0000_0000_0000_0000u128 - (bw as u128) - (
            borrow as u128);
            assert(d < 0x1_0000_0000_0000_0000u128);
            ((d as u64), 1u64)
        };
        proof {
            assert(ow as int == aw as int - bw as int - borrow as int + 0x1_0000_0000_0000_0000int
                * (nb as int));
        }
        let ghost old_out = out@;
        out.push(ow);
        proof {
            lemma_words_pre_congruent(old_out, out@, k as int);
            assert(out@[k as int] == ow);
            assert(words_pre(out@, (k + 1) as int) == pre_out + wpow(k as nat) * (ow as nat));
            let p = wpow(k as nat);
            assert(wpow((k + 1) as nat) == word_base() * p);
            assert(p * (ow as nat) == p * (aw as nat) - p * (bw as nat) - p * (borrow as nat) + (
            word_base() * p) * (nb as nat)) by (nonlinear_arith)
                requires
                    ow as int == aw as int - bw as int - borrow as int + 0x1_0000_0000_0000_0000int
                        * (nb as int),
            ;
        }
        borrow = nb;
        k += 1;
    }
    proof {
        if borrow == 1 {
            lemma_words_pre_bound(out@, n as int);
            lemma_wpow_pos(n as nat);
        }
    }
    out
}

/// Doubles a word array and adds one low bit, i.e. shifts in one bit
/// from below; the value must stay below the width's range.
pub fn fixed_shl1_or(v: &Vec<u64>, bit: u64) -> (r: Vec<u64>)
    requires
        bit == 0 || bit == 1,
        2 * words_val(v@) + bit < wpow(v@.len() as nat),
    ensures
        r@.len() == v@.len(),
        words_val(r@) == 2 * words_val(v@) + bit,
{
    let n = v.len();
    let mut out: Vec<u64> = Vec::new();
    let mut carry: u64 = bit;
    let mut k: usize = 0;
    while k < n
        invariant
            k <= n,
            v@.len() == n,
            out@.len() == k,
            carry == 0 || carry == 1,
            2 * words_pre(v@, k as int) + bit == words_pre(out@, k as int) + wpow(k as nat) * (
            carry as nat),
        decreases n - k,
    {
        let w = v[k];
        let ghost pre_out = words_pre(out@, k as int);
        let ow: u64 = (w << 1u64) | carry;
        let nc: u64 = w >> 63u64;
        proof {
            let c = carry;
            assert((((w << 1u64) | c) as u128) + (((w >> 63u64) as u128) << 64u128) == ((
            w as u128) << 1u128) + (c as u128)) by (bit_vector)
                requires
                    c == 0u64 || c == 1u64,
            ;
            assert((w >> 63u64) == 0u64 || (w >> 63u64) == 1u64) by (bit_vector);
            assert(((w as u128) << 1u128) == 2 * (w as u128)) by (bit_vector);
            assert((((w >> 63u64) as u128) << 64u128) == 0x1_0000_0000_0000_0000u128 * ((w
                >> 63u64) as u128)) by (bit_vector);
            assert(ow as int == 2 * (w as int) + c - 0x1_0000_0000_0000_0000int * (nc as int));
        }
        let ghost old_out = out@;
        out.push(ow);
        proof {
            lemma_words_pre_congruent(old_out, out@, k as int);
            assert(out@[k as int] == ow);
            assert(words_pre(out@, (k + 1) as int) == pre_out + wpow(k as nat) * (ow as nat));
            let p = wpow(k as nat);
            assert(wpow((k + 1) as nat) == word_base() * p);
            assert(p * (ow as nat) == 2 * (p * (w as nat)) + p * (carry as nat) - (word_base() * p)
                * (nc as nat)) by (nonlinear_arith)
                requires
                    ow as int == 2 * (w as int) + (carry as int) - 0x1_0000_0000_0000_0000int * (
                    nc as int),
            ;
        }
        carry = nc;
        k += 1;
    }
    proof {
        if carry == 1 {
            lemma_wpow_pos(n as nat);
            assert(words_pre(out@, n as int) >= 0);
            assert(2 * words_val(v@) + bit >= wpow(n as nat));
        }
    }
    out
}

/// Halves a word array, discarding the lowest bit.
pub fn fixed_shr1(v: &Vec<u64>) -> (r: Vec<u64>)
    ensures
        r@.len() == v@.len(),
        words_val(r@) == words_val(v@) / 2,
{
    let n = v.len();
    let mut out: Vec<u64> = Vec::new();
    if n == 0 {
        return out;
    }
    let ghost b0: nat = (v@[0] as nat) % 2;
    proof {
        assert(wpow(0) == 1);
    }
    let mut k: usize = 0;
    while k < n
        invariant
            k <= n,
            v@.len() == n,
            out@.len() == k,
            n > 0,
            b0 == (v@[0] as nat) % 2,
            2 * words_pre(out@, k as int) + b0 == words_pre(v@, k as int) + wpow(k as nat) * (if k
                < n {
                (v@[k as int] as nat) % 2
            } else {
                0
            }),
        decreases n - k,
    {
        proof {
            assert(wpow(0) == 1);
        }
        let w = v[k];
        let high: u64 = if k + 1 < n {
            v[k + 1]
        } else {
            0
        };
        let ow: u64 = (w >> 1u64) | (high << 63u64);
        let ghost pre_out = words_pre(out@, k as int);
        proof {
            assert(2 * ((((w >> 1u64) | (high << 63u64))) as u128) + ((w & 1u64) as u128) == (
            w as u128) + (((high & 1u64) as u128) << 64u128)) by (bit_vector);
            assert(((w & 1u64) as nat) == (w as nat) % 2) by (bit_vector);
            assert(((high & 1u64) as nat) == (high as nat) % 2) by (bit_vector);
            assert((((high & 1u64) as u128) << 64u128) == 0x1_0000_0000_0000_0000u128 * ((high
                & 1u64) as u128)) by (bit_vector);
            assert(2 * (ow as int) + (w as int) % 2 == (w as int)
                + 0x1_0000_0000_0000_0000int * ((high as int) % 2));
        }
        let ghost old_out = out@;
        out.push(ow);
        proof {
            lemma_words_pre_congruent(old_out, out@, k as int);
            assert(out@[k as int] == ow);
            assert(words_pre(out@, (k + 1) as int) == pre_out + wpow(k as nat) * (ow as nat));
            let p = wpow(k as nat);
            assert(wpow((k + 1) as nat) == word_base() * p);
            assert(2 * (p * (ow as nat)) + p * ((w as nat) % 2) == p * (w as nat) + (word_base()
                * p) * ((high as nat) % 2)) by (nonlinear_arith)
                requires
                    2 * (ow as int) + (w as int) % 2 == (w as int) + 0x1_0000_0000_0000_0000int * ((
                    high as int) % 2),
            ;
            if k + 1 < n {
                assert(v@[(k + 1) as int] == high);
            } else {
                assert(high == 0);
            }
        }
        k += 1;
    }
    proof {
        if n == 0 {
            assert(words_val(v@) == 0);
        } else {
            assert(2 * words_val(out@) + b0 == words_val(v@));
            assert(b0 < 2);
            lemma_fundamental_div_mod_converse(
                words_val(v@) as int,
                2,
                words_val(out@) as int,
                b0 as int,
            );
        }
    }
    out
}

/// Element-for-element copy of a word vector.
pub fn words_copy(v: &Vec<u64>) -> (r: Vec<u64>)
    ensures
        r@ == v@,
{
    let mut out: Vec<u64> = Vec::new();
    let mut i: usize = 0;
    while i < v.len()
        invariant
            i <= v@.len(),
            out@ =~= v@.subrange(0, i as int),
        decreases v@.len() - i,
    {
        out.push(v[i]);
        i += 1;
    }
    proof {
        assert(out@ =~= v@);
    }
    out
}

/// The top bit of the highest word decides whether doubling the value
/// stays inside the width's range.
pub proof fn lemma_top_bit(s: Seq<u64>)
    requires
        s.len() >= 1,
    ensures
        (s[s.len() - 1] as nat >= 0x8000_0000_0000_0000) <==> (2 * words_val(s) >= wpow(
            s.len() as nat,
        )),
{
    let n = s.len() as int;
    let w = s[n - 1] as nat;
    let p = wpow((n - 1) as nat);
    lemma_wpow_pos((n - 1) as nat);
    assert(words_val(s) == words_pre(s, n - 1) + p * w);
    assert(wpow(n as nat) == word_base() * p);
    lemma_words_pre_bound(s, n - 1);
    if w >= 0x8000_0000_0000_0000 {
        assert(p * w >= p * 0x8000_0000_0000_0000) by (nonlinear_arith)
            requires
                w >= 0x8000_0000_0000_0000,
                p >= 1,
        ;
        assert(2 * (p * 0x8000_0000_0000_0000) == word_base() * p) by (nonlinear_arith);
    } else {
        assert(p * w <= p * 0x7FFF_FFFF_FFFF_FFFF) by (nonlinear_arith)
            requires
                w <= 0x7FFF_FFFF_FFFF_FFFF,
                p >= 1,
        ;
        assert(2 * (p + p * 0x7FFF_FFFF_FFFF_FFFF) <= word_base() * p) by (nonlinear_arith);
    }
}

/// Remainder of a word array by a positive modulus of the same width
/// whose doubled value still fits the width, computed by binary long
/// division from the most significant bit down.
pub fn fixed_rem(x: &Vec<u64>, md: &Vec<u64>) -> (r: Vec<u64>)
    requires
        x@.len() == md@.len(),
        words_val(md@) >= 1,
        2 * words_val(md@) <= wpow(md@.len() as nat),
    ensures
        r@.len() == x@.len(),
        words_val(r@) == words_val(x@) % words_val(md@),
        words_val(r@) < words_val(md@),
{
    let n = x.len();
    let ghost mv: int = words_val(md@) as int;
    let mut r = words_zero(n);
    let ghost mut vtop: int = 0;
    let mut widx: usize = 0;
    while widx < n
        invariant
            widx <= n,
            x@.len() == n,
            md@.len() == n,
            r@.len() == n,
            mv == words_val(md@),
            mv >= 1,
            2 * mv <= wpow(n as nat),
            vtop == words_suf(x@, n - widx),
            vtop >= 0,
            words_val(r@) == vtop % mv,
            words_val(r@) < mv,
        decreases n - widx,
    {
        let wi = n - 1 - widx;
        let w = x[wi];
        let ghost vword_start: int = vtop;
        let mut j: usize = 0;
        proof {
            lemma2_to64();
            lemma2_to64_rest();
            assert((w as nat) / pow2(64) == 0) by {
                assert(pow2(64) == 0x1_0000_0000_0000_0000);
            }
        }
        while j < 64
            invariant
                j <= 64,
                x@.len() == n,
                md@.len() == n,
                r@.len() == n,
                mv == words_val(md@),
                mv >= 1,
                2 * mv <= wpow(n as nat),
                w == x@[n - 1 - widx],
                widx < n,
                vword_start >= 0,
                vtop == vword_start * pow2(j as nat) + (w as nat) / pow2((64 - j) as nat),
                vtop >= 0,
                words_val(r@) == vtop % mv,
                words_val(r@) < mv,
            decreases 64 - j,
        {
            let sh: u64 = 63 - (j as u64);
            let bit: u64 = (w >> sh) & 1;
            proof {
                lemma_u64_shr_is_div(w, sh);
                assert(((w >> sh) & 1) == (w >> sh) % 2) by (bit_vector);
                // One more bit of w enters the running value.
                let q1 = (w as nat) / pow2(sh as nat);
                let q0 = (w as nat) / pow2((sh + 1) as nat);
                lemma_pow2_pos(sh as nat);
                lemma_pow2_adds(sh as nat, 1);
                assert(pow2(1) == 2) by {
                    lemma2_to64();
                }
                lemma_div_denominator(w as int, pow2(sh as nat) as int, 2);
                assert(q0 == q1 / 2);
                lemma_fundamental_div_mod(q1 as int, 2);
                assert(q1 == 2 * q0 + q1 % 2);
                assert(bit as int == q1 % 2);
            }
            let r2 = fixed_shl1_or(&r, bit);
            let ghost vt0: int = vtop;
            let ghost u: int = 2 * words_val(r@) + bit as int;
            proof {
                lemma_fundamental_div_mod(vt0, mv);
            }
            let ghost q: int = vt0 / mv;
            if fixed_ge(&r2, md) {
                r = fixed_sub(&r2, md);
                proof {
                    assert((2 * q + 1) * mv == 2 * (mv * q) + mv) by (nonlinear_arith);
                    assert(2 * vt0 + bit == (2 * q + 1) * mv + (u - mv));
                    lemma_fundamental_div_mod_converse(2 * vt0 + bit, mv, 2 * q + 1, u - mv);
                    assert(words_val(r@) == (2 * vt0 + bit) % mv);
                }
            } else {
                r = r2;
                proof {
                    assert((2 * q) * mv == 2 * (mv * q)) by (nonlinear_arith);
                    assert(2 * vt0 + bit == (2 * q) * mv + u);
                    lemma_fundamental_div_mod_converse(2 * vt0 + bit, mv, 2 * q, u);
                    assert(words_val(r@) == (2 * vt0 + bit) % mv);
                }
            }
            proof {
                vtop = 2 * vt0 + bit;
                assert(words_val(r@) == vtop % mv);
                // Recompute the invariant shape for the next bit.
                let pj = pow2(j as nat);
                assert(pow2((j + 1) as nat) == 2 * pj) by {
                    lemma_pow2_adds(j as nat, 1);
                    lemma2_to64();
                }
                assert(2 * (vword_start * pj) == vword_start * (2 * pj)) by (nonlinear_arith);
            }
            j += 1;
        }
        proof {
            assert(pow2(0) == 1) by {
                lemma2_to64();
            }
            assert(pow2(64) == 0x1_0000_0000_0000_0000) by {
                lemma2_to64_rest();
            }
            assert((w as nat) / 1 == w as nat);
            assert(vtop == vword_start * 0x1_0000_0000_0000_0000 + w as nat);
            assert(words_suf(x@, n - 1 - widx) == (w as nat) + word_base() * words_suf(
                x@,
                n - widx,
            ));
            assert(vword_start * 0x1_0000_0000_0000_0000 == 0x1_0000_0000_0000_0000 * vword_start)
                by (nonlinear_arith);
        }
        widx += 1;
    }
    proof {
        lemma_words_val_suf0(x@);
    }
    r
}

/// An unsigned integer stored in a fixed, caller-selected number of
/// machine words, least significant word first.
pub struct FixedInt<const W: usize> {
    /// The W words of the magnitude.
    pub words: Vec<u64>,
}

impl<const W: usize> FixedInt<W> {
    /// Well-formed: exactly W words are stored.
    pub open spec fn wf(&self) -> bool {
        self.words@.len() == W
    }

    /// The represented value.
    pub open spec fn value(&self) -> nat {
        words_val(self.words@)
    }

    /// Builds a fixed-width integer from up to W little-endian words,
    /// padding the missing high words with zeros.
    pub fn from_words(src: &[u64]) -> (r: Result<FixedInt<W>, JacobiError>)
        ensures
            r is Ok <==> src@.len() <= W,
            r matches Ok(f) ==> f.wf() && f.value() == words_val(src@),
            r matches Err(e) ==> e == JacobiError::CapacityExceeded,
    {
        if src.len() > W {
            return Err(JacobiError::CapacityExceeded);
        }
        let mut out: Vec<u64> = Vec::new();
        let mut i: usize = 0;
        while i < src.len()
            invariant
                i <= src@.len(),
                out@ =~= src@.subrange(0, i as int),
            decreases src@.len() - i,
        {
            out.push(src[i]);
            i += 1;
        }
        proof {
            assert(out@ =~= src@);
        }
        let ghost filled = out@;
        while i < W
            invariant
                src@.len() <= i <= W,
                out@.len() == i,
                filled == src@,
                forall|k: int| 0 <= k < src@.len() ==> out@[k] == src@[k],
                forall|k: int| src@.len() <= k < i ==> out@[k] == 0,
            decreases W - i,
        {
            out.push(0);
            i += 1;
        }
        proof {
            lemma_words_zero_ext(src@, out@, W as int);
        }
        Ok(FixedInt { words: out })
    }
}

/// Extending a word array with zero words does not change its value.
pub proof fn lemma_words_zero_ext(s: Seq<u64>, s2: Seq<u64>, k: int)
    requires
        s.len() <= k <= s2.len(),
        forall|i: int| 0 <= i < s.len() ==> s2[i] == s[i],
        forall|i: int| s.len() <= i < k ==> s2[i] == 0,
    ensures
        words_pre(s2, k) == words_val(s),
    decreases k,
{
    if k == s.len() {
        lemma_words_pre_congruent(s, s2, k);
    } else {
        lemma_words_zero_ext(s, s2, k - 1);
        assert(wpow((k - 1) as nat) * (s2[k - 1] as nat) == 0);
    }
}

/// Smallest number of machine words whose width class holds values of
/// the given bit length, including the headroom bit that the reduction
/// loop needs.
pub fn select_width(bit_length: usize) -> (w: usize)
    ensures
        w >= 1,
        64 * (w as int) > bit_length as int,
        w as int == bit_length as int / 64 + 1,
{
    proof {
        if bit_length > 0 {
            lemma_div_is_strictly_smaller(bit_length as int, 64);
        }
        lemma_fundamental_div_mod(bit_length as int, 64);
    }
    bit_length / 64 + 1
}

/// Fixed-width Jacobi symbol: the same binary reduction as the
/// arbitrary-precision variants, with every shift, bit read, comparison
/// and remainder computed directly on W-word arrays.
///
/// The modulus must be odd and positive, and must leave the width's top
/// bit clear: the reduction doubles intermediate values, so the width
/// class of W words holds moduli of up to 64 * W - 1 bits.
pub fn jacobi_fixed<const W: usize>(a: &FixedInt<W>, m: &FixedInt<W>) -> (r: Result<
    i8,
    JacobiError,
>)
    requires
        a.wf(),
        m.wf(),
    ensures
        r == Err::<i8, JacobiError>(JacobiError::InvalidModulus) <==> !(m.value() > 0 && m.value()
            % 2 == 1),
        r is Ok <==> (m.value() > 0 && m.value() % 2 == 1 && 2 * m.value() < wpow(W as nat)),
        r matches Ok(t) ==> t as int == jacobi_sym(a.value() as int, m.value()) && -1 <= t
            <= 1,
{
    if fixed_is_zero(&m.words) {
        return Err(JacobiError::InvalidModulus);
    }
    proof {
        if m.words@.len() == 0 {
            assert(words_val(m.words@) == 0);
        }
    }
    let mlow = m.words[0];
    proof {
        lemma_words_low(m.words@);
    }
    if mlow % 2 == 0 {
        return Err(JacobiError::InvalidModulus);
    }
    let mtop = m.words[W - 1];
    proof {
        lemma_top_bit(m.words@);
    }
    if mtop >= 0x8000_0000_0000_0000 {
        return Err(JacobiError::CapacityExceeded);
    }
    let ghost a0: int = a.value() as int;
    let ghost m0: nat = m.value();
    let mut wa = fixed_rem(&a.words, &m.words);
    let mut wm = words_copy(&m.words);
    let mut t: bool = true;
    let mut done = fixed_is_zero(&wa);
    while !done
        invariant
            done <==> words_val(wa@) == 0,
            wa@.len() == W,
            wm@.len() == W,
            words_val(wm@) % 2 == 1,
            words_val(wa@) < words_val(wm@),
            2 * words_val(wm@) <= wpow(W as nat),
            m0 % 2 == 1,
            m0 >= 1,
            jacobi_sym(a0, m0) == sign_of(t) * jacobi_nat(words_val(wa@), words_val(wm@)),
        decreases words_val(wa@),
    {
        let ghost va_start = words_val(wa@);
        proof {
            assert(wa@.len() > 0) by {
                if wa@.len() == 0 {
                    assert(words_val(wa@) == 0);
                }
            }
            lemma_words_low(wa@);
        }
        let mut low = wa[0];
        while low % 2 == 0
            invariant
                wa@.len() == W,
                wm@.len() == W,
                W > 0,
                low == wa@[0],
                1 <= words_val(wa@) <= va_start,
                words_val(wa@) < words_val(wm@),
                words_val(wm@) % 2 == 1,
                m0 % 2 == 1,
                m0 >= 1,
                jacobi_sym(a0, m0) == sign_of(t) * jacobi_nat(words_val(wa@), words_val(wm@)),
            decreases words_val(wa@),
        {
            let ghost va = words_val(wa@);
            let ghost vm = words_val(wm@);
            proof {
                lemma_words_low(wa@);
                assert(va % 2 == 0);
                assert(jacobi_nat(va, vm) == flip_halving(vm) * jacobi_nat(va / 2, vm));
            }
            wa = fixed_shr1(&wa);
            let lm = wm[0];
            let ghost told = t;
            if lm % 8 == 3 || lm % 8 == 5 {
                t = !t;
            }
            proof {
                lemma_words_low(wm@);
                assert((lm as nat) % 8 == vm % 8);
                lemma_sign_combine(
                    flip_halving(vm),
                    1,
                    sign_of(told),
                    sign_of(t),
                    jacobi_nat(va / 2, vm),
                );
            }
            low = wa[0];
        }
        // The numerator is now odd; exchange the pair and reduce.
        let ghost va = words_val(wa@);
        let ghost vm = words_val(wm@);
        proof {
            lemma_words_low(wa@);
            assert(va % 2 == 1);
            assert(jacobi_nat(va, vm) == flip_swap(va, vm) * jacobi_nat(vm % va, va));
        }
        let tmp = wa;
        wa = wm;
        wm = tmp;
        let la = wa[0];
        let lm = wm[0];
        let ghost told = t;
        if la % 4 == 3 && lm % 4 == 3 {
            t = !t;
        }
        proof {
            lemma_words_low(wa@);
            lemma_words_low(wm@);
            assert((la as nat) % 4 == vm % 4);
            assert((lm as nat) % 4 == va % 4);
            lemma_sign_combine(
                flip_swap(va, vm),
                1,
                sign_of(told),
                sign_of(t),
                jacobi_nat(vm % va, va),
            );
        }
        wa = fixed_rem(&wa, &wm);
        done = fixed_is_zero(&wa);
    }
    if fixed_is_one(&wm) {
        proof {
            assert(jacobi_nat(0, 1) == 1);
        }
        Ok(
            if t {
                1
            } else {
                -1
            },
        )
    } else {
        proof {
            assert(jacobi_nat(0, words_val(wm@)) == 0);
        }
        Ok(0)
    }
}

/// Fixed-width Jacobi symbol on raw little-endian word slices: the
/// operands are loaded into the width class of W words and handed to
/// `jacobi_fixed`. A slice with more than W words does not fit the
/// class and is rejected before the modulus is inspected.
pub fn jacobi_taiko<const W: usize>(a: &[u64], m: &[u64]) -> (r: Result<i8, JacobiError>)
    ensures
        (a@.len() > W || m@.len() > W) ==> r == Err::<i8, JacobiError>(
            JacobiError::CapacityExceeded,
        ),
        (a@.len() <= W && m@.len() <= W) ==> {
            &&& r == Err::<i8, JacobiError>(JacobiError::InvalidModulus) <==> !(words_val(m@) > 0
                && words_val(m@) % 2 == 1)
            &&& r is Ok <==> (words_val(m@) > 0 && words_val(m@) % 2 == 1 && 2 * words_val(m@)
                < wpow(W as nat))
        },
        r matches Ok(t) ==> t as int == jacobi_sym(words_val(a@) as int, words_val(m@)) && -1
            <= t <= 1,
{
    let fa = match FixedInt::<W>::from_words(a) {
        Ok(f) => f,
        Err(e) => {
            return Err(e);
        },
    };
    let fm = match FixedInt::<W>::from_words(m) {
        Ok(f) => f,
        Err(e) => {
            return Err(e);
        },
    };
    jacobi_fixed(&fa, &fm)
}

} // verus!
