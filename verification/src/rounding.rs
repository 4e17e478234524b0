//! Rounding an exact result to a binary32 number.

use crate::ieee::{lemma_nearest_ratio, lemma_round_ratio, lemma_scale_is, nearest, round, Value};
use crate::scalar::{assemble, Scalar};
use vstd::arithmetic::div_mod::{
    lemma_basic_div, lemma_fundamental_div_mod, lemma_mod_bound, lemma_small_mod,
};
use vstd::arithmetic::power2::{lemma2_to64, lemma_pow2_adds, lemma_pow2_pos, lemma_pow2_unfold, pow2};
use vstd::prelude::*;

verus! {

/// The numerator of `(n / d) * 2^k` as a fraction of whole numbers.
pub open spec fn lift(n: nat, k: int) -> nat {
    if k >= 0 {
        n * pow2(k as nat)
    } else {
        n
    }
}

/// The denominator of `(n / d) * 2^k` as a fraction of whole numbers.
pub open spec fn lower(d: nat, k: int) -> nat {
    if k >= 0 {
        d
    } else {
        d * pow2((-k) as nat)
    }
}

/// `(a / b) * 2^j` and `num / den` are the same number.
pub open spec fn balanced(a: nat, b: nat, j: int, num: nat, den: nat) -> bool {
    if j >= 0 {
        a * pow2(j as nat) * den == num * b
    } else {
        a * den == num * (b * pow2((-j) as nat))
    }
}

/// Doubling the denominator is made up for by one more in the exponent.
proof fn lemma_balanced_double_den(a: nat, b: nat, j: int, num: nat, den: nat)
    requires
        balanced(a, b, j, num, den),
    ensures
        balanced(a, 2 * b, j + 1, num, den),
{
    lemma2_to64();
    if j >= 0 {
        let p = pow2(j as nat);
        lemma_pow2_unfold((j + 1) as nat);
        assert(a * (2 * p) * den == num * (2 * b)) by (nonlinear_arith)
            requires
                a * p * den == num * b,
        ;
    } else {
        let p = pow2((-j - 1) as nat);
        lemma_pow2_unfold((-j) as nat);
        assert(a * den == num * ((2 * b) * p)) by (nonlinear_arith)
            requires
                a * den == num * (b * (2 * p)),
        ;
        if j == -1 {
            assert(a * 1 * den == num * (2 * b)) by (nonlinear_arith)
                requires
                    a * den == num * ((2 * b) * p),
                    p == 1,
            ;
        }
    }
}

/// Doubling the numerator is made up for by one less in the exponent.
proof fn lemma_balanced_double_num(a: nat, b: nat, j: int, num: nat, den: nat)
    requires
        j > 0,
        balanced(a, b, j, num, den),
    ensures
        balanced(2 * a, b, j - 1, num, den),
{
    let p = pow2((j - 1) as nat);
    lemma_pow2_unfold(j as nat);
    assert((2 * a) * p * den == num * b) by (nonlinear_arith)
        requires
            a * (2 * p) * den == num * b,
    ;
}

/// A number below half a unit rounds to zero.
proof fn lemma_round_tiny(neg: bool, num: nat, den: nat)
    requires
        2 * num < den,
    ensures
        round(neg, num, den) == (Value::Finite { neg, units: 0 }),
{
    lemma2_to64();
    lemma_pow2_pos(277);
    assert(num < den * 0x100_0000) by (nonlinear_arith)
        requires
            2 * num < den,
    ;
    assert(den * pow2(0) == den) by (nonlinear_arith)
        requires
            pow2(0) == 1,
    ;
    lemma_small_mod(num, den);
    lemma_basic_div(num as int, den as int);
    assert(nearest(num, den) == 0);
    assert(0 * pow2(0) == 0) by (nonlinear_arith);
}

/// The number `(n / d) * 2^k` units, rounded, with the sign `neg`.
pub(crate) fn round_ratio(neg: bool, n: u128, d: u128, k: i32) -> (r: Scalar)
    requires
        n < 0x1_0000_0000_0000_0000,
        0 < d < 0x100_0000,
        -1000 <= k <= 1000,
    ensures
        r@ == round(neg, lift(n as nat, k as int), lower(d as nat, k as int)),
        r.canonical(),
{
    let ghost num = lift(n as nat, k as int);
    let ghost den = lower(d as nat, k as int);
    let mut a: u128 = n;
    let mut b: u128 = d;
    let mut j: i64 = k as i64;
    proof {
        lemma2_to64();
        if k >= 0 {
            assert(a * pow2(k as nat) * den == num * b) by (nonlinear_arith)
                requires
                    num == a * pow2(k as nat),
                    den == b,
            ;
        } else {
            lemma_pow2_pos((-k) as nat);
            assert(den > 0) by (nonlinear_arith)
                requires
                    den == d * pow2((-k) as nat),
                    d > 0,
                    pow2((-k) as nat) > 0,
            ;
        }
    }
    // bring the exponent up to zero; a number that small rounds to zero
    while j < 0
        invariant
            k <= j <= 1000,
            a == n,
            n < 0x1_0000_0000_0000_0000,
            0 < b < 0x20_0000_0000_0000_0000_0000_0000,
            den > 0,
            num == lift(n as nat, k as int),
            den == lower(d as nat, k as int),
            balanced(a as nat, b as nat, j as int, num, den),
        decreases -j,
    {
        if b >= 0x10_0000_0000_0000_0000_0000_0000 {
            proof {
                let p = pow2((-j) as nat);
                lemma_pow2_pos((-j) as nat);
                assert(2 * num < den) by (nonlinear_arith)
                    requires
                        a * den == num * (b * p),
                        a < 0x1_0000_0000_0000_0000,
                        b >= 0x10_0000_0000_0000_0000_0000_0000,
                        p >= 1,
                        den > 0,
                ;
                lemma_round_tiny(neg, num, den);
                assert(0 * pow2(0) == 0) by (nonlinear_arith);
                lemma_pow2_pos(277);
            }
            return assemble(neg, 0, 0);
        }
        proof {
            lemma_balanced_double_den(a as nat, b as nat, j as int, num, den);
        }
        b = b * 2;
        j = j + 1;
    }
    let ghost j1 = j;
    // bring the quotient below 2^24
    while a >= b * 0x100_0000
        invariant
            0 <= j1 <= j,
            j1 <= 1000,
            j == j1 || (j <= j1 + b && b <= 0x200_0000_0000),
            a == n,
            n < 0x1_0000_0000_0000_0000,
            0 < b < 0x20_0000_0000_0000_0000_0000_0000,
            den > 0,
            balanced(a as nat, b as nat, j as int, num, den),
        decreases
                (if a >= b * 0x100_0000 {
                    a - b * 0x100_0000 + 1
                } else {
                    0
                }),
    {
        proof {
            lemma_balanced_double_den(a as nat, b as nat, j as int, num, den);
        }
        b = b * 2;
        j = j + 1;
    }
    // and, as far as the exponent allows, up to 2^23
    while j > 0 && a < b * 0x80_0000
        invariant
            0 <= j <= 0x400_0000_0000,
            a < b * 0x100_0000,
            0 < b < 0x20_0000_0000_0000_0000_0000_0000,
            den > 0,
            balanced(a as nat, b as nat, j as int, num, den),
        decreases j,
    {
        proof {
            lemma_balanced_double_num(a as nat, b as nat, j as int, num, den);
        }
        a = a * 2;
        j = j - 1;
    }
    // `j` is now the scale, and `a / b` the significand before rounding
    let q = a / b;
    let rem = a % b;
    let up = 2 * rem > b || (2 * rem == b && q % 2 == 1);
    proof {
        lemma_mod_bound(a as int, b as int);
        lemma_fundamental_div_mod(a as int, b as int);
        assert(q < 0x100_0000) by (nonlinear_arith)
            requires
                a == b * q + rem,
                0 <= rem,
                0 < b,
                a < b * 0x100_0000,
        ;
        if j > 0 {
            assert(q >= 0x80_0000) by (nonlinear_arith)
                requires
                    a == b * q + rem,
                    rem < b,
                    0 < b,
                    a >= b * 0x80_0000,
            ;
        }
    }
    let m: u32 = if up { (q + 1) as u32 } else { q as u32 };
    proof {
        let p = pow2(j as nat);
        lemma_pow2_pos(j as nat);
        lemma_pow2_adds(24, j as nat);
        lemma_pow2_adds(23, j as nat);
        assert((a * p) * den == num * b);
        lemma_round_ratio(neg, num, den, a as nat * p, b as nat);
        assert(a * p < b * pow2((24 + j) as nat)) by (nonlinear_arith)
            requires
                a < b * 0x100_0000,
                pow2((24 + j) as nat) == 0x100_0000 * p,
                p > 0,
        ;
        if j > 0 {
            assert(a * p >= b * pow2((23 + j) as nat)) by (nonlinear_arith)
                requires
                    a >= b * 0x80_0000,
                    pow2((23 + j) as nat) == 0x80_0000 * p,
                    p > 0,
            ;
        }
        lemma_scale_is(a as nat * p, b as nat, j as nat);
        assert((a * p) * b == a * (b * p)) by (nonlinear_arith);
        assert(b * p > 0) by (nonlinear_arith)
            requires
                b > 0,
                p > 0,
        ;
        lemma_nearest_ratio(a as nat * p, b as nat * p, a as nat, b as nat);
        assert(m == nearest(a as nat, b as nat));
    }
    assemble(neg, m, j as u64)
}

} // verus!
