//! The square root of a binary32 number.

use crate::ieee::{
    isqrt, lemma_scale_bounds, lemma_scale_is, lemma_units_representable, limit, round_root, scale,
    Value,
};
use crate::scalar::{lemma_encodable, lemma_view_representable};
use crate::scalar::{assemble, lemma_of_view, Kind, Scalar};
use vstd::arithmetic::power2::{lemma2_to64, lemma_pow2_adds, lemma_pow2_pos, lemma_pow2_unfold, pow2};
use vstd::prelude::*;

verus! {

/// `isqrt(n)` is the whole part of the root: its square does not exceed
/// `n`, the next square does.
pub proof fn lemma_isqrt_bounds(n: nat)
    ensures
        isqrt(n) * isqrt(n) <= n < (isqrt(n) + 1) * (isqrt(n) + 1),
    decreases n,
{
    if n != 0 {
        let h = isqrt(n / 4);
        lemma_isqrt_bounds(n / 4);
        let r = 2 * h;
        assert(r * r <= n < (r + 2) * (r + 2)) by (nonlinear_arith)
            requires
                h * h <= n / 4 < (h + 1) * (h + 1),
                r == 2 * h,
        ;
        let v = isqrt(n);
        if (r + 1) * (r + 1) <= n {
            assert(v * v <= n < (v + 1) * (v + 1)) by (nonlinear_arith)
                requires
                    v == r + 1,
                    (r + 1) * (r + 1) <= n,
                    n < (r + 2) * (r + 2),
            ;
        } else {
            assert(v * v <= n < (v + 1) * (v + 1)) by (nonlinear_arith)
                requires
                    v == r,
                    r * r <= n,
                    n < (r + 1) * (r + 1),
            ;
        }
    } else {
        assert(isqrt(n) == 0);
        assert(0 * 0 <= n < (0 + 1) * (0 + 1)) by (nonlinear_arith)
            requires
                n == 0,
        ;
    }
}

/// A root lies between any two numbers whose squares enclose `n`.
pub proof fn lemma_isqrt_between(n: nat, a: nat, b: nat)
    requires
        a * a <= n < b * b,
    ensures
        a <= isqrt(n) < b,
{
    let r = isqrt(n);
    lemma_isqrt_bounds(n);
    assert(a <= r) by (nonlinear_arith)
        requires
            a * a <= n,
            n < (r + 1) * (r + 1),
    ;
    assert(r < b) by (nonlinear_arith)
        requires
            r * r <= n,
            n < b * b,
    ;
}

/// The whole part of the root of `n`, by bisection.
fn whole_root(n: u64) -> (r: u64)
    requires
        n < 0x1_0000_0000_0000,
    ensures
        r == isqrt(n as nat),
        r < 0x100_0000,
{
    let mut lo: u64 = 0;
    let mut hi: u64 = 0x100_0000;
    while hi - lo > 1
        invariant
            lo < hi <= 0x100_0000,
            lo * lo <= n < hi * hi,
        decreases hi - lo,
    {
        let mid = lo + (hi - lo) / 2;
        proof {
            assert(mid * mid < 0x100_0000 * 0x100_0000) by (nonlinear_arith)
                requires
                    mid < 0x100_0000,
            ;
        }
        if mid * mid <= n {
            lo = mid;
        } else {
            hi = mid;
        }
    }
    proof {
        lemma_isqrt_between(n as nat, lo as nat, hi as nat);
    }
    lo
}

/// The root of the positive finite number `m * 2^e` units.
fn root_finite(m: u32, e: u32) -> (r: Scalar)
    requires
        0 < m < 0x100_0000,
        e <= 253,
    ensures
        r@ == round_root(m as nat * pow2(e as nat) * pow2(149)),
        r.canonical(),
{
    let ghost n = m as nat * pow2(e as nat) * pow2(149);
    let p: u32 = e + 149;
    let mut w: u64 = m as u64;
    let mut j: u32 = 0;
    proof {
        lemma2_to64();
        lemma_pow2_adds(e as nat, 149);
        assert(n == m * pow2(p as nat)) by (nonlinear_arith)
            requires
                n == m * pow2(e as nat) * pow2(149),
                pow2(p as nat) == pow2(e as nat) * pow2(149),
        ;
        assert(w * pow2((p - j) as nat) == n);
    }
    while w < 0x4000_0000_0000
        invariant
            0 < w < 0x8000_0000_0000,
            j <= 46,
            w >= pow2(j as nat),
            p >= 149,
            w * pow2((p - j) as nat) == n,
        decreases 46 - j,
    {
        proof {
            vstd::arithmetic::power2::lemma2_to64_rest();
            lemma_pow2_unfold((j + 1) as nat);
            let q = pow2((p - j - 1) as nat);
            lemma_pow2_unfold((p - j) as nat);
            assert((2 * w) * q == w * (2 * q)) by (nonlinear_arith);
        }
        w = w * 2;
        j = j + 1;
    }
    if (p - j) % 2 == 1 {
        proof {
            let q = pow2((p - j - 1) as nat);
            lemma_pow2_unfold((p - j) as nat);
            assert((2 * w) * q == w * (2 * q)) by (nonlinear_arith);
        }
        w = w * 2;
        j = j + 1;
    }
    let s: u32 = (p - j) / 2;
    let m0 = whole_root(w);
    let ghost ps = pow2(s as nat);
    let ghost p2 = pow2((2 * s) as nat);
    proof {
        lemma_pow2_pos(s as nat);
        lemma_pow2_adds(s as nat, s as nat);
        lemma_pow2_adds(24, s as nat);
        lemma_pow2_adds(23, s as nat);
        lemma_isqrt_bounds(w as nat);
        assert(m0 >= 0x80_0000) by (nonlinear_arith)
            requires
                w >= 0x4000_0000_0000,
                w < (m0 + 1) * (m0 + 1),
                m0 >= 0,
        ;
    }
    let up = w > m0 * m0 + m0;
    let mm: u32 = if up { (m0 + 1) as u32 } else { m0 as u32 };
    proof {
        // the root of `n` lies between `m0 * 2^s` and `(m0 + 1) * 2^s`
        let lo = m0 as nat * ps;
        let hi = (m0 + 1) as nat * ps;
        assert(lo * lo <= n < hi * hi) by (nonlinear_arith)
            requires
                n == w * p2,
                p2 == ps * ps,
                m0 * m0 <= w < (m0 + 1) * (m0 + 1),
                lo == m0 * ps,
                hi == (m0 + 1) * ps,
                ps > 0,
        ;
        lemma_isqrt_between(n, lo, hi);
        let r = isqrt(n);
        assert(r < 1 * pow2((24 + s) as nat) && r >= 1 * pow2((23 + s) as nat)) by (nonlinear_arith)
            requires
                lo <= r < hi,
                lo == m0 * ps,
                hi == (m0 + 1) * ps,
                0x80_0000 <= m0 < 0x100_0000,
                pow2((24 + s) as nat) == 0x100_0000 * ps,
                pow2((23 + s) as nat) == 0x80_0000 * ps,
                ps > 0,
        ;
        lemma_scale_is(r, 1, s as nat);
        assert(p2 > 0) by (nonlinear_arith)
            requires
                p2 == ps * ps,
                ps > 0,
        ;
        vstd::arithmetic::div_mod::lemma_div_multiples_vanish(w as int, p2 as int);
        assert(n == p2 * w) by (nonlinear_arith)
            requires
                n == w * p2,
        ;
        assert(n / p2 == w);
        let c = (2 * m0 + 1) * (2 * m0 + 1) * p2;
        assert(4 * n > c <==> w > m0 * m0 + m0) by (nonlinear_arith)
            requires
                n == w * p2,
                c == (2 * m0 + 1) * (2 * m0 + 1) * p2,
                p2 > 0,
        ;
        let k = w - m0 * m0 - m0;
        assert(4 * n - c == (4 * k - 1) * p2) by (nonlinear_arith)
            requires
                n == w * p2,
                c == (2 * m0 + 1) * (2 * m0 + 1) * p2,
                k == w - m0 * m0 - m0,
        ;
        assert((4 * k - 1) * p2 != 0) by (nonlinear_arith)
            requires
                4 * k - 1 != 0,
                p2 > 0,
        ;
    }
    assemble(false, mm, s as u64)
}

impl Scalar {
    /// The canonical pattern of the rounded square root.
    #[verifier::opaque]
    pub open spec fn spec_sqrt(self) -> Scalar {
        Scalar::of(self@.sqrt())
    }

    /// The square root, correctly rounded.
    pub fn sqrt(self) -> (r: Scalar)
        ensures
            r@ == self@.sqrt(),
            r.canonical(),
            r == self.spec_sqrt(),
    {
        let r = match self.classify() {
            Kind::Nan => Scalar::nan(),
            Kind::Infinite(neg) => if neg {
                Scalar::nan()
            } else {
                self
            },
            Kind::Finite(neg, m, e) => {
                proof {
                    lemma_pow2_pos(e as nat);
                    assert(m * pow2(e as nat) == 0 <==> m == 0) by (nonlinear_arith)
                        requires
                            pow2(e as nat) > 0,
                    ;
                }
                if m == 0 {
                    self
                } else if neg {
                    Scalar::nan()
                } else {
                    root_finite(m, e)
                }
            },
        };
        proof {
            reveal(Scalar::spec_sqrt);
            lemma_of_view(r);
        }
        r
    }
}

/// What `round_root` returns is representable.
pub proof fn lemma_root_representable(n: nat)
    ensures
        round_root(n).representable(),
{
    let r = isqrt(n);
    let s = scale(r, 1);
    let ps = pow2(s);
    let p2 = pow2(2 * s);
    lemma_scale_bounds(r, 1);
    lemma2_to64();
    lemma_pow2_pos(s);
    lemma_pow2_adds(s, s);
    lemma_pow2_adds(24, s);
    lemma_pow2_adds(23, s);
    assert(p2 > 0) by (nonlinear_arith)
        requires
            p2 == ps * ps,
            ps > 0,
    ;
    let k = n / p2;
    let r0 = n % p2;
    let m = isqrt(k);
    lemma_isqrt_bounds(k);
    vstd::arithmetic::div_mod::lemma_fundamental_div_mod(n as int, p2 as int);
    vstd::arithmetic::div_mod::lemma_mod_bound(n as int, p2 as int);
    let lo = m * ps;
    let hi = (m + 1) * ps;
    assert(lo * lo <= n < hi * hi) by (nonlinear_arith)
        requires
            n == p2 * k + r0,
            0 <= r0 < p2,
            p2 == ps * ps,
            m * m <= k < (m + 1) * (m + 1),
            lo == m * ps,
            hi == (m + 1) * ps,
            ps > 0,
    ;
    lemma_isqrt_between(n, lo, hi);
    assert(m < 0x100_0000) by (nonlinear_arith)
        requires
            m * ps <= r,
            r < 1 * pow2(24 + s),
            pow2(24 + s) == 0x100_0000 * ps,
            ps > 0,
    ;
    if s != 0 {
        assert(m >= 0x80_0000) by (nonlinear_arith)
            requires
                r < (m + 1) * ps,
                r >= 1 * pow2(23 + s),
                pow2(23 + s) == 0x80_0000 * ps,
                ps > 0,
        ;
    }
    if m * ps < limit() {
        lemma_units_representable(false, m, s);
    }
    if (m + 1) * ps < limit() {
        lemma_units_representable(false, m + 1, s);
    }
}

/// The root of a representable number is representable.
pub proof fn lemma_sqrt_representable(a: Value)
    requires
        a.representable(),
    ensures
        a.sqrt().representable(),
{
    if let Value::Finite { neg, units } = a {
        lemma_root_representable(units * pow2(149));
    }
}

/// `spec_sqrt` stands for the rounded root of what its argument stands
/// for.
pub proof fn lemma_sqrt_meaning(a: Scalar)
    ensures
        a.spec_sqrt()@ == a@.sqrt(),
        a.spec_sqrt().canonical(),
{
    reveal(Scalar::spec_sqrt);
    lemma_view_representable(a);
    lemma_sqrt_representable(a@);
    lemma_encodable(a@.sqrt());
}

} // verus!
