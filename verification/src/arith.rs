//! Sum, difference, product and quotient of binary32 numbers.

use crate::ieee::{
    lemma_add_representable, lemma_div_representable, lemma_mul_representable, lemma_round_near,
    lemma_round_ratio, round, Value,
};
use crate::rounding::{lift, lower, round_ratio};
use crate::scalar::{lemma_encodable, lemma_of_view, lemma_view_representable, Kind, Scalar};
use vstd::arithmetic::power2::{
    lemma2_to64, lemma_pow2_adds, lemma_pow2_pos, lemma_pow2_strictly_increases, lemma_pow2_unfold,
    pow2,
};
use vstd::prelude::*;

verus! {

/// `(n / d) * 2^(x - y)` is the fraction `n * 2^x` over `d * 2^y`, and
/// rounds as it does.
pub(crate) proof fn lemma_round_scaled(neg: bool, n: nat, d: nat, k: int, x: nat, y: nat)
    requires
        k == x - y,
        d > 0,
    ensures
        round(neg, lift(n, k), lower(d, k)) == round(neg, n * pow2(x), d * pow2(y)),
{
    let px = pow2(x);
    let py = pow2(y);
    lemma_pow2_pos(x);
    lemma_pow2_pos(y);
    assert(d * py > 0) by (nonlinear_arith)
        requires
            d > 0,
            py > 0,
    ;
    if k >= 0 {
        let pk = pow2(k as nat);
        lemma_pow2_adds(k as nat, y);
        assert((n * pk) * (d * py) == (n * px) * d) by (nonlinear_arith)
            requires
                px == pk * py,
        ;
    } else {
        let pk = pow2((-k) as nat);
        lemma_pow2_pos((-k) as nat);
        lemma_pow2_adds(x, (-k) as nat);
        assert(n * (d * py) == (n * px) * (d * pk)) by (nonlinear_arith)
            requires
                py == px * pk,
        ;
        assert(d * pk > 0) by (nonlinear_arith)
            requires
                d > 0,
                pk > 0,
        ;
    }
    lemma_round_ratio(neg, lift(n, k), lower(d, k), n * px, d * py);
}

/// The infinity with the sign `neg`.
fn infinity(neg: bool) -> (r: Scalar)
    ensures
        r@ == (Value::Infinite { neg }),
        r.canonical(),
{
    if neg {
        Scalar { bits: 0xff80_0000 }
    } else {
        Scalar { bits: 0x7f80_0000 }
    }
}

/// The zero with the sign `neg`.
fn signed_zero(neg: bool) -> (r: Scalar)
    ensures
        r@ == (Value::Finite { neg, units: 0 }),
        r.canonical(),
{
    if neg {
        Scalar { bits: 0x8000_0000 }
    } else {
        Scalar { bits: 0 }
    }
}

/// `m * 2^e` is zero only where `m` is.
proof fn lemma_units_zero(m: nat, e: nat)
    ensures
        m * pow2(e) == 0 <==> m == 0,
{
    lemma_pow2_pos(e);
    assert(m * pow2(e) == 0 <==> m == 0) by (nonlinear_arith)
        requires
            pow2(e) > 0,
    ;
}

/// `2^k` for a small `k`.
fn two_to(k: u32) -> (r: u128)
    requires
        k <= 32,
    ensures
        r == pow2(k as nat),
        r <= 0x1_0000_0000,
{
    let mut r: u128 = 1;
    let mut i: u32 = 0;
    proof {
        lemma2_to64();
    }
    while i < k
        invariant
            i <= k <= 32,
            r == pow2(i as nat),
            r <= pow2(32),
            pow2(32) == 0x1_0000_0000,
        decreases k - i,
    {
        proof {
            lemma_pow2_unfold((i + 1) as nat);
            if i + 1 < 32 {
                lemma_pow2_strictly_increases((i + 1) as nat, 32);
            }
        }
        r = r * 2;
        i = i + 1;
    }
    r
}

/// The sum of two finite numbers of which the first, `x`, has the larger
/// exponent.
fn add_finite(x: Scalar, nx: bool, mx: u32, ex: u32, ny: bool, my: u32, ey: u32) -> (r: Scalar)
    requires
        x@ == (Value::Finite { neg: nx, units: mx as nat * pow2(ex as nat) }),
        mx < 0x100_0000,
        my < 0x100_0000,
        ey <= ex <= 253,
        ex > 0 ==> mx >= 0x80_0000,
    ensures
        r@ == x@.add(Value::Finite { neg: ny, units: my as nat * pow2(ey as nat) }),
        r.canonical(),
{
    let ghost ux = mx as nat * pow2(ex as nat);
    let ghost uy = my as nat * pow2(ey as nat);
    let ghost py = pow2(ey as nat);
    let diff = ex - ey;
    proof {
        lemma_pow2_pos(ey as nat);
        lemma2_to64();
    }
    if diff > 30 {
        proof {
            lemma_pow2_adds(24, ey as nat);
            lemma_pow2_strictly_increases((24 + ey) as nat, (ex - 2) as nat);
            assert(uy < pow2((24 + ey) as nat)) by (nonlinear_arith)
                requires
                    uy == my * py,
                    my < 0x100_0000,
                    py > 0,
                    pow2((24 + ey) as nat) == 0x100_0000 * py,
            ;
            lemma_round_near(nx, mx as nat, ex as nat, uy);
        }
        x
    } else {
        let p = two_to(diff);
        proof {
            if diff < 30 {
                lemma_pow2_strictly_increases(diff as nat, 30);
            }
            assert(mx * p <= 0x100_0000 * 0x4000_0000) by (nonlinear_arith)
                requires
                    mx < 0x100_0000,
                    p <= 0x4000_0000,
            ;
        }
        let a: u128 = (mx as u128) * p;
        let b: u128 = my as u128;
        proof {
            lemma_pow2_adds(diff as nat, ey as nat);
            assert(ux == a * py) by (nonlinear_arith)
                requires
                    ux == mx * pow2(ex as nat),
                    pow2(ex as nat) == pow2(diff as nat) * py,
                    a == mx * pow2(diff as nat),
            ;
        }
        let neg: bool;
        let n: u128;
        if nx == ny {
            neg = nx;
            n = a + b;
        } else if a >= b {
            neg = nx;
            n = a - b;
        } else {
            neg = ny;
            n = b - a;
        }
        proof {
            assert(n * py == (if nx == ny {
                (ux + uy) as int
            } else if a >= b {
                ux - uy
            } else {
                uy - ux
            })) by (nonlinear_arith)
                requires
                    ux == a * py,
                    uy == b * py,
                    n == (if nx == ny {
                        a + b
                    } else if a >= b {
                        a - b
                    } else {
                        b - a
                    }),
            ;
            assert(n > 0 ==> n * py > 0) by (nonlinear_arith)
                requires
                    py > 0,
            ;
            assert(n == 0 ==> n * py == 0) by (nonlinear_arith);
        }
        if n == 0 {
            signed_zero(nx && ny)
        } else {
            round_ratio(neg, n, 1, ey as i32)
        }
    }
}

impl Scalar {
    /// The canonical pattern of the rounded sum.
    #[verifier::opaque]
    pub open spec fn spec_add(self, other: Scalar) -> Scalar {
        Scalar::of(self@.add(other@))
    }

    /// The canonical pattern of the rounded difference.
    #[verifier::opaque]
    pub open spec fn spec_sub(self, other: Scalar) -> Scalar {
        Scalar::of(self@.sub(other@))
    }

    /// The canonical pattern of the rounded product.
    #[verifier::opaque]
    pub open spec fn spec_mul(self, other: Scalar) -> Scalar {
        Scalar::of(self@.mul(other@))
    }

    /// The canonical pattern of the rounded quotient.
    #[verifier::opaque]
    pub open spec fn spec_div(self, other: Scalar) -> Scalar {
        Scalar::of(self@.div(other@))
    }

    /// The sum, correctly rounded.
    pub fn add(self, other: Scalar) -> (r: Scalar)
        ensures
            r@ == self@.add(other@),
            r.canonical(),
            r == self.spec_add(other),
    {
        let r = match (self.classify(), other.classify()) {
            (Kind::Nan, _) => Scalar::nan(),
            (_, Kind::Nan) => Scalar::nan(),
            (Kind::Infinite(a), Kind::Infinite(b)) => if a == b {
                self
            } else {
                Scalar::nan()
            },
            (Kind::Infinite(_), Kind::Finite(_, _, _)) => self,
            (Kind::Finite(_, _, _), Kind::Infinite(_)) => other,
            (Kind::Finite(na, ma, ea), Kind::Finite(nb, mb, eb)) => if ea >= eb {
                add_finite(self, na, ma, ea, nb, mb, eb)
            } else {
                add_finite(other, nb, mb, eb, na, ma, ea)
            },
        };
        proof {
            reveal(Scalar::spec_add);
            lemma_of_view(r);
        }
        r
    }

    /// The difference, correctly rounded.
    pub fn sub(self, other: Scalar) -> (r: Scalar)
        ensures
            r@ == self@.sub(other@),
            r.canonical(),
            r == self.spec_sub(other),
    {
        let r = self.add(other.neg());
        proof {
            reveal(Scalar::spec_sub);
            lemma_of_view(r);
        }
        r
    }

    /// The product, correctly rounded.
    pub fn mul(self, other: Scalar) -> (r: Scalar)
        ensures
            r@ == self@.mul(other@),
            r.canonical(),
            r == self.spec_mul(other),
    {
        let r = match (self.classify(), other.classify()) {
            (Kind::Nan, _) => Scalar::nan(),
            (_, Kind::Nan) => Scalar::nan(),
            (Kind::Infinite(a), Kind::Infinite(b)) => infinity(a != b),
            (Kind::Infinite(a), Kind::Finite(b, m, e)) => {
                proof {
                    lemma_units_zero(m as nat, e as nat);
                }
                if m == 0 {
                    Scalar::nan()
                } else {
                    infinity(a != b)
                }
            },
            (Kind::Finite(a, m, e), Kind::Infinite(b)) => {
                proof {
                    lemma_units_zero(m as nat, e as nat);
                }
                if m == 0 {
                    Scalar::nan()
                } else {
                    infinity(a != b)
                }
            },
            (Kind::Finite(a, ma, ea), Kind::Finite(b, mb, eb)) => {
                proof {
                    assert(ma * mb < 0x100_0000 * 0x100_0000) by (nonlinear_arith)
                        requires
                            ma < 0x100_0000,
                            mb < 0x100_0000,
                    ;
                }
                let n: u128 = (ma as u128) * (mb as u128);
                let k: i32 = (ea + eb) as i32 - 149;
                proof {
                    let pa = pow2(ea as nat);
                    let pb = pow2(eb as nat);
                    lemma_pow2_adds(ea as nat, eb as nat);
                    lemma_round_scaled(a != b, n as nat, 1, k as int, (ea + eb) as nat, 149);
                    assert(n * pow2((ea + eb) as nat) == (ma * pa) * (mb * pb)) by (nonlinear_arith)
                        requires
                            n == ma * mb,
                            pow2((ea + eb) as nat) == pa * pb,
                    ;
                    assert(1 * pow2(149) == pow2(149)) by (nonlinear_arith);
                }
                round_ratio(a != b, n, 1, k)
            },
        };
        proof {
            reveal(Scalar::spec_mul);
            lemma_of_view(r);
        }
        r
    }

    /// The quotient, correctly rounded.
    pub fn div(self, other: Scalar) -> (r: Scalar)
        ensures
            r@ == self@.div(other@),
            r.canonical(),
            r == self.spec_div(other),
    {
        let r = match (self.classify(), other.classify()) {
            (Kind::Nan, _) => Scalar::nan(),
            (_, Kind::Nan) => Scalar::nan(),
            (Kind::Infinite(_), Kind::Infinite(_)) => Scalar::nan(),
            (Kind::Infinite(a), Kind::Finite(b, _, _)) => infinity(a != b),
            (Kind::Finite(a, _, _), Kind::Infinite(b)) => signed_zero(a != b),
            (Kind::Finite(a, ma, ea), Kind::Finite(b, mb, eb)) => {
                proof {
                    lemma_units_zero(ma as nat, ea as nat);
                    lemma_units_zero(mb as nat, eb as nat);
                }
                if mb == 0 {
                    if ma == 0 {
                        Scalar::nan()
                    } else {
                        infinity(a != b)
                    }
                } else {
                    let k: i32 = (ea + 149) as i32 - eb as i32;
                    proof {
                        let pa = pow2(ea as nat);
                        lemma_pow2_adds(ea as nat, 149);
                        lemma_round_scaled(
                            a != b,
                            ma as nat,
                            mb as nat,
                            k as int,
                            (ea + 149) as nat,
                            eb as nat,
                        );
                        assert(ma * pow2((ea + 149) as nat) == (ma * pa) * pow2(149))
                            by (nonlinear_arith)
                            requires
                                pow2((ea + 149) as nat) == pa * pow2(149),
                        ;
                    }
                    round_ratio(a != b, ma as u128, mb as u128, k)
                }
            },
        };
        proof {
            reveal(Scalar::spec_div);
            lemma_of_view(r);
        }
        r
    }
}

/// `spec_add` and `spec_sub` stand for the rounded sum and difference of
/// what their arguments stand for.
pub proof fn lemma_add_meaning(a: Scalar, b: Scalar)
    ensures
        a.spec_add(b)@ == a@.add(b@),
        a.spec_add(b).canonical(),
        a.spec_sub(b)@ == a@.sub(b@),
        a.spec_sub(b).canonical(),
{
    reveal(Scalar::spec_add);
    reveal(Scalar::spec_sub);
    lemma_view_representable(a);
    lemma_view_representable(b);
    lemma_add_representable(a@, b@);
    lemma_encodable(a@.add(b@));
    lemma_encodable(a@.sub(b@));
}

/// `spec_mul` stands for the rounded product of what its arguments stand
/// for.
pub proof fn lemma_mul_meaning(a: Scalar, b: Scalar)
    ensures
        a.spec_mul(b)@ == a@.mul(b@),
        a.spec_mul(b).canonical(),
{
    reveal(Scalar::spec_mul);
    lemma_view_representable(a);
    lemma_view_representable(b);
    lemma_mul_representable(a@, b@);
    lemma_encodable(a@.mul(b@));
}

/// `spec_div` stands for the rounded quotient of what its arguments stand
/// for.
pub proof fn lemma_div_meaning(a: Scalar, b: Scalar)
    ensures
        a.spec_div(b)@ == a@.div(b@),
        a.spec_div(b).canonical(),
{
    reveal(Scalar::spec_div);
    lemma_view_representable(a);
    lemma_view_representable(b);
    lemma_div_representable(a@, b@);
    lemma_encodable(a@.div(b@));
}

} // verus!
