//! Binary32 numbers held by their bit patterns.

use crate::ieee::{
    lemma_from_int_representable, lemma_negate_representable, lemma_scale_bounds,
    lemma_scale_normal, lemma_units_representable, limit, scale, Value,
};
use crate::rounding::round_ratio;
use vstd::arithmetic::power2::{
    lemma2_to64, lemma_pow2_adds, lemma_pow2_pos, lemma_pow2_strictly_increases, lemma_pow2_unfold,
    pow2,
};
use vstd::prelude::*;

verus! {

/// A binary32 number: one sign bit, eight exponent bits, 23 fraction bits.
#[derive(Clone, Copy, Debug)]
pub struct Scalar {
    pub bits: u32,
}

impl View for Scalar {
    type V = Value;

    /// What the bit pattern stands for. An exponent field of zero holds the
    /// subnormals, one of 255 the infinities and the patterns that are not
    /// numbers; otherwise the fraction gains a leading one.
    open spec fn view(&self) -> Value {
        let neg = self.bits >= 0x8000_0000;
        let a = self.bits % 0x8000_0000;
        let e = a / 0x80_0000;
        let f = a % 0x80_0000;
        if a > 0x7f80_0000 {
            Value::Nan
        } else if a == 0x7f80_0000 {
            Value::Infinite { neg }
        } else if e == 0 {
            Value::Finite { neg, units: f as nat }
        } else {
            Value::Finite { neg, units: (0x80_0000 + f) as nat * pow2((e - 1) as nat) }
        }
    }
}

impl Scalar {
    /// Of the many patterns that are not numbers, the arithmetic here only
    /// ever returns one.
    pub open spec fn canonical(self) -> bool {
        self@ is Nan ==> self.bits == 0x7fc0_0000
    }

    /// The canonical pattern that stands for `v`.
    pub open spec fn of(v: Value) -> Scalar {
        choose|s: Scalar| s@ == v && s.canonical()
    }

    /// Positive zero: every bit clear.
    pub open spec fn spec_zero() -> Scalar {
        Scalar { bits: 0 }
    }

    /// One: a clear fraction under the exponent field 127.
    pub open spec fn spec_one() -> Scalar {
        Scalar { bits: 0x3f80_0000 }
    }

    /// The canonical pattern that is not a number.
    pub open spec fn spec_nan() -> Scalar {
        Scalar { bits: 0x7fc0_0000 }
    }

    /// The canonical pattern of the number with its sign turned.
    #[verifier::opaque]
    pub open spec fn spec_neg(self) -> Scalar {
        Scalar::of(self@.negate())
    }

    /// The canonical pattern of the whole number `i`, rounded.
    #[verifier::opaque]
    pub open spec fn spec_from_int(i: int) -> Scalar {
        Scalar::of(Value::from_int(i))
    }

    /// The number with these bits.
    pub fn from_bits(bits: u32) -> (r: Scalar)
        ensures
            r.bits == bits,
    {
        Scalar { bits }
    }

    /// The bits of the number.
    pub fn to_bits(self) -> (r: u32)
        ensures
            r == self.bits,
    {
        self.bits
    }

    /// Positive zero.
    #[verifier::when_used_as_spec(spec_zero)]
    pub fn zero() -> (r: Scalar)
        ensures
            r == Scalar::spec_zero(),
    {
        Scalar { bits: 0 }
    }

    /// The number one.
    #[verifier::when_used_as_spec(spec_one)]
    pub fn one() -> (r: Scalar)
        ensures
            r == Scalar::spec_one(),
    {
        Scalar { bits: 0x3f80_0000 }
    }

    /// The canonical pattern that is not a number.
    #[verifier::when_used_as_spec(spec_nan)]
    pub fn nan() -> (r: Scalar)
        ensures
            r == Scalar::spec_nan(),
    {
        Scalar { bits: 0x7fc0_0000 }
    }

    /// Whether the pattern is not a number.
    pub fn is_nan(self) -> (r: bool)
        ensures
            r == (self@ is Nan),
    {
        self.bits % 0x8000_0000 > 0x7f80_0000
    }

    /// Whether the number lies strictly below zero.
    pub fn is_negative(self) -> (r: bool)
        ensures
            r == self@.is_negative(),
    {
        proof {
            lemma_units_positive(self);
        }
        0x8000_0000 < self.bits && self.bits <= 0xff80_0000
    }

    /// Whether the number lies strictly above zero.
    pub fn is_positive(self) -> (r: bool)
        ensures
            r == self@.is_positive(),
    {
        proof {
            lemma_units_positive(self);
        }
        0 < self.bits && self.bits <= 0x7f80_0000
    }

    /// Reads the pattern: its kind and, of a finite number, the sign and
    /// the magnitude as `m * 2^e` units.
    pub(crate) fn classify(self) -> (k: Kind)
        ensures
            match k {
                Kind::Nan => self@ is Nan,
                Kind::Infinite(neg) => self@ == (Value::Infinite { neg }),
                Kind::Finite(neg, m, e) => {
                    &&& self@ == (Value::Finite { neg, units: m as nat * pow2(e as nat) })
                    &&& m < 0x100_0000
                    &&& e <= 253
                    &&& e > 0 ==> m >= 0x80_0000
                },
            },
    {
        let neg = self.bits >= 0x8000_0000;
        let a = self.bits % 0x8000_0000;
        let e = a / 0x80_0000;
        let f = a % 0x80_0000;
        if a > 0x7f80_0000 {
            Kind::Nan
        } else if a == 0x7f80_0000 {
            Kind::Infinite(neg)
        } else if e == 0 {
            proof {
                lemma2_to64();
                assert(f * pow2(0) == f) by (nonlinear_arith)
                    requires
                        pow2(0) == 1,
                ;
            }
            Kind::Finite(neg, f, 0)
        } else {
            Kind::Finite(neg, f + 0x80_0000, e - 1)
        }
    }

    /// The number with its sign turned.
    pub fn neg(self) -> (r: Scalar)
        ensures
            r@ == self@.negate(),
            r.canonical(),
            r == self.spec_neg(),
    {
        let r = if self.is_nan() {
            Scalar::nan()
        } else if self.bits >= 0x8000_0000 {
            Scalar { bits: self.bits - 0x8000_0000 }
        } else {
            Scalar { bits: self.bits + 0x8000_0000 }
        };
        proof {
            reveal(Scalar::spec_neg);
            lemma_of_view(r);
        }
        r
    }

    /// The whole number `v` as a binary32 number, rounded where 24 binary
    /// digits cannot hold it.
    pub fn from_i64(v: i64) -> (r: Scalar)
        ensures
            r@ == Value::from_int(v as int),
            r.canonical(),
            r == Scalar::spec_from_int(v as int),
    {
        let neg = v < 0;
        let w: u128 = if neg { (-(v as i128)) as u128 } else { v as u128 };
        let r = round_ratio(neg, w, 1, 149);
        proof {
            reveal(Scalar::spec_from_int);
            lemma_of_view(r);
        }
        r
    }

    /// The whole number `v` as a binary32 number, rounded where 24 binary
    /// digits cannot hold it.
    pub fn from_i32(v: i32) -> (r: Scalar)
        ensures
            r@ == Value::from_int(v as int),
            r.canonical(),
            r == Scalar::spec_from_int(v as int),
    {
        Scalar::from_i64(v as i64)
    }
}

/// How a pattern reads: of a finite number the sign, then `m` and `e` whose
/// product `m * 2^e` is the magnitude in units.
pub(crate) enum Kind {
    Nan,
    Infinite(bool),
    Finite(bool, u32, u32),
}

/// A finite pattern stands for zero only where all bits but the sign are
/// clear.
proof fn lemma_units_positive(s: Scalar)
    ensures
        s@ matches Value::Finite { units, .. } ==> (units > 0 <==> s.bits % 0x8000_0000 != 0),
{
    let a = s.bits % 0x8000_0000;
    let e = a / 0x80_0000;
    let f = a % 0x80_0000;
    if a < 0x7f80_0000 && e > 0 {
        lemma_pow2_pos((e - 1) as nat);
        assert((0x80_0000 + f) * pow2((e - 1) as nat) > 0) by (nonlinear_arith)
            requires
                f >= 0,
                pow2((e - 1) as nat) > 0,
        ;
    }
}

/// Canonical patterns that stand for the same are the same.
pub proof fn lemma_view_injective(a: Scalar, b: Scalar)
    requires
        a@ == b@,
        a.canonical(),
        b.canonical(),
    ensures
        a == b,
{
    let x = a.bits % 0x8000_0000;
    let y = b.bits % 0x8000_0000;
    let ea = x / 0x80_0000;
    let fa = x % 0x80_0000;
    let eb = y / 0x80_0000;
    let fb = y % 0x80_0000;
    if a@ is Finite {
        if ea > 0 {
            lemma_scale_normal((0x80_0000 + fa) as nat, (ea - 1) as nat);
        }
        if eb > 0 {
            lemma_scale_normal((0x80_0000 + fb) as nat, (eb - 1) as nat);
        }
        if ea > 0 && eb > 0 {
            let p = pow2((ea - 1) as nat);
            lemma_pow2_pos((ea - 1) as nat);
            assert(fa == fb) by (nonlinear_arith)
                requires
                    (0x80_0000 + fa) * p == (0x80_0000 + fb) * p,
                    p > 0,
            ;
        }
    }
}

/// A canonical pattern is the one that `of` picks for what it stands for.
pub proof fn lemma_of_view(s: Scalar)
    requires
        s.canonical(),
    ensures
        Scalar::of(s@) == s,
{
    let t = Scalar::of(s@);
    assert(t@ == s@ && t.canonical());
    lemma_view_injective(t, s);
}

/// Puts a rounded magnitude of `m * 2^s` units and a sign into a pattern.
pub(crate) fn assemble(neg: bool, m: u32, s: u64) -> (r: Scalar)
    requires
        m <= 0x100_0000,
        s == 0 || m >= 0x80_0000,
    ensures
        r@ == (if m * pow2(s as nat) >= limit() {
            Value::Infinite { neg }
        } else {
            Value::Finite { neg, units: m as nat * pow2(s as nat) }
        }),
        r.canonical(),
{
    let sign: u32 = if neg { 0x8000_0000 } else { 0 };
    proof {
        lemma2_to64();
        lemma_pow2_pos(s as nat);
    }
    if s >= 254 {
        proof {
            lemma_pow2_adds(23, 254);
            if s > 254 {
                lemma_pow2_strictly_increases(254, s as nat);
            }
            assert(m * pow2(s as nat) >= pow2(23) * pow2(254)) by (nonlinear_arith)
                requires
                    m >= pow2(23),
                    pow2(s as nat) >= pow2(254),
            ;
        }
        return Scalar { bits: sign + 0x7f80_0000 };
    }
    let a: u32 = (s as u32) * 0x80_0000 + m;
    if a >= 0x7f80_0000 {
        proof {
            assert(s == 253 && m == 0x100_0000);
            lemma_pow2_adds(24, 253);
        }
        Scalar { bits: sign + 0x7f80_0000 }
    } else {
        let r = Scalar { bits: sign + a };
        proof {
            let p = pow2(s as nat);
            // the magnitude stays below the limit
            lemma_pow2_adds(24, 253);
            if s < 253 {
                lemma_pow2_strictly_increases(s as nat, 253);
            }
            let top = pow2(253);
            if m < 0x100_0000 {
                assert(m * p < 0x100_0000 * top) by (nonlinear_arith)
                    requires
                        m < 0x100_0000,
                        0 < p <= top,
                ;
            } else {
                assert(m * p < 0x100_0000 * top) by (nonlinear_arith)
                    requires
                        m == 0x100_0000,
                        0 < p < top,
                ;
            }
            let e = a / 0x80_0000;
            let f = a % 0x80_0000;
            if m < 0x80_0000 {
                assert(e == 0 && f == m);
                assert(m * p == m) by (nonlinear_arith)
                    requires
                        p == 1,
                ;
            } else if m < 0x100_0000 {
                assert(e == s + 1 && f == m - 0x80_0000);
            } else {
                assert(e == s + 2 && f == 0);
                lemma_pow2_unfold((s + 1) as nat);
                assert(0x80_0000 * pow2((s + 1) as nat) == m * p) by (nonlinear_arith)
                    requires
                        pow2((s + 1) as nat) == 2 * p,
                        m == 0x100_0000,
                ;
            }
        }
        r
    }
}

/// What a pattern stands for is representable.
pub proof fn lemma_view_representable(x: Scalar)
    ensures
        x@.representable(),
{
    let neg = x.bits >= 0x8000_0000;
    let a = x.bits % 0x8000_0000;
    let e = a / 0x80_0000;
    let f = a % 0x80_0000;
    lemma2_to64();
    lemma_pow2_adds(24, 253);
    if a < 0x7f80_0000 {
        let s: nat = if e == 0 { 0 } else { (e - 1) as nat };
        let m: nat = if e == 0 { f as nat } else { (0x80_0000 + f) as nat };
        let p = pow2(s);
        lemma_pow2_pos(s);
        if s < 253 {
            lemma_pow2_strictly_increases(s, 253);
        }
        assert(m * p < 0x100_0000 * pow2(253)) by (nonlinear_arith)
            requires
                m < 0x100_0000,
                0 < p <= pow2(253),
        ;
        if e == 0 {
            assert(m * p == f) by (nonlinear_arith)
                requires
                    m == f,
                    p == 1,
            ;
        }
        lemma_units_representable(neg, m, s);
    }
}

/// Every representable value has a canonical pattern, and `of` picks it.
pub proof fn lemma_encodable(v: Value)
    requires
        v.representable(),
    ensures
        Scalar::of(v)@ == v,
        Scalar::of(v).canonical(),
{
    lemma2_to64();
    let w: Scalar = match v {
        Value::Nan => Scalar { bits: 0x7fc0_0000 },
        Value::Infinite { neg } => Scalar { bits: if neg { 0xff80_0000 } else { 0x7f80_0000 } },
        Value::Finite { neg, units } => {
            let s = scale(units, 1);
            let p = pow2(s);
            let m = units / p;
            let sign: nat = if neg { 0x8000_0000 } else { 0 };
            lemma_pow2_pos(s);
            lemma_scale_bounds(units, 1);
            lemma_pow2_adds(24, s);
            lemma_pow2_adds(23, s);
            lemma_pow2_adds(23, 254);
            vstd::arithmetic::div_mod::lemma_fundamental_div_mod(units as int, p as int);
            assert(units == m * p) by (nonlinear_arith)
                requires
                    units == p * m + 0,
            ;
            assert(m < 0x100_0000) by (nonlinear_arith)
                requires
                    units == m * p,
                    units < 1 * pow2(24 + s),
                    pow2(24 + s) == 0x100_0000 * p,
                    p > 0,
            ;
            if s != 0 {
                assert(m >= 0x80_0000) by (nonlinear_arith)
                    requires
                        units == m * p,
                        units >= 1 * pow2(23 + s),
                        pow2(23 + s) == 0x80_0000 * p,
                        p > 0,
                ;
                if s >= 254 {
                    if s > 254 {
                        lemma_pow2_strictly_increases(254, s);
                    }
                    assert(units >= 0x80_0000 * pow2(254)) by (nonlinear_arith)
                        requires
                            units == m * p,
                            m >= 0x80_0000,
                            p >= pow2(254),
                    ;
                    assert(false);
                }
            }
            if m < 0x80_0000 {
                assert(units == m) by (nonlinear_arith)
                    requires
                        units == m * p,
                        p == 1,
                ;
                Scalar { bits: (sign + m) as u32 }
            } else {
                let x = Scalar { bits: (sign + (s + 1) * 0x80_0000 + (m - 0x80_0000)) as u32 };
                let a = x.bits % 0x8000_0000;
                assert(a == (s + 1) * 0x80_0000 + (m - 0x80_0000));
                assert(a / 0x80_0000 == s + 1 && a % 0x80_0000 == m - 0x80_0000);
                x
            }
        },
    };
    assert(w@ == v && w.canonical());
}

/// `spec_neg` stands for the negation of what its argument stands for.
pub proof fn lemma_neg_meaning(a: Scalar)
    ensures
        a.spec_neg()@ == a@.negate(),
        a.spec_neg().canonical(),
{
    reveal(Scalar::spec_neg);
    lemma_view_representable(a);
    lemma_negate_representable(a@);
    lemma_encodable(a@.negate());
}

/// `spec_from_int` stands for the whole number, rounded.
pub proof fn lemma_from_int_meaning(i: int)
    ensures
        Scalar::spec_from_int(i)@ == Value::from_int(i),
        Scalar::spec_from_int(i).canonical(),
{
    reveal(Scalar::spec_from_int);
    lemma_from_int_representable(i);
    lemma_encodable(Value::from_int(i));
}

/// The constants stand for what their names say: zero, one, and no number;
/// one is `2^149` units of `2^-149`.
pub proof fn lemma_constants()
    ensures
        Scalar::spec_zero()@ == (Value::Finite { neg: false, units: 0 }),
        Scalar::spec_one()@ == (Value::Finite { neg: false, units: pow2(149) }),
        Scalar::spec_nan()@ is Nan,
        Scalar::spec_zero().canonical(),
        Scalar::spec_one().canonical(),
        Scalar::spec_nan().canonical(),
{
    lemma2_to64();
    lemma_pow2_adds(23, 126);
}

} // verus!
