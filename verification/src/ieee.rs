//! The meaning of binary32 arithmetic, stated over the integers.
//!
//! A finite binary32 number is a whole multiple of `2^-149`, the smallest
//! positive subnormal. Counting in these units makes every finite number a
//! natural number with a sign, and every exact sum, product, quotient or
//! square root a rational or a root of one. An operation returns that exact
//! result rounded to the nearest representable number, ties going to the
//! one with an even significand.

use vstd::arithmetic::power2::{lemma2_to64, lemma_pow2_pos, lemma_pow2_unfold, pow2};
use vstd::prelude::*;

verus! {

/// What a binary32 bit pattern stands for.
pub enum Value {
    /// Not a number.
    Nan,
    /// An infinity with its sign.
    Infinite { neg: bool },
    /// The number `units * 2^-149`, negated where `neg` holds. Zero keeps
    /// its sign.
    Finite { neg: bool, units: nat },
}

/// The least magnitude, in units, that is too large to be finite: `2^128`
/// counted in units of `2^-149`.
pub open spec fn limit() -> nat {
    pow2(277)
}

/// The least `s` for which `n / d` lies below `2^(24 + s)`: how many low
/// binary digits a significand of 24 digits has to give up to hold `n / d`.
pub open spec fn scale(n: nat, d: nat) -> nat
    decreases n,
{
    if d == 0 || n < d * 0x100_0000 {
        0
    } else {
        1 + scale(n / 2, d)
    }
}

/// The whole number nearest to `n / d`; of two equally near, the even one.
pub open spec fn nearest(n: nat, d: nat) -> nat {
    let q = n / d;
    let r = n % d;
    if 2 * r > d || (2 * r == d && q % 2 == 1) {
        q + 1
    } else {
        q
    }
}

/// The representable number nearest to `n / d` units, with the sign `neg`:
/// `n / d` is rounded to a multiple of `2^s` units, where `s` is its scale,
/// and a result that reaches `limit()` is infinite.
pub open spec fn round(neg: bool, n: nat, d: nat) -> Value {
    let s = scale(n, d);
    let u = nearest(n, d * pow2(s)) * pow2(s);
    if u >= limit() {
        Value::Infinite { neg }
    } else {
        Value::Finite { neg, units: u }
    }
}

/// The whole part of the square root of `n`.
pub open spec fn isqrt(n: nat) -> nat
    decreases n,
{
    if n == 0 {
        0
    } else {
        let r = 2 * isqrt(n / 4);
        if (r + 1) * (r + 1) <= n {
            r + 1
        } else {
            r
        }
    }
}

/// The representable number nearest to the square root of `n`, both in
/// units. With `s` the scale of the root and `m` the whole part of the root
/// over `2^s`, the root lies above `m + 1/2` exactly when `4 * n` exceeds
/// `(2 * m + 1)^2 * 4^s`.
pub open spec fn round_root(n: nat) -> Value {
    let s = scale(isqrt(n), 1);
    let m = isqrt(n / pow2(2 * s));
    let c = (2 * m + 1) * (2 * m + 1) * pow2(2 * s);
    let up = 4 * n > c || (4 * n == c && m % 2 == 1);
    let u = (if up { m + 1 } else { m }) * pow2(s);
    if u >= limit() {
        Value::Infinite { neg: false }
    } else {
        Value::Finite { neg: false, units: u }
    }
}

impl Value {
    /// Whether a binary32 pattern can stand for this: a finite magnitude
    /// lies below `limit()` and is a whole multiple of `2^s`, `s` being its
    /// scale.
    pub open spec fn representable(self) -> bool {
        match self {
            Value::Finite { units, .. } => units < limit() && units % pow2(scale(units, 1)) == 0,
            _ => true,
        }
    }

    /// The number with its sign turned; not-a-number stays what it is.
    pub open spec fn negate(self) -> Value {
        match self {
            Value::Nan => Value::Nan,
            Value::Infinite { neg } => Value::Infinite { neg: !neg },
            Value::Finite { neg, units } => Value::Finite { neg: !neg, units },
        }
    }

    /// A finite number as a signed count of units; zero for the others.
    pub open spec fn signed(self) -> int {
        match self {
            Value::Finite { neg, units } => if neg { -(units as int) } else { units as int },
            _ => 0,
        }
    }

    /// Strictly below zero. Neither zero nor not-a-number is.
    pub open spec fn is_negative(self) -> bool {
        match self {
            Value::Nan => false,
            Value::Infinite { neg } => neg,
            Value::Finite { neg, units } => neg && units > 0,
        }
    }

    /// Strictly above zero. Neither zero nor not-a-number is.
    pub open spec fn is_positive(self) -> bool {
        match self {
            Value::Nan => false,
            Value::Infinite { neg } => !neg,
            Value::Finite { neg, units } => !neg && units > 0,
        }
    }

    /// The whole number `i`, rounded where 24 binary digits cannot hold it.
    pub open spec fn from_int(i: int) -> Value {
        if i < 0 {
            round(true, (-i) as nat * pow2(149), 1)
        } else {
            round(false, i as nat * pow2(149), 1)
        }
    }

    /// The rounded sum. Opposite infinities give not-a-number; an exact sum
    /// of zero is negative only where both terms are.
    pub open spec fn add(self, other: Value) -> Value {
        match (self, other) {
            (Value::Nan, _) => Value::Nan,
            (_, Value::Nan) => Value::Nan,
            (Value::Infinite { neg: a }, Value::Infinite { neg: b }) => if a == b {
                self
            } else {
                Value::Nan
            },
            (Value::Infinite { .. }, _) => self,
            (_, Value::Infinite { .. }) => other,
            (Value::Finite { neg: a, .. }, Value::Finite { neg: b, .. }) => {
                let t = self.signed() + other.signed();
                if t == 0 {
                    Value::Finite { neg: a && b, units: 0 }
                } else if t < 0 {
                    round(true, (-t) as nat, 1)
                } else {
                    round(false, t as nat, 1)
                }
            },
        }
    }

    /// The rounded difference: the sum with `other` negated.
    pub open spec fn sub(self, other: Value) -> Value {
        self.add(other.negate())
    }

    /// The rounded product. Zero times an infinity gives not-a-number; the
    /// sign is negative where exactly one factor's is.
    pub open spec fn mul(self, other: Value) -> Value {
        match (self, other) {
            (Value::Nan, _) => Value::Nan,
            (_, Value::Nan) => Value::Nan,
            (Value::Infinite { neg: a }, Value::Infinite { neg: b }) => Value::Infinite {
                neg: a != b,
            },
            (Value::Infinite { neg: a }, Value::Finite { neg: b, units }) => if units == 0 {
                Value::Nan
            } else {
                Value::Infinite { neg: a != b }
            },
            (Value::Finite { neg: a, units }, Value::Infinite { neg: b }) => if units == 0 {
                Value::Nan
            } else {
                Value::Infinite { neg: a != b }
            },
            (Value::Finite { neg: a, units: u }, Value::Finite { neg: b, units: v }) => round(
                a != b,
                u * v,
                pow2(149),
            ),
        }
    }

    /// The rounded quotient. Zero over zero and infinity over infinity give
    /// not-a-number; any other number over zero is infinite.
    pub open spec fn div(self, other: Value) -> Value {
        match (self, other) {
            (Value::Nan, _) => Value::Nan,
            (_, Value::Nan) => Value::Nan,
            (Value::Infinite { .. }, Value::Infinite { .. }) => Value::Nan,
            (Value::Infinite { neg: a }, Value::Finite { neg: b, .. }) => Value::Infinite {
                neg: a != b,
            },
            (Value::Finite { neg: a, .. }, Value::Infinite { neg: b }) => Value::Finite {
                neg: a != b,
                units: 0,
            },
            (Value::Finite { neg: a, units: u }, Value::Finite { neg: b, units: v }) => if v == 0 {
                if u == 0 {
                    Value::Nan
                } else {
                    Value::Infinite { neg: a != b }
                }
            } else {
                round(a != b, u * pow2(149), v)
            },
        }
    }

    /// The rounded square root. A zero of either sign is its own root; any
    /// number below zero has none.
    pub open spec fn sqrt(self) -> Value {
        match self {
            Value::Nan => Value::Nan,
            Value::Infinite { neg } => if neg {
                Value::Nan
            } else {
                self
            },
            Value::Finite { neg, units } => if units == 0 {
                self
            } else if neg {
                Value::Nan
            } else {
                round_root(units * pow2(149))
            },
        }
    }
}

/// `scale(n, d)` is a bound: `n / d` lies below `2^(24 + s)`, and unless `s`
/// is zero it reaches `2^(23 + s)`.
pub proof fn lemma_scale_bounds(n: nat, d: nat)
    requires
        d > 0,
    ensures
        n < d * pow2(24 + scale(n, d)),
        scale(n, d) == 0 || n >= d * pow2(23 + scale(n, d)),
    decreases n,
{
    lemma2_to64();
    if n < d * 0x100_0000 {
    } else {
        let t = scale(n / 2, d);
        lemma_scale_bounds(n / 2, d);
        lemma_pow2_unfold(25 + t);
        lemma_pow2_unfold(24 + t);
        assert(d * pow2(25 + t) == 2 * (d * pow2(24 + t))) by (nonlinear_arith)
            requires
                pow2(25 + t) == 2 * pow2(24 + t),
        ;
        assert(d * pow2(24 + t) == 2 * (d * pow2(23 + t))) by (nonlinear_arith)
            requires
                pow2(24 + t) == 2 * pow2(23 + t),
        ;
    }
}

/// The bounds of `lemma_scale_bounds` hold of one `s` only.
pub proof fn lemma_scale_is(n: nat, d: nat, s: nat)
    requires
        d > 0,
        n < d * pow2(24 + s),
        s == 0 || n >= d * pow2(23 + s),
    ensures
        scale(n, d) == s,
    decreases s,
{
    lemma2_to64();
    if s == 0 {
    } else {
        lemma_pow2_unfold(24 + s);
        lemma_pow2_unfold(23 + s);
        lemma_pow2_pos((23 + s) as nat);
        assert(d * pow2(24 + s) == 2 * (d * pow2(23 + s))) by (nonlinear_arith)
            requires
                pow2(24 + s) == 2 * pow2(23 + s),
        ;
        if s == 1 {
            assert(n >= d * 0x100_0000);
        } else {
            lemma_pow2_unfold((22 + s) as nat);
            assert(d * pow2(23 + s) == 2 * (d * pow2((22 + s) as nat))) by (nonlinear_arith)
                requires
                    pow2(23 + s) == 2 * pow2((22 + s) as nat),
            ;
            lemma_pow2_increases_24((22 + s) as nat, d);
            assert(n >= d * 0x100_0000);
        }
        lemma_scale_is(n / 2, d, (s - 1) as nat);
    }
}

/// From `2^24` on, `d * 2^e` does not fall below `d * 2^24`.
proof fn lemma_pow2_increases_24(e: nat, d: nat)
    requires
        e >= 24,
    ensures
        d * pow2(e) >= d * 0x100_0000,
    decreases e,
{
    lemma2_to64();
    if e > 24 {
        lemma_pow2_increases_24((e - 1) as nat, d);
        lemma_pow2_unfold(e);
        assert(d * pow2(e) == 2 * (d * pow2((e - 1) as nat))) by (nonlinear_arith)
            requires
                pow2(e) == 2 * pow2((e - 1) as nat),
        ;
    }
}

/// `nearest` depends on the ratio alone: equal fractions round alike.
pub proof fn lemma_nearest_ratio(a: nat, b: nat, c: nat, e: nat)
    requires
        b > 0,
        e > 0,
        a * e == c * b,
    ensures
        nearest(a, b) == nearest(c, e),
{
    let q = a / b;
    let r = a % b;
    vstd::arithmetic::div_mod::lemma_fundamental_div_mod(a as int, b as int);
    vstd::arithmetic::div_mod::lemma_mod_bound(a as int, b as int);
    let t = c - q * e;
    assert(t * b == r * e) by (nonlinear_arith)
        requires
            a * e == c * b,
            a == b * q + r,
            t == c - q * e,
    ;
    assert(0 <= t < e) by (nonlinear_arith)
        requires
            t * b == r * e,
            0 <= r < b,
            b > 0,
            e > 0,
    ;
    vstd::arithmetic::div_mod::lemma_fundamental_div_mod_converse(c as int, e as int, q as int, t);
    assert(2 * r > b <==> 2 * t > e) by (nonlinear_arith)
        requires
            t * b == r * e,
            b > 0,
            e > 0,
    ;
    assert(2 * r == b <==> 2 * t == e) by (nonlinear_arith)
        requires
            t * b == r * e,
            b > 0,
            e > 0,
    ;
}

/// `round` depends on the ratio alone: equal fractions round alike.
pub proof fn lemma_round_ratio(neg: bool, a: nat, b: nat, c: nat, e: nat)
    requires
        b > 0,
        e > 0,
        a * e == c * b,
    ensures
        round(neg, a, b) == round(neg, c, e),
{
    let s = scale(a, b);
    lemma_scale_bounds(a, b);
    let hi = pow2(24 + s);
    let lo = pow2(23 + s);
    assert(c < e * hi) by (nonlinear_arith)
        requires
            a * e == c * b,
            a < b * hi,
            b > 0,
            e > 0,
    ;
    if s != 0 {
        assert(c >= e * lo) by (nonlinear_arith)
            requires
                a * e == c * b,
                a >= b * lo,
                b > 0,
                e > 0,
        ;
    }
    lemma_scale_is(c, e, s);
    let p = pow2(s);
    lemma_pow2_pos(s);
    assert(a * (e * p) == c * (b * p)) by (nonlinear_arith)
        requires
            a * e == c * b,
    ;
    assert(b * p > 0 && e * p > 0) by (nonlinear_arith)
        requires
            b > 0,
            e > 0,
            p > 0,
    ;
    lemma_nearest_ratio(a, b * p, c, e * p);
}

/// A significand of full width fixes the scale: `m * 2^e` with `m` in
/// `[2^23, 2^24)` has scale `e`.
pub proof fn lemma_scale_normal(m: nat, e: nat)
    requires
        0x80_0000 <= m < 0x100_0000,
    ensures
        scale(m * pow2(e), 1) == e,
        m * pow2(e) >= 0x80_0000,
{
    let p = pow2(e);
    lemma_pow2_pos(e);
    lemma2_to64();
    vstd::arithmetic::power2::lemma_pow2_adds(24, e);
    vstd::arithmetic::power2::lemma_pow2_adds(23, e);
    assert(m * p < 1 * pow2(24 + e)) by (nonlinear_arith)
        requires
            m < 0x100_0000,
            p > 0,
            pow2(24 + e) == 0x100_0000 * p,
    ;
    assert(m * p >= 1 * pow2(23 + e) && m * p >= 0x80_0000) by (nonlinear_arith)
        requires
            m >= 0x80_0000,
            p > 0,
            pow2(23 + e) == 0x80_0000 * p,
    ;
    lemma_scale_is(m * p, 1, e);
}

/// A number that differs from the representable `m * 2^e` by less than a
/// quarter of its last place rounds to `m * 2^e`.
pub proof fn lemma_round_near(neg: bool, m: nat, e: nat, t: nat)
    requires
        0x80_0000 <= m < 0x100_0000,
        2 <= e <= 253,
        t < pow2((e - 2) as nat),
    ensures
        m * pow2(e) > t,
        round(neg, m * pow2(e) + t, 1) == (Value::Finite { neg, units: m * pow2(e) }),
        round(neg, (m * pow2(e) - t) as nat, 1) == (Value::Finite { neg, units: m * pow2(e) }),
{
    let p = pow2(e);
    let h = pow2((e - 1) as nat);
    let q = pow2((e - 2) as nat);
    lemma2_to64();
    lemma_pow2_pos((e - 2) as nat);
    lemma_pow2_unfold(e);
    lemma_pow2_unfold((e - 1) as nat);
    vstd::arithmetic::power2::lemma_pow2_adds(24, e);
    vstd::arithmetic::power2::lemma_pow2_adds(23, e);
    vstd::arithmetic::power2::lemma_pow2_adds(24, (e - 1) as nat);
    vstd::arithmetic::power2::lemma_pow2_adds(23, (e - 1) as nat);
    vstd::arithmetic::power2::lemma_pow2_adds(24, 253);
    if e < 253 {
        vstd::arithmetic::power2::lemma_pow2_strictly_increases(e, 253);
    }
    let u = m * p;
    assert(0x80_0000 * p <= u && u + p <= 0x100_0000 * p) by (nonlinear_arith)
        requires
            0x80_0000 <= m < 0x100_0000,
            u == m * p,
            p > 0,
    ;
    assert(u < limit()) by (nonlinear_arith)
        requires
            u + p <= 0x100_0000 * p,
            0 < p <= pow2(253),
            limit() == 0x100_0000 * pow2(253),
    ;
    assert(1 * p == p && 1 * h == h) by (nonlinear_arith);
    // above
    lemma_scale_is(u + t, 1, e);
    vstd::arithmetic::div_mod::lemma_fundamental_div_mod_converse(
        (u + t) as int,
        p as int,
        m as int,
        t as int,
    );
    assert(nearest(u + t, p) == m);
    // below
    let v = (u - t) as nat;
    if t == 0 {
    } else if m > 0x80_0000 {
        assert(0x80_0000 * p <= u - p) by (nonlinear_arith)
            requires
                0x80_0000 < m,
                u == m * p,
                p > 0,
        ;
        lemma_scale_is(v, 1, e);
        assert(v == p * (m - 1) + (p - t)) by (nonlinear_arith)
            requires
                v == u - t,
                u == m * p,
        ;
        vstd::arithmetic::div_mod::lemma_fundamental_div_mod_converse(
            v as int,
            p as int,
            m - 1,
            p - t,
        );
        assert(nearest(v, p) == m);
    } else {
        assert(u == 0x100_0000 * h) by (nonlinear_arith)
            requires
                u == m * p,
                m == 0x80_0000,
                p == 2 * h,
        ;
        assert(0x80_0000 * h <= v) by (nonlinear_arith)
            requires
                v == 0x100_0000 * h - t,
                t < q,
                h == 2 * q,
        ;
        lemma_scale_is(v, 1, (e - 1) as nat);
        assert(v == h * 0xff_ffff + (h - t)) by (nonlinear_arith)
            requires
                v == 0x100_0000 * h - t,
        ;
        vstd::arithmetic::div_mod::lemma_fundamental_div_mod_converse(
            v as int,
            h as int,
            0xff_ffff,
            h - t,
        );
        assert(nearest(v, h) == 0x100_0000);
    }
}

/// Within the bounds of its scale `s`, a fraction over `2^s` rounds to a
/// significand of at most `2^24` that, unless `s` is zero, reaches `2^23`.
pub proof fn lemma_nearest_bounds(n: nat, d: nat, s: nat)
    requires
        d > 0,
        n < d * pow2(24 + s),
        s == 0 || n >= d * pow2(23 + s),
    ensures
        nearest(n, d * pow2(s)) <= 0x100_0000,
        s == 0 || nearest(n, d * pow2(s)) >= 0x80_0000,
{
    let p = pow2(s);
    let b = d * p;
    lemma_pow2_pos(s);
    lemma2_to64();
    vstd::arithmetic::power2::lemma_pow2_adds(24, s);
    vstd::arithmetic::power2::lemma_pow2_adds(23, s);
    assert(b > 0 && d * pow2(24 + s) == b * 0x100_0000 && d * pow2(23 + s) == b * 0x80_0000)
        by (nonlinear_arith)
        requires
            b == d * p,
            d > 0,
            p > 0,
            pow2(24 + s) == 0x100_0000 * p,
            pow2(23 + s) == 0x80_0000 * p,
    ;
    let q = n / b;
    let r = n % b;
    vstd::arithmetic::div_mod::lemma_fundamental_div_mod(n as int, b as int);
    vstd::arithmetic::div_mod::lemma_mod_bound(n as int, b as int);
    assert(q < 0x100_0000) by (nonlinear_arith)
        requires
            n == b * q + r,
            0 <= r,
            0 < b,
            n < b * 0x100_0000,
    ;
    if s != 0 {
        assert(q >= 0x80_0000) by (nonlinear_arith)
            requires
                n == b * q + r,
                r < b,
                0 < b,
                n >= b * 0x80_0000,
        ;
    }
}

/// A significand of at most 24 binary digits, of full width unless the
/// scale is zero, gives a representable magnitude as long as it stays below
/// the limit.
pub proof fn lemma_units_representable(neg: bool, m: nat, s: nat)
    requires
        m <= 0x100_0000,
        s == 0 || m >= 0x80_0000,
        m * pow2(s) < limit(),
    ensures
        (Value::Finite { neg, units: m * pow2(s) }).representable(),
{
    let p = pow2(s);
    let u = m * p;
    lemma2_to64();
    lemma_pow2_pos(s);
    if m < 0x80_0000 {
        assert(u == m) by (nonlinear_arith)
            requires
                u == m * p,
                p == 1,
        ;
        assert(scale(u, 1) == 0);
        vstd::arithmetic::div_mod::lemma_mod_multiples_basic(m as int, 1);
        assert(u == m * 1);
    } else if m < 0x100_0000 {
        lemma_scale_normal(m, s);
        vstd::arithmetic::div_mod::lemma_mod_multiples_basic(m as int, p as int);
    } else {
        let p1 = pow2(s + 1);
        lemma_pow2_unfold(s + 1);
        assert(u == 0x80_0000 * p1) by (nonlinear_arith)
            requires
                u == m * p,
                m == 0x100_0000,
                p1 == 2 * p,
        ;
        lemma_scale_normal(0x80_0000, s + 1);
        vstd::arithmetic::div_mod::lemma_mod_multiples_basic(0x80_0000, p1 as int);
    }
}

/// What `round` returns is representable.
pub proof fn lemma_round_representable(neg: bool, n: nat, d: nat)
    requires
        d > 0,
    ensures
        round(neg, n, d).representable(),
{
    let s = scale(n, d);
    lemma_scale_bounds(n, d);
    lemma_nearest_bounds(n, d, s);
    let m = nearest(n, d * pow2(s));
    if m * pow2(s) < limit() {
        lemma_units_representable(neg, m, s);
    }
}

/// A zero of either sign is representable.
pub proof fn lemma_zero_representable(neg: bool)
    ensures
        (Value::Finite { neg, units: 0 }).representable(),
{
    lemma_pow2_pos(277);
    lemma_pow2_pos(0);
    assert(0 * pow2(0) == 0) by (nonlinear_arith);
    lemma_units_representable(neg, 0, 0);
}

/// Turning the sign keeps a number representable.
pub proof fn lemma_negate_representable(a: Value)
    requires
        a.representable(),
    ensures
        a.negate().representable(),
{
}

/// Every whole number converts to something representable.
pub proof fn lemma_from_int_representable(i: int)
    ensures
        Value::from_int(i).representable(),
{
    if i < 0 {
        lemma_round_representable(true, (-i) as nat * pow2(149), 1);
    } else {
        lemma_round_representable(false, i as nat * pow2(149), 1);
    }
}

/// The sum of representable numbers is representable.
pub proof fn lemma_add_representable(a: Value, b: Value)
    requires
        a.representable(),
        b.representable(),
    ensures
        a.add(b).representable(),
        a.sub(b).representable(),
{
    let t = a.signed() + b.signed();
    lemma_zero_representable(true);
    lemma_zero_representable(false);
    if t < 0 {
        lemma_round_representable(true, (-t) as nat, 1);
    } else {
        lemma_round_representable(false, t as nat, 1);
    }
    let c = b.negate();
    let r = a.signed() + c.signed();
    if r < 0 {
        lemma_round_representable(true, (-r) as nat, 1);
    } else {
        lemma_round_representable(false, r as nat, 1);
    }
}

/// The product of representable numbers is representable.
pub proof fn lemma_mul_representable(a: Value, b: Value)
    requires
        a.representable(),
        b.representable(),
    ensures
        a.mul(b).representable(),
{
    lemma_pow2_pos(149);
    if let (Value::Finite { neg: x, units: u }, Value::Finite { neg: y, units: v }) = (a, b) {
        lemma_round_representable(x != y, u * v, pow2(149));
    }
}

/// The quotient of representable numbers is representable.
pub proof fn lemma_div_representable(a: Value, b: Value)
    requires
        a.representable(),
        b.representable(),
    ensures
        a.div(b).representable(),
{
    lemma_zero_representable(true);
    lemma_zero_representable(false);
    if let (Value::Finite { neg: x, units: u }, Value::Finite { neg: y, units: v }) = (a, b) {
        if v != 0 {
            lemma_round_representable(x != y, u * pow2(149), v);
        }
    }
}

} // verus!
