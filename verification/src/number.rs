//! Exact decimal numbers for the calculator.
//!
//! A finite value is `(-1)^neg * mant / 10^scale` with `mant <= MANT_MAX`
//! and `scale <= MAX_SCALE`, kept normalized: a nonzero fraction never ends
//! in a zero digit, and zero is stored with scale 0 (the sign of zero is
//! kept, so negative zero exists). Values whose magnitude leaves the
//! representable range are the explicit infinities, and undefined results
//! are the explicit `NaN`.
//!
//! Specifications measure every finite value on a common grid: its signed
//! count of units of `10^-MAX_SCALE`. Addition and subtraction are exact on
//! that grid; multiplication, division and square root truncate toward zero
//! at `MAX_SCALE` fractional digits.

use vstd::prelude::*;

verus! {

/// Largest mantissa a finite value may carry: sixteen decimal digits.
pub const MANT_MAX: u64 = 9_999_999_999_999_999;

/// Largest number of fractional digits a finite value may carry.
pub const MAX_SCALE: u8 = 9;

/// `10^e`.
pub open spec fn pow10(e: nat) -> nat
    decreases e,
{
    if e == 0 {
        1
    } else {
        10 * pow10((e - 1) as nat)
    }
}

pub proof fn lemma_pow10_pos(e: nat)
    ensures
        pow10(e) >= 1,
    decreases e,
{
    if e > 0 {
        lemma_pow10_pos((e - 1) as nat);
    }
}

pub proof fn lemma_pow10_adds(a: nat, b: nat)
    ensures
        pow10(a + b) == pow10(a) * pow10(b),
    decreases a,
{
    if a == 0 {
        assert(pow10(0 + b) == 1 * pow10(b));
    } else {
        lemma_pow10_adds((a - 1) as nat, b);
        assert(pow10(a + b) == 10 * pow10((a + b - 1) as nat));
        assert(10 * (pow10((a - 1) as nat) * pow10(b)) == (10 * pow10((a - 1) as nat)) * pow10(b))
            by (nonlinear_arith);
    }
}

pub proof fn lemma_pow10_mono(a: nat, b: nat)
    requires
        a <= b,
    ensures
        pow10(a) <= pow10(b),
{
    lemma_pow10_adds(a, (b - a) as nat);
    lemma_pow10_pos((b - a) as nat);
    assert(pow10(a) * 1 <= pow10(a) * pow10((b - a) as nat)) by (nonlinear_arith)
        requires 1 <= pow10((b - a) as nat);
}

pub proof fn lemma_pow10_18()
    ensures
        pow10(18) == 1_000_000_000_000_000_000,
{
    reveal_with_fuel(pow10, 19);
}

/// Strip trailing zero digits from a mantissa, lowering the scale, until the
/// scale reaches zero or the last digit is nonzero.
pub open spec fn strip(m: nat, s: nat) -> (nat, nat)
    decreases s,
{
    if s > 0 && m % 10 == 0 {
        strip(m / 10, (s - 1) as nat)
    } else {
        (m, s)
    }
}

pub proof fn lemma_strip(m: nat, s: nat)
    ensures
        strip(m, s).1 <= s,
        strip(m, s).0 * pow10((s - strip(m, s).1) as nat) == m,
        strip(m, s).0 <= m,
        strip(m, s).1 > 0 ==> strip(m, s).0 % 10 != 0,
        strip(m, s).0 == 0 ==> strip(m, s).1 == 0,
    decreases s,
{
    if s > 0 && m % 10 == 0 {
        lemma_strip(m / 10, (s - 1) as nat);
        let (m2, s2) = strip(m / 10, (s - 1) as nat);
        assert(strip(m, s) == strip(m / 10, (s - 1) as nat));
        assert(strip(m, s).0 == m2 && strip(m, s).1 == s2);
        assert(m / 10 * 10 == m);
        assert(pow10(1) == 10) by {
            reveal_with_fuel(pow10, 2);
        }
        lemma_pow10_adds((s - 1 - s2) as nat, 1);
        assert(pow10((s - s2) as nat) == pow10((s - 1 - s2) as nat) * 10);
        assert(m2 * (pow10((s - 1 - s2) as nat) * 10) == (m2 * pow10((s - 1 - s2) as nat)) * 10)
            by (nonlinear_arith);
        assert(m2 * pow10((s - s2) as nat) == m);
    } else {
        assert(strip(m, s) == (m, s));
        assert(pow10(0) == 1);
        assert(m * pow10(0) == m);
    }
}

/// Padding a mantissa with `k` trailing zeros and raising the scale by `k`
/// strips back to the same normal form.
pub proof fn lemma_strip_pad(m: nat, s: nat, k: nat)
    ensures
        strip(m * pow10(k), s + k) == strip(m, s),
    decreases k,
{
    if k > 0 {
        lemma_strip_pad(m, s, (k - 1) as nat);
        assert(pow10(1) == 10) by {
            reveal_with_fuel(pow10, 2);
        }
        lemma_pow10_adds((k - 1) as nat, 1);
        let p = m * pow10((k - 1) as nat);
        assert(m * pow10(k) == p * 10) by (nonlinear_arith)
            requires
                pow10(k) == pow10((k - 1) as nat) * 10,
                p == m * pow10((k - 1) as nat),
        ;
        assert((p * 10) % 10 == 0);
        assert((p * 10) / 10 == p);
        assert(strip((m * pow10(k)) as nat, s + k) == strip(p, (s + k - 1) as nat));
        assert(strip(p, (s + k - 1) as nat) == strip(m * pow10((k - 1) as nat), s + (k - 1) as nat));
        assert(strip(m * pow10((k - 1) as nat), s + (k - 1) as nat) == strip(m, s));
    } else {
        assert(pow10(0) == 1);
        assert(m * pow10(0) == m);
        assert(strip(m * pow10(0), s + 0) == strip(m, s));
    }
}

/// A calculator value: an exact signed decimal, an infinity, or
/// not-a-number.
#[derive(Clone, Copy, PartialEq, Eq, Structural, Debug)]
pub enum Number {
    Finite { neg: bool, mant: u64, scale: u8 },
    Infinite { neg: bool },
    NaN,
}

/// Normal form of a magnitude of `m` units of `10^-s`: trailing zeros
/// stripped, and magnitudes beyond `MANT_MAX` turned into an infinity.
pub open spec fn norm_spec(neg: bool, m: nat, s: nat) -> Number {
    let (m2, s2) = strip(m, s);
    if m2 > MANT_MAX {
        Number::Infinite { neg }
    } else {
        Number::Finite { neg, mant: m2 as u64, scale: s2 as u8 }
    }
}

impl Number {
    /// Structural soundness: bounded normalized mantissa and scale.
    pub open spec fn wf(self) -> bool {
        match self {
            Number::Finite { neg, mant, scale } => {
                &&& mant <= MANT_MAX
                &&& scale <= MAX_SCALE
                &&& (scale > 0 ==> mant % 10 != 0)
                &&& (mant == 0 ==> scale == 0)
            },
            _ => true,
        }
    }

    pub open spec fn sign_neg(self) -> bool {
        match self {
            Number::Finite { neg, .. } => neg,
            Number::Infinite { neg } => neg,
            Number::NaN => false,
        }
    }

    pub open spec fn is_zero(self) -> bool {
        self matches Number::Finite { mant: 0u64, .. }
    }

    /// Magnitude of a finite value in units of `10^-MAX_SCALE`.
    pub open spec fn abs_units(self) -> nat
        recommends
            self is Finite,
    {
        match self {
            Number::Finite { mant, scale, .. } => (mant * pow10((MAX_SCALE - scale) as nat)) as nat,
            _ => 0,
        }
    }

    /// Signed value of a finite number in units of `10^-MAX_SCALE`.
    pub open spec fn units(self) -> int
        recommends
            self is Finite,
    {
        if self.sign_neg() {
            -(self.abs_units() as int)
        } else {
            self.abs_units() as int
        }
    }

    pub open spec fn zero_spec() -> Number {
        Number::Finite { neg: false, mant: 0, scale: 0 }
    }

    /// Positive zero.
    pub fn zero() -> (r: Number)
        ensures
            r == Number::zero_spec(),
            r.wf(),
    {
        Number::Finite { neg: false, mant: 0, scale: 0 }
    }

    /// Whether the value is a zero of either sign.
    pub fn eq_zero(&self) -> (r: bool)
        ensures
            r == self.is_zero(),
    {
        match self {
            Number::Finite { mant, .. } => *mant == 0,
            _ => false,
        }
    }

    pub open spec fn spec_negated(self) -> Number {
        match self {
            Number::Finite { neg, mant, scale } => Number::Finite { neg: !neg, mant, scale },
            Number::Infinite { neg } => Number::Infinite { neg: !neg },
            Number::NaN => Number::NaN,
        }
    }

    /// The value with its sign flipped; zero becomes negative zero.
    pub fn negated(self) -> (r: Number)
        requires
            self.wf(),
        ensures
            r == self.spec_negated(),
            r.wf(),
    {
        match self {
            Number::Finite { neg, mant, scale } => Number::Finite { neg: !neg, mant, scale },
            Number::Infinite { neg } => Number::Infinite { neg: !neg },
            Number::NaN => Number::NaN,
        }
    }

    /// Build a value from a sign, a mantissa and a scale, normalizing it.
    /// Returns `None` when the scale or the normalized mantissa is out of
    /// range.
    pub fn from_parts(neg: bool, mant: u64, scale: u8) -> (r: Option<Number>)
        ensures
            r is Some <==> scale <= MAX_SCALE && norm_spec(neg, mant as nat, scale as nat) is Finite,
            r matches Some(n) ==> n == norm_spec(neg, mant as nat, scale as nat) && n.wf(),
    {
        if scale > MAX_SCALE {
            return Option::None;
        }
        let n = norm(neg, mant as u128, scale);
        match n {
            Number::Finite { .. } => Option::Some(n),
            _ => Option::None,
        }
    }
}

pub proof fn lemma_pow10_9()
    ensures
        pow10(9) == 1_000_000_000,
{
    reveal_with_fuel(pow10, 10);
}

/// Truncating division is unchanged by scaling numerator and denominator by
/// the same factor.
pub proof fn lemma_div_cancel(x: nat, d: nat, c: nat)
    requires
        d >= 1,
        c >= 1,
    ensures
        (x * c) / (d * c) == x / d,
{
    let q = x / d;
    let r = x % d;
    vstd::arithmetic::div_mod::lemma_fundamental_div_mod(x as int, d as int);
    assert(x * c == q * (d * c) + r * c) by (nonlinear_arith)
        requires
            x == d * q + r,
    ;
    assert(r * c < d * c) by (nonlinear_arith)
        requires
            r < d,
            c >= 1,
    ;
    vstd::arithmetic::div_mod::lemma_fundamental_div_mod_converse(
        (x * c) as int,
        (d * c) as int,
        q as int,
        (r * c) as int,
    );
}

/// Floor of the square root.
pub open spec fn isqrt_spec(n: nat) -> nat
    decreases n,
{
    if n == 0 {
        0
    } else {
        let r = isqrt_spec((n - 1) as nat);
        if (r + 1) * (r + 1) <= n {
            r + 1
        } else {
            r
        }
    }
}

pub proof fn lemma_isqrt_bounds(n: nat)
    ensures
        isqrt_spec(n) * isqrt_spec(n) <= n,
        n < (isqrt_spec(n) + 1) * (isqrt_spec(n) + 1),
    decreases n,
{
    let q = isqrt_spec(n);
    if n == 0 {
        assert(q == 0) by {
            reveal_with_fuel(isqrt_spec, 2);
        }
        assert(q * q <= n && n < (q + 1) * (q + 1)) by (nonlinear_arith)
            requires
                q == 0,
                n == 0,
        ;
    } else {
        lemma_isqrt_bounds((n - 1) as nat);
        let r = isqrt_spec((n - 1) as nat);
        if (r + 1) * (r + 1) <= n {
            assert(q == r + 1);
            assert(n == (r + 1) * (r + 1));
            assert(q * q <= n && n < (q + 1) * (q + 1)) by (nonlinear_arith)
                requires
                    q == r + 1,
                    n == (r + 1) * (r + 1),
            ;
        } else {
            assert(q == r);
            assert(q * q <= n && n < (q + 1) * (q + 1)) by (nonlinear_arith)
                requires
                    q == r,
                    r * r <= n - 1,
                    n >= 1,
                    n < (r + 1) * (r + 1),
            ;
        }
    }
}

pub proof fn lemma_isqrt_unique(n: nat, r: nat)
    requires
        r * r <= n,
        n < (r + 1) * (r + 1),
    ensures
        r == isqrt_spec(n),
{
    lemma_isqrt_bounds(n);
    let q = isqrt_spec(n);
    if r < q {
        assert((r + 1) * (r + 1) <= q * q) by (nonlinear_arith)
            requires
                r + 1 <= q,
        ;
    }
    if q < r {
        assert((q + 1) * (q + 1) <= r * r) by (nonlinear_arith)
            requires
                q + 1 <= r,
        ;
    }
}

/// Normalize `m` units of `10^-s` into a `Number`.
pub(crate) fn norm(neg: bool, m0: u128, s0: u8) -> (r: Number)
    requires
        s0 <= MAX_SCALE,
    ensures
        r == norm_spec(neg, m0 as nat, s0 as nat),
        r.wf(),
        r is Finite || r is Infinite,
        r.sign_neg() == neg,
{
    let mut m: u128 = m0;
    let mut s: u8 = s0;
    while s > 0 && m % 10 == 0
        invariant
            s <= MAX_SCALE,
            strip(m0 as nat, s0 as nat) == strip(m as nat, s as nat),
        decreases s,
    {
        m = m / 10;
        s = s - 1;
    }
    if m > MANT_MAX as u128 {
        Number::Infinite { neg }
    } else {
        Number::Finite { neg, mant: m as u64, scale: s }
    }
}

/// `10^e` as a machine integer.
fn pow10_u64(e: u8) -> (r: u64)
    requires
        e <= 18,
    ensures
        r as nat == pow10(e as nat),
{
    let mut r: u64 = 1;
    let mut i: u8 = 0;
    while i < e
        invariant
            i <= e,
            e <= 18,
            r as nat == pow10(i as nat),
        decreases e - i,
    {
        proof {
            lemma_pow10_mono((i + 1) as nat, 18);
            lemma_pow10_18();
            assert(pow10((i + 1) as nat) == 10 * pow10(i as nat));
        }
        r = r * 10;
        i = i + 1;
    }
    r
}

/// The magnitude of a finite `(mant, scale)` pair in units of
/// `10^-MAX_SCALE`.
fn grid_units(mant: u64, scale: u8) -> (r: u128)
    requires
        mant <= MANT_MAX,
        scale <= MAX_SCALE,
    ensures
        r as nat == mant * pow10((MAX_SCALE - scale) as nat),
        r <= 10_000_000_000_000_000_000_000_000,
{
    let p = pow10_u64(MAX_SCALE - scale);
    proof {
        lemma_pow10_mono((MAX_SCALE - scale) as nat, MAX_SCALE as nat);
        lemma_pow10_9();
        assert(mant as nat * pow10((MAX_SCALE - scale) as nat)
            <= 9_999_999_999_999_999 * 1_000_000_000) by (nonlinear_arith)
            requires
                mant <= 9_999_999_999_999_999,
                pow10((MAX_SCALE - scale) as nat) <= 1_000_000_000,
        ;
    }
    (mant as u128) * (p as u128)
}

/// Grid magnitude of the product of two finite values, truncated to the
/// grid: the product of the two grid magnitudes, divided by `10^MAX_SCALE`.
proof fn lemma_times_grid(ma: nat, sa: nat, mb: nat, sb: nat)
    requires
        sa <= 9,
        sb <= 9,
    ensures
        sa + sb <= 9 ==> ((ma * pow10((9 - sa) as nat)) * (mb * pow10((9 - sb) as nat))) / pow10(9)
            == (ma * mb) * pow10((9 - sa - sb) as nat),
        sa + sb > 9 ==> ((ma * pow10((9 - sa) as nat)) * (mb * pow10((9 - sb) as nat))) / pow10(9)
            == (ma * mb) / pow10((sa + sb - 9) as nat),
{
    let ua = ma * pow10((9 - sa) as nat);
    let ub = mb * pow10((9 - sb) as nat);
    lemma_pow10_adds((9 - sa) as nat, (9 - sb) as nat);
    assert(ua * ub == (ma * mb) * pow10((18 - sa - sb) as nat)) by (nonlinear_arith)
        requires
            ua == ma * pow10((9 - sa) as nat),
            ub == mb * pow10((9 - sb) as nat),
            pow10((9 - sa) as nat) * pow10((9 - sb) as nat) == pow10((18 - sa - sb) as nat),
    ;
    lemma_pow10_pos(9);
    if sa + sb <= 9 {
        lemma_pow10_adds((9 - sa - sb) as nat, 9);
        let x = (ma * mb) * pow10((9 - sa - sb) as nat);
        assert(ua * ub == x * pow10(9)) by (nonlinear_arith)
            requires
                ua * ub == (ma * mb) * pow10((18 - sa - sb) as nat),
                pow10((18 - sa - sb) as nat) == pow10((9 - sa - sb) as nat) * pow10(9),
                x == (ma * mb) * pow10((9 - sa - sb) as nat),
        ;
        lemma_div_cancel(x, 1, pow10(9));
        assert(1 * pow10(9) == pow10(9));
        assert(x / 1 == x);
    } else {
        let d = pow10((sa + sb - 9) as nat);
        let c = pow10((18 - sa - sb) as nat);
        lemma_pow10_adds((sa + sb - 9) as nat, (18 - sa - sb) as nat);
        assert(d * c == pow10(9));
        lemma_pow10_pos((sa + sb - 9) as nat);
        lemma_pow10_pos((18 - sa - sb) as nat);
        lemma_div_cancel(ma * mb, d, c);
        assert(((ma * mb) * c) / (d * c) == (ma * mb) / d);
    }
}

/// Grid magnitude of a truncated quotient: the first grid magnitude scaled
/// by `10^MAX_SCALE` and divided by the second equals the plain mantissa
/// computation the implementation performs.
proof fn lemma_div_grid(ma: nat, sa: nat, mb: nat, sb: nat)
    requires
        sa <= 9,
        sb <= 9,
        mb >= 1,
    ensures
        ((ma * pow10((9 - sa) as nat)) * pow10(9)) / (mb * pow10((9 - sb) as nat))
            == (ma * pow10((9 - sa + sb) as nat)) / mb,
{
    let p1 = pow10((9 - sa) as nat);
    let p2 = pow10((9 - sa + sb) as nat);
    let p9 = pow10(9);
    let c = pow10((9 - sb) as nat);
    let ua = ma * p1;
    let x = ma * p2;
    lemma_pow10_adds((9 - sa) as nat, 9);
    lemma_pow10_adds((9 - sa + sb) as nat, (9 - sb) as nat);
    assert(p1 * p9 == pow10((18 - sa) as nat));
    assert(p2 * c == pow10((18 - sa) as nat));
    assert((ma * p1) * p9 == (ma * p2) * c) by (nonlinear_arith)
        requires
            p1 * p9 == p2 * c,
    ;
    lemma_pow10_pos((9 - sb) as nat);
    lemma_div_cancel(x, mb, c);
}

/// Floor of the square root, by bisection.
fn isqrt(n: u128) -> (r: u128)
    requires
        n <= 10_000_000_000_000_000_000_000_000_000_000_000,
    ensures
        r as nat == isqrt_spec(n as nat),
{
    if n == 0 {
        return 0;
    }
    let mut lo: u128 = 0;
    let mut hi: u128 = 200_000_000_000_000_000;
    proof {
        assert((hi as nat) * (hi as nat) > n as nat) by (nonlinear_arith)
            requires
                hi == 200_000_000_000_000_000u128,
                n <= 10_000_000_000_000_000_000_000_000_000_000_000,
        ;
    }
    while hi - lo > 1
        invariant
            lo < hi,
            hi <= 200_000_000_000_000_000,
            (lo as nat) * (lo as nat) <= n as nat,
            (n as nat) < (hi as nat) * (hi as nat),
        decreases hi - lo,
    {
        let mid = lo + (hi - lo) / 2;
        proof {
            assert((mid as nat) * (mid as nat) < (200_000_000_000_000_001 as nat) * (
            200_000_000_000_000_001 as nat)) by (nonlinear_arith)
                requires
                    mid <= 200_000_000_000_000_000,
            ;
        }
        if mid * mid <= n {
            lo = mid;
        } else {
            hi = mid;
        }
    }
    proof {
        lemma_isqrt_unique(n as nat, lo as nat);
    }
    lo
}

impl Number {
    /// Exact sum. Opposite infinities give `NaN`; a sum of zero is positive
    /// zero; a magnitude beyond the representable range becomes an infinity.
    pub open spec fn spec_plus(self, other: Number) -> Number {
        if self is NaN || other is NaN {
            Number::NaN
        } else if self is Infinite && other is Infinite {
            if self.sign_neg() == other.sign_neg() {
                self
            } else {
                Number::NaN
            }
        } else if self is Infinite {
            self
        } else if other is Infinite {
            other
        } else {
            let s = self.units() + other.units();
            if s >= 0 {
                norm_spec(false, s as nat, MAX_SCALE as nat)
            } else {
                norm_spec(true, (-s) as nat, MAX_SCALE as nat)
            }
        }
    }

    pub fn plus(self, other: Number) -> (r: Number)
        requires
            self.wf(),
            other.wf(),
        ensures
            r == self.spec_plus(other),
            r.wf(),
    {
        match (self, other) {
            (Number::NaN, _) => Number::NaN,
            (_, Number::NaN) => Number::NaN,
            (Number::Infinite { neg: n1 }, Number::Infinite { neg: n2 }) => {
                if n1 == n2 {
                    Number::Infinite { neg: n1 }
                } else {
                    Number::NaN
                }
            },
            (Number::Infinite { neg }, _) => Number::Infinite { neg },
            (_, Number::Infinite { neg }) => Number::Infinite { neg },
            (
                Number::Finite { neg: na, mant: ma, scale: sa },
                Number::Finite { neg: nb, mant: mb, scale: sb },
            ) => {
                let au = grid_units(ma, sa);
                let bu = grid_units(mb, sb);
                if na == nb {
                    let g = au + bu;
                    norm(if g == 0 { false } else { na }, g, MAX_SCALE)
                } else if au >= bu {
                    norm(if au == bu { false } else { na }, au - bu, MAX_SCALE)
                } else {
                    norm(nb, bu - au, MAX_SCALE)
                }
            },
        }
    }

    /// Exact difference: the sum with the negated second operand.
    pub open spec fn spec_minus(self, other: Number) -> Number {
        self.spec_plus(other.spec_negated())
    }

    pub fn minus(self, other: Number) -> (r: Number)
        requires
            self.wf(),
            other.wf(),
        ensures
            r == self.spec_minus(other),
            r.wf(),
    {
        self.plus(other.negated())
    }

    /// Product, truncated toward zero at `MAX_SCALE` fractional digits. An
    /// infinity times zero gives `NaN`; the sign of a zero or infinite
    /// result is the exclusive or of the operand signs.
    pub open spec fn spec_times(self, other: Number) -> Number {
        let sign = self.sign_neg() != other.sign_neg();
        if self is NaN || other is NaN {
            Number::NaN
        } else if self is Infinite || other is Infinite {
            if self.is_zero() || other.is_zero() {
                Number::NaN
            } else {
                Number::Infinite { neg: sign }
            }
        } else {
            norm_spec(sign, (self.abs_units() * other.abs_units()) / pow10(MAX_SCALE as nat), MAX_SCALE as nat)
        }
    }

    pub fn times(self, other: Number) -> (r: Number)
        requires
            self.wf(),
            other.wf(),
        ensures
            r == self.spec_times(other),
            r.wf(),
    {
        match (self, other) {
            (Number::NaN, _) => Number::NaN,
            (_, Number::NaN) => Number::NaN,
            (Number::Infinite { neg: n1 }, Number::Infinite { neg: n2 }) => Number::Infinite {
                neg: n1 != n2,
            },
            (Number::Infinite { neg: n1 }, Number::Finite { neg: n2, mant, .. }) => {
                if mant == 0 {
                    Number::NaN
                } else {
                    Number::Infinite { neg: n1 != n2 }
                }
            },
            (Number::Finite { neg: n1, mant, .. }, Number::Infinite { neg: n2 }) => {
                if mant == 0 {
                    Number::NaN
                } else {
                    Number::Infinite { neg: n1 != n2 }
                }
            },
            (
                Number::Finite { neg: na, mant: ma, scale: sa },
                Number::Finite { neg: nb, mant: mb, scale: sb },
            ) => {
                proof {
                    assert((ma as nat) * (mb as nat) <= 9_999_999_999_999_999 * 9_999_999_999_999_999)
                        by (nonlinear_arith)
                        requires
                            ma <= 9_999_999_999_999_999,
                            mb <= 9_999_999_999_999_999,
                    ;
                    lemma_times_grid(ma as nat, sa as nat, mb as nat, sb as nat);
                }
                let p: u128 = (ma as u128) * (mb as u128);
                let ssum: u8 = sa + sb;
                if ssum <= MAX_SCALE {
                    proof {
                        lemma_strip_pad(p as nat, ssum as nat, (MAX_SCALE - ssum) as nat);
                    }
                    norm(na != nb, p, ssum)
                } else {
                    proof {
                        lemma_pow10_pos((ssum - MAX_SCALE) as nat);
                    }
                    let q = p / (pow10_u64(ssum - MAX_SCALE) as u128);
                    norm(na != nb, q, MAX_SCALE)
                }
            },
        }
    }

    /// Quotient, truncated toward zero at `MAX_SCALE` fractional digits.
    /// Division of a nonzero value by zero gives a signed infinity, of zero
    /// by zero `NaN`; a finite value divided by an infinity gives a signed
    /// zero.
    pub open spec fn spec_div(self, other: Number) -> Number {
        let sign = self.sign_neg() != other.sign_neg();
        if self is NaN || other is NaN {
            Number::NaN
        } else if self is Infinite && other is Infinite {
            Number::NaN
        } else if self is Infinite {
            Number::Infinite { neg: sign }
        } else if other is Infinite {
            Number::Finite { neg: sign, mant: 0, scale: 0 }
        } else if other.is_zero() {
            if self.is_zero() {
                Number::NaN
            } else {
                Number::Infinite { neg: sign }
            }
        } else {
            norm_spec(sign, (self.abs_units() * pow10(MAX_SCALE as nat)) / other.abs_units(), MAX_SCALE as nat)
        }
    }

    pub fn div_by(self, other: Number) -> (r: Number)
        requires
            self.wf(),
            other.wf(),
        ensures
            r == self.spec_div(other),
            r.wf(),
    {
        match (self, other) {
            (Number::NaN, _) => Number::NaN,
            (_, Number::NaN) => Number::NaN,
            (Number::Infinite { .. }, Number::Infinite { .. }) => Number::NaN,
            (Number::Infinite { neg: n1 }, Number::Finite { neg: n2, .. }) => Number::Infinite {
                neg: n1 != n2,
            },
            (Number::Finite { neg: n1, .. }, Number::Infinite { neg: n2 }) => Number::Finite {
                neg: n1 != n2,
                mant: 0,
                scale: 0,
            },
            (
                Number::Finite { neg: na, mant: ma, scale: sa },
                Number::Finite { neg: nb, mant: mb, scale: sb },
            ) => {
                if mb == 0 {
                    if ma == 0 {
                        Number::NaN
                    } else {
                        Number::Infinite { neg: na != nb }
                    }
                } else {
                    let pw = pow10_u64(MAX_SCALE - sa + sb);
                    proof {
                        lemma_pow10_18();
                        lemma_pow10_mono((MAX_SCALE - sa + sb) as nat, 18);
                        assert(ma as nat * pow10((MAX_SCALE - sa + sb) as nat)
                            <= 9_999_999_999_999_999 * 1_000_000_000_000_000_000) by (nonlinear_arith)
                            requires
                                ma <= 9_999_999_999_999_999,
                                pow10((MAX_SCALE - sa + sb) as nat) <= 1_000_000_000_000_000_000,
                        ;
                        lemma_div_grid(ma as nat, sa as nat, mb as nat, sb as nat);
                    }
                    let num: u128 = (ma as u128) * (pw as u128);
                    let q = num / (mb as u128);
                    norm(na != nb, q, MAX_SCALE)
                }
            },
        }
    }

    /// Square root, truncated toward zero at `MAX_SCALE` fractional digits.
    /// The root of a negative value is `NaN`; the root of a signed zero is
    /// that zero; the root of positive infinity is positive infinity.
    pub open spec fn spec_sqrt(self) -> Number {
        match self {
            Number::NaN => Number::NaN,
            Number::Infinite { neg } => if neg {
                Number::NaN
            } else {
                self
            },
            Number::Finite { neg, mant, scale } => {
                if mant == 0 {
                    self
                } else if neg {
                    Number::NaN
                } else {
                    norm_spec(
                        false,
                        isqrt_spec(self.abs_units() * pow10(MAX_SCALE as nat)),
                        MAX_SCALE as nat,
                    )
                }
            },
        }
    }

    pub fn square_root(self) -> (r: Number)
        requires
            self.wf(),
        ensures
            r == self.spec_sqrt(),
            r.wf(),
    {
        match self {
            Number::NaN => Number::NaN,
            Number::Infinite { neg } => {
                if neg {
                    Number::NaN
                } else {
                    self
                }
            },
            Number::Finite { neg, mant, scale } => {
                if mant == 0 {
                    self
                } else if neg {
                    Number::NaN
                } else {
                    let pw = pow10_u64(18 - scale);
                    proof {
                        lemma_pow10_18();
                        lemma_pow10_mono((18 - scale) as nat, 18);
                        assert(mant as nat * pow10((18 - scale) as nat)
                            <= 9_999_999_999_999_999 * 1_000_000_000_000_000_000) by (nonlinear_arith)
                            requires
                                mant <= 9_999_999_999_999_999,
                                pow10((18 - scale) as nat) <= 1_000_000_000_000_000_000,
                        ;
                        lemma_pow10_adds((9 - scale) as nat, 9);
                        assert((mant * pow10((9 - scale) as nat)) * pow10(9) == mant * pow10((18
                            - scale) as nat)) by (nonlinear_arith)
                            requires
                                pow10((9 - scale) as nat) * pow10(9) == pow10((18 - scale) as nat),
                        ;
                    }
                    let n: u128 = (mant as u128) * (pw as u128);
                    let g = isqrt(n);
                    norm(false, g, MAX_SCALE)
                }
            },
        }
    }
}

} // verus!
