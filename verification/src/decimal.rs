//! Fixed-point decimal numbers as `rust_decimal` represents them: a signed
//! 96-bit mantissa and a decimal scale of at most 28 digits.
//!
//! The arithmetic itself is done by `rust_decimal`; this module holds the
//! plain values, the exact value order, and the trusted calls.
use rust_decimal::Decimal;
use vstd::prelude::*;

verus! {

/// Largest magnitude of a mantissa: 2^96 - 1.
pub const MAX_MANTISSA: i128 = 79228162514264337593543950335i128;

/// Largest scale a decimal may carry.
pub const MAX_SCALE: u32 = 28u32;

/// 10 to the power `n`.
pub open spec fn pow10(n: nat) -> int
    decreases n,
{
    if n == 0 {
        1
    } else {
        10 * pow10((n - 1) as nat)
    }
}

/// A decimal number `mantissa / 10^scale`.
#[derive(Clone, Copy, Debug)]
pub struct Dec {
    m: i128,
    s: u32,
}

/// What `rust_decimal`'s checked addition returns for the operands
/// `(am, ascale)` and `(bm, bscale)`, as a mantissa and a scale.
pub uninterp spec fn decimal_checked_add(am: int, ascale: nat, bm: int, bscale: nat) -> Option<(int, nat)>;

/// What `rust_decimal`'s checked subtraction returns.
pub uninterp spec fn decimal_checked_sub(am: int, ascale: nat, bm: int, bscale: nat) -> Option<(int, nat)>;

/// What `rust_decimal`'s checked multiplication returns.
pub uninterp spec fn decimal_checked_mul(am: int, ascale: nat, bm: int, bscale: nat) -> Option<(int, nat)>;

/// What `rust_decimal`'s checked division returns.
pub uninterp spec fn decimal_checked_div(am: int, ascale: nat, bm: int, bscale: nat) -> Option<(int, nat)>;

/// What `rust_decimal`'s `FromStr` parser returns for a string.
pub uninterp spec fn decimal_parse(text: Seq<char>) -> Option<(int, nat)>;

impl Dec {
    #[verifier::type_invariant]
    spec fn inv(self) -> bool {
        &&& self.s <= MAX_SCALE
        &&& -MAX_MANTISSA <= self.m <= MAX_MANTISSA
    }

    /// The mantissa.
    pub closed spec fn mant(self) -> int {
        self.m as int
    }

    /// The scale: the number of decimal digits after the point.
    pub closed spec fn scl(self) -> nat {
        self.s as nat
    }

    /// The decimal with the given mantissa and scale.
    pub closed spec fn build(m: int, s: nat) -> Dec {
        Dec { m: m as i128, s: s as u32 }
    }

    /// A mantissa and scale pair as a decimal, if there is one.
    pub open spec fn lift(r: Option<(int, nat)>) -> Option<Dec> {
        match r {
            Some((m, s)) => Some(Dec::build(m, s)),
            None => None,
        }
    }

    /// Whether `m` and `s` make a representable decimal.
    pub open spec fn representable(m: int, s: nat) -> bool {
        &&& s <= MAX_SCALE
        &&& -MAX_MANTISSA <= m <= MAX_MANTISSA
    }

    /// Building a representable pair keeps its parts.
    pub proof fn lemma_build(m: int, s: nat)
        requires
            Dec::representable(m, s),
        ensures
            Dec::build(m, s).mant() == m,
            Dec::build(m, s).scl() == s,
    {
    }

    /// The decimal `m / 10^s`, if `m` fits in 96 bits and `s` is at most 28.
    pub fn new(m: i128, s: u32) -> (r: Option<Dec>)
        ensures
            r is Some <==> Dec::representable(m as int, s as nat),
            r matches Some(d) ==> d.mant() == m && d.scl() == s && d == Dec::build(m as int, s as nat),
    {
        if s <= MAX_SCALE && -MAX_MANTISSA <= m && m <= MAX_MANTISSA {
            Some(Dec { m, s })
        } else {
            None
        }
    }

    /// Zero, with scale zero.
    pub fn zero() -> (r: Dec)
        ensures
            r == Dec::build(0, 0),
            r.mant() == 0,
            r.scl() == 0,
    {
        Dec { m: 0, s: 0 }
    }

    /// One, with scale zero.
    pub fn one() -> (r: Dec)
        ensures
            r == Dec::build(1, 0),
            r.mant() == 1,
            r.scl() == 0,
    {
        Dec { m: 1, s: 0 }
    }

    /// Two, with scale zero.
    pub fn two() -> (r: Dec)
        ensures
            r == Dec::build(2, 0),
            r.mant() == 2,
            r.scl() == 0,
    {
        Dec { m: 2, s: 0 }
    }

    /// The mantissa.
    pub fn mantissa(&self) -> (r: i128)
        ensures
            r == self.mant(),
            Dec::representable(self.mant(), self.scl()),
    {
        proof {
            use_type_invariant(self);
        }
        self.m
    }

    /// The scale.
    pub fn scale(&self) -> (r: u32)
        ensures
            r == self.scl(),
    {
        self.s
    }

    /// The negation: the mantissa with its sign flipped, as `Neg` does.
    pub fn neg(&self) -> (r: Dec)
        ensures
            r == Dec::build(-self.mant(), self.scl()),
            r.mant() == -self.mant(),
            r.scl() == self.scl(),
    {
        proof {
            use_type_invariant(self);
        }
        Dec { m: -self.m, s: self.s }
    }

    /// Whether the value is zero.
    pub fn is_zero(&self) -> (r: bool)
        ensures
            r == (self.mant() == 0),
    {
        self.m == 0
    }

    /// Parses a decimal as `rust_decimal`'s `FromStr` does.
    pub fn parse(text: &str) -> (r: Option<Dec>)
        ensures
            r == Dec::lift(decimal_parse(text@)),
    {
        decimal_from_str(text)
    }
}

/// The value `a` is below the value `b`; scales are aligned exactly.
pub open spec fn value_lt(a: Dec, b: Dec) -> bool {
    a.mant() * pow10(b.scl()) < b.mant() * pow10(a.scl())
}

/// The values of `a` and `b` are equal.
pub open spec fn value_eq(a: Dec, b: Dec) -> bool {
    a.mant() * pow10(b.scl()) == b.mant() * pow10(a.scl())
}

/// The value `a` is at most the value `b`.
pub open spec fn value_le(a: Dec, b: Dec) -> bool {
    a.mant() * pow10(b.scl()) <= b.mant() * pow10(a.scl())
}

/// The value is above zero.
pub open spec fn is_pos(a: Dec) -> bool {
    a.mant() > 0
}

/// The value is below zero.
pub open spec fn is_neg(a: Dec) -> bool {
    a.mant() < 0
}

/// The smaller of two values; on a tie the first, as `Ord::min` does.
pub open spec fn min_spec(a: Dec, b: Dec) -> Dec {
    if value_lt(b, a) {
        b
    } else {
        a
    }
}

/// Checked `a + b` as `rust_decimal` computes it.
pub open spec fn add_spec(a: Dec, b: Dec) -> Option<Dec> {
    Dec::lift(decimal_checked_add(a.mant(), a.scl(), b.mant(), b.scl()))
}

/// Checked `a - b` as `rust_decimal` computes it.
pub open spec fn sub_spec(a: Dec, b: Dec) -> Option<Dec> {
    Dec::lift(decimal_checked_sub(a.mant(), a.scl(), b.mant(), b.scl()))
}

/// Checked `a * b` as `rust_decimal` computes it.
pub open spec fn mul_spec(a: Dec, b: Dec) -> Option<Dec> {
    Dec::lift(decimal_checked_mul(a.mant(), a.scl(), b.mant(), b.scl()))
}

/// Checked `a / b` as `rust_decimal` computes it.
pub open spec fn div_spec(a: Dec, b: Dec) -> Option<Dec> {
    Dec::lift(decimal_checked_div(a.mant(), a.scl(), b.mant(), b.scl()))
}

/// `10^n` is positive.
pub proof fn lemma_pow10_pos(n: nat)
    ensures
        pow10(n) > 0,
    decreases n,
{
    if n > 0 {
        lemma_pow10_pos((n - 1) as nat);
    }
}

/// `10^(a + b) == 10^a * 10^b`.
pub proof fn lemma_pow10_add(a: nat, b: nat)
    ensures
        pow10(a + b) == pow10(a) * pow10(b),
    decreases b,
{
    if b > 0 {
        lemma_pow10_add(a, (b - 1) as nat);
        let p = pow10(a);
        let q = pow10((b - 1) as nat);
        assert(pow10(a + b) == 10 * pow10((a + b - 1) as nat));
        assert(10 * (p * q) == p * (10 * q)) by (nonlinear_arith);
    }
}

/// The mantissa of `a` written at scale `s`, for `s` at least `a`'s scale.
pub open spec fn at_scale(a: Dec, s: nat) -> int {
    a.mant() * pow10((s - a.scl()) as nat)
}

/// `a` written at scale `s` is a representable decimal.
pub open spec fn fits_at(a: Dec, s: nat) -> bool {
    &&& a.scl() <= s
    &&& Dec::representable(at_scale(a, s), s)
}

/// The larger of the two operands' scales, at which `rust_decimal` adds.
pub open spec fn common_scale(a: Dec, b: Dec) -> nat {
    if a.scl() >= b.scl() {
        a.scl()
    } else {
        b.scl()
    }
}

/// The value of `a` counted in units of `10^-28`.
pub open spec fn units(a: Dec) -> int {
    at_scale(a, MAX_SCALE as nat)
}

/// Writing `a` at scale `s` goes through any scale between.
pub proof fn lemma_at_scale_lift(a: Dec, mid: nat, s: nat)
    requires
        a.scl() <= mid <= s,
    ensures
        at_scale(a, s) == at_scale(a, mid) * pow10((s - mid) as nat),
{
    lemma_pow10_add((mid - a.scl()) as nat, (s - mid) as nat);
    assert(((mid - a.scl()) as nat + (s - mid) as nat) as nat == (s - a.scl()) as nat);
    let m = a.mant();
    let p = pow10((mid - a.scl()) as nat);
    let q = pow10((s - mid) as nat);
    assert(m * (p * q) == (m * p) * q) by (nonlinear_arith);
}

/// Subtracting a smaller positive decimal `b` from a positive `a`, both
/// fitting when written at scale `s`: at their common scale both fit and so
/// does the difference, and the difference there is positive, fits at `s`,
/// and is worth `a` less `b`.
pub proof fn lemma_sub_step(a: Dec, b: Dec, s: nat)
    requires
        is_pos(a),
        is_pos(b),
        fits_at(a, s),
        fits_at(b, s),
        value_lt(b, a),
    ensures
        ({
            let c = common_scale(a, b);
            let x = at_scale(a, c);
            let y = at_scale(b, c);
            let d = Dec::build(x - y, c);
            &&& fits_at(a, c)
            &&& fits_at(b, c)
            &&& Dec::representable(x - y, c)
            &&& d.mant() == x - y
            &&& d.scl() == c
            &&& is_pos(d)
            &&& fits_at(d, s)
            &&& units(d) == units(a) - units(b)
        }),
{
    let c = common_scale(a, b);
    let x = at_scale(a, c);
    let y = at_scale(b, c);
    let (sa, sb) = (a.scl(), b.scl());
    let (am, bm) = (a.mant(), b.mant());
    lemma_pow10_pos((c - sa) as nat);
    lemma_pow10_pos((c - sb) as nat);
    lemma_pow10_pos((s - c) as nat);
    lemma_pow10_pos(sa);
    lemma_pow10_pos(sb);
    lemma_pow10_pos(c);
    let qa = pow10((c - sa) as nat);
    let qb = pow10((c - sb) as nat);
    let pa = pow10(sa);
    let pb = pow10(sb);
    let pc = pow10(c);
    let p = pow10((s - c) as nat);
    lemma_pow10_add((c - sa) as nat, sa);
    lemma_pow10_add((c - sb) as nat, sb);
    assert(((c - sa) as nat + sa) as nat == c);
    assert(((c - sb) as nat + sb) as nat == c);
    assert(qa * pa == pc);
    assert(qb * pb == pc);
    // Positive parts.
    assert(x == am * qa);
    assert(y == bm * qb);
    assert(x > 0) by (nonlinear_arith)
        requires
            x == am * qa,
            am > 0,
            qa > 0,
    ;
    assert(y > 0) by (nonlinear_arith)
        requires
            y == bm * qb,
            bm > 0,
            qb > 0,
    ;
    // The order carries over to the common scale.
    assert(bm * pa < am * pb);
    assert((bm * pa) * (qa * qb) < (am * pb) * (qa * qb)) by (nonlinear_arith)
        requires
            bm * pa < am * pb,
            qa > 0,
            qb > 0,
    ;
    assert((bm * pa) * (qa * qb) == (bm * qb) * (qa * pa)) by (nonlinear_arith);
    assert((am * pb) * (qa * qb) == (am * qa) * (qb * pb)) by (nonlinear_arith);
    assert(y < x) by (nonlinear_arith)
        requires
            y * pc < x * pc,
            pc > 0,
    ;
    // Writing at `s` multiplies by `p`.
    lemma_at_scale_lift(a, c, s);
    lemma_at_scale_lift(b, c, s);
    assert(x <= x * p) by (nonlinear_arith)
        requires
            x > 0,
            p > 0,
    ;
    assert(y <= y * p) by (nonlinear_arith)
        requires
            y > 0,
            p > 0,
    ;
    assert((x - y) * p == x * p - y * p) by (nonlinear_arith);
    Dec::lemma_build(x - y, c);
    let d = Dec::build(x - y, c);
    assert(at_scale(d, s) == (x - y) * p);
    // Units.
    lemma_at_scale_lift(a, c, MAX_SCALE as nat);
    lemma_at_scale_lift(b, c, MAX_SCALE as nat);
    let u = pow10((MAX_SCALE - c) as nat);
    assert(units(d) == (x - y) * u);
    assert((x - y) * u == x * u - y * u) by (nonlinear_arith);
}

/// The value order is transitive across scales.
pub proof fn lemma_value_order_trans(a: Dec, b: Dec, c: Dec)
    ensures
        value_le(a, b) && value_le(b, c) ==> value_le(a, c),
        value_lt(a, b) && value_le(b, c) ==> value_lt(a, c),
        value_le(a, b) && value_lt(b, c) ==> value_lt(a, c),
        value_lt(a, b) ==> !value_le(b, a),
        !value_lt(a, b) ==> value_le(b, a),
{
    lemma_pow10_pos(a.scl());
    lemma_pow10_pos(b.scl());
    lemma_pow10_pos(c.scl());
    let pa = pow10(a.scl());
    let pb = pow10(b.scl());
    let pc = pow10(c.scl());
    let (am, bm, cm) = (a.mant(), b.mant(), c.mant());
    assert(am * pb <= bm * pa && bm * pc <= cm * pb ==> am * pc <= cm * pa) by (nonlinear_arith)
        requires
            pa > 0,
            pb > 0,
            pc > 0,
    ;
    assert(am * pb < bm * pa && bm * pc <= cm * pb ==> am * pc < cm * pa) by (nonlinear_arith)
        requires
            pa > 0,
            pb > 0,
            pc > 0,
    ;
    assert(am * pb <= bm * pa && bm * pc < cm * pb ==> am * pc < cm * pa) by (nonlinear_arith)
        requires
            pa > 0,
            pb > 0,
            pc > 0,
    ;
}

/// Checked addition through `rust_decimal`, as `add_impl` does it. A zero
/// first operand gives the second, and otherwise a zero second operand the
/// first. Otherwise the operand of the smaller scale is written at the larger
/// scale; when both then fit in 96 bits and so does their sum, the sum is
/// exact at that scale (every path of `add_impl`, and `unaligned_add`,
/// rounds only when the result would not fit). Operands of one scale whose
/// mantissa sum fits are the case where nothing is rewritten.
#[verifier::external_body]
pub(crate) fn decimal_add(a: &Dec, b: &Dec) -> (r: Option<Dec>)
    ensures
        r == Dec::lift(decimal_checked_add(a.mant(), a.scl(), b.mant(), b.scl())),
        a.scl() == b.scl() && Dec::representable(a.mant() + b.mant(), a.scl()) ==> r == Some(
            Dec::build(a.mant() + b.mant(), a.scl()),
        ),
        a.mant() == 0 ==> r == Some(*b),
        a.mant() != 0 && b.mant() == 0 ==> r == Some(*a),
        ({
            let c = common_scale(*a, *b);
            a.mant() != 0 && b.mant() != 0 && fits_at(*a, c) && fits_at(*b, c) && Dec::representable(
                at_scale(*a, c) + at_scale(*b, c),
                c,
            ) ==> r == Some(Dec::build(at_scale(*a, c) + at_scale(*b, c), c))
        }),
{
    let x = Decimal::from_i128_with_scale(a.m, a.s);
    let y = Decimal::from_i128_with_scale(b.m, b.s);
    match x.checked_add(y) {
        Some(d) => Some(Dec { m: d.mantissa(), s: d.scale() }),
        None => None,
    }
}

/// Checked subtraction through `rust_decimal` (`sub_impl`, the same paths
/// as addition). A zero first operand gives the second negated, and
/// otherwise a zero second operand the first. Otherwise, when both operands
/// written at the larger scale fit in 96 bits and so does their difference,
/// the difference is exact at that scale.
#[verifier::external_body]
pub(crate) fn decimal_sub(a: &Dec, b: &Dec) -> (r: Option<Dec>)
    ensures
        r == Dec::lift(decimal_checked_sub(a.mant(), a.scl(), b.mant(), b.scl())),
        a.scl() == b.scl() && Dec::representable(a.mant() - b.mant(), a.scl()) ==> r == Some(
            Dec::build(a.mant() - b.mant(), a.scl()),
        ),
        a.mant() == 0 ==> r == Some(Dec::build(-b.mant(), b.scl())),
        a.mant() != 0 && b.mant() == 0 ==> r == Some(*a),
        ({
            let c = common_scale(*a, *b);
            a.mant() != 0 && b.mant() != 0 && fits_at(*a, c) && fits_at(*b, c) && Dec::representable(
                at_scale(*a, c) - at_scale(*b, c),
                c,
            ) ==> r == Some(Dec::build(at_scale(*a, c) - at_scale(*b, c), c))
        }),
{
    let x = Decimal::from_i128_with_scale(a.m, a.s);
    let y = Decimal::from_i128_with_scale(b.m, b.s);
    match x.checked_sub(y) {
        Some(d) => Some(Dec { m: d.mantissa(), s: d.scale() }),
        None => None,
    }
}

/// Checked multiplication through `rust_decimal`. `mul_impl` returns zero
/// (scale 0) when an operand is zero; otherwise, when the product of the
/// mantissas fits in 96 bits and the sum of the scales is at most 28, the
/// product is exact at that scale.
#[verifier::external_body]
pub(crate) fn decimal_mul(a: &Dec, b: &Dec) -> (r: Option<Dec>)
    ensures
        r == Dec::lift(decimal_checked_mul(a.mant(), a.scl(), b.mant(), b.scl())),
        a.mant() == 0 || b.mant() == 0 ==> r == Some(Dec::build(0, 0)),
        a.mant() != 0 && b.mant() != 0 && Dec::representable(a.mant() * b.mant(), a.scl() + b.scl()) ==> r == Some(
            Dec::build(a.mant() * b.mant(), a.scl() + b.scl()),
        ),
{
    let x = Decimal::from_i128_with_scale(a.m, a.s);
    let y = Decimal::from_i128_with_scale(b.m, b.s);
    match x.checked_mul(y) {
        Some(d) => Some(Dec { m: d.mantissa(), s: d.scale() }),
        None => None,
    }
}

/// Checked division through `rust_decimal`, which returns `None` when the
/// divisor is zero. `div_impl` returns zero for a zero dividend and
/// otherwise sets the quotient's sign from the operands' signs, so a
/// dividend of at most zero over a positive divisor gives a quotient of at
/// most zero. When the divisor's mantissa is below `2^32` in size and
/// divides the dividend's, and the dividend's scale is at least the
/// divisor's, the quotient is the quotient of the mantissas at the
/// difference of the scales (the 32-bit divisor path with no remainder).
/// Other quotients are only named.
#[verifier::external_body]
pub(crate) fn decimal_div(a: &Dec, b: &Dec) -> (r: Option<Dec>)
    ensures
        r == Dec::lift(decimal_checked_div(a.mant(), a.scl(), b.mant(), b.scl())),
        b.mant() == 0 ==> r is None,
        a.mant() <= 0 && b.mant() > 0 ==> (r matches Some(q) ==> q.mant() <= 0),
        a.mant() != 0 && b.mant() != 0 && -4294967296 < b.mant() < 4294967296 && a.mant() % b.mant() == 0
            && a.scl() >= b.scl() ==> r == Some(Dec::build(a.mant() / b.mant(), (a.scl() - b.scl()) as nat)),
{
    let x = Decimal::from_i128_with_scale(a.m, a.s);
    let y = Decimal::from_i128_with_scale(b.m, b.s);
    match x.checked_div(y) {
        Some(d) => Some(Dec { m: d.mantissa(), s: d.scale() }),
        None => None,
    }
}

/// `Decimal::from_str`; the parsed value is only named.
#[verifier::external_body]
fn decimal_from_str(text: &str) -> (r: Option<Dec>)
    ensures
        r == Dec::lift(decimal_parse(text@)),
{
    match <Decimal as std::str::FromStr>::from_str(text) {
        Ok(d) => Some(Dec { m: d.mantissa(), s: d.scale() }),
        Err(_) => None,
    }
}

/// `Decimal::cmp`, which compares values exactly: the operands' scales are
/// aligned before the mantissas are compared (`cmp_impl`).
#[verifier::external_body]
pub(crate) fn decimal_compare(a: &Dec, b: &Dec) -> (r: i8)
    ensures
        r == (if value_lt(*a, *b) {
            -1i8
        } else if value_lt(*b, *a) {
            1i8
        } else {
            0i8
        }),
{
    let x = Decimal::from_i128_with_scale(a.m, a.s);
    let y = Decimal::from_i128_with_scale(b.m, b.s);
    match x.cmp(&y) {
        core::cmp::Ordering::Less => -1,
        core::cmp::Ordering::Equal => 0,
        core::cmp::Ordering::Greater => 1,
    }
}

impl Dec {
    /// `self < other` by value.
    pub fn lt(&self, other: &Dec) -> (r: bool)
        ensures
            r == value_lt(*self, *other),
    {
        decimal_compare(self, other) == -1
    }

    /// `self <= other` by value.
    pub fn le(&self, other: &Dec) -> (r: bool)
        ensures
            r == value_le(*self, *other),
    {
        decimal_compare(self, other) != 1
    }

    /// `self == other` by value.
    pub fn eq_value(&self, other: &Dec) -> (r: bool)
        ensures
            r == value_eq(*self, *other),
    {
        decimal_compare(self, other) == 0
    }

    /// `self > 0`.
    pub fn is_positive(&self) -> (r: bool)
        ensures
            r == is_pos(*self),
    {
        0 < self.m
    }

    /// The smaller value; the first on a tie, as `Ord::min` does.
    pub fn min(self, other: Dec) -> (r: Dec)
        ensures
            r == min_spec(self, other),
    {
        if decimal_compare(&other, &self) == -1 {
            other
        } else {
            self
        }
    }

    /// Checked addition.
    pub fn checked_add(&self, other: &Dec) -> (r: Option<Dec>)
        ensures
            r == add_spec(*self, *other),
            self.scl() == other.scl() && Dec::representable(self.mant() + other.mant(), self.scl())
                ==> r == Some(Dec::build(self.mant() + other.mant(), self.scl())),
            self.mant() == 0 ==> r == Some(*other),
            self.mant() != 0 && other.mant() == 0 ==> r == Some(*self),
            ({
                let c = common_scale(*self, *other);
                self.mant() != 0 && other.mant() != 0 && fits_at(*self, c) && fits_at(*other, c)
                    && Dec::representable(at_scale(*self, c) + at_scale(*other, c), c) ==> r == Some(
                    Dec::build(at_scale(*self, c) + at_scale(*other, c), c),
                )
            }),
    {
        decimal_add(self, other)
    }

    /// Checked subtraction.
    pub fn checked_sub(&self, other: &Dec) -> (r: Option<Dec>)
        ensures
            r == sub_spec(*self, *other),
            self.scl() == other.scl() && Dec::representable(self.mant() - other.mant(), self.scl())
                ==> r == Some(Dec::build(self.mant() - other.mant(), self.scl())),
            self.mant() == 0 ==> r == Some(Dec::build(-other.mant(), other.scl())),
            self.mant() != 0 && other.mant() == 0 ==> r == Some(*self),
            ({
                let c = common_scale(*self, *other);
                self.mant() != 0 && other.mant() != 0 && fits_at(*self, c) && fits_at(*other, c)
                    && Dec::representable(at_scale(*self, c) - at_scale(*other, c), c) ==> r == Some(
                    Dec::build(at_scale(*self, c) - at_scale(*other, c), c),
                )
            }),
            Dec::representable(self.mant(), self.scl()),
            Dec::representable(other.mant(), other.scl()),
    {
        proof {
            use_type_invariant(self);
            use_type_invariant(other);
        }
        decimal_sub(self, other)
    }

    /// Checked multiplication; zero (scale 0) when an operand is zero, and
    /// otherwise exact when the product of the mantissas fits at the sum of
    /// the scales.
    pub fn checked_mul(&self, other: &Dec) -> (r: Option<Dec>)
        ensures
            r == mul_spec(*self, *other),
            self.mant() == 0 || other.mant() == 0 ==> r == Some(Dec::build(0, 0)),
            self.mant() != 0 && other.mant() != 0 && Dec::representable(
                self.mant() * other.mant(),
                self.scl() + other.scl(),
            ) ==> r == Some(
                Dec::build(self.mant() * other.mant(), self.scl() + other.scl()),
            ),
    {
        decimal_mul(self, other)
    }

    /// Checked division; `None` when `other` is zero. A dividend of at most
    /// zero over a positive divisor gives a quotient of at most zero.
    pub fn checked_div(&self, other: &Dec) -> (r: Option<Dec>)
        ensures
            r == div_spec(*self, *other),
            other.mant() == 0 ==> r is None,
            self.mant() <= 0 && other.mant() > 0 ==> (r matches Some(q) ==> q.mant() <= 0),
            self.mant() != 0 && other.mant() != 0 && -4294967296 < other.mant() < 4294967296
                && self.mant() % other.mant() == 0 && self.scl() >= other.scl() ==> r == Some(
                Dec::build(self.mant() / other.mant(), (self.scl() - other.scl()) as nat),
            ),
    {
        decimal_div(self, other)
    }
}

} // verus!
