//! Fixed-point decimal amounts.
//!
//! An [`Amount`] holds the two plain values that make up a `rust_decimal::Decimal`:
//! a signed 96-bit mantissa and a decimal scale of at most 28. Its mathematical
//! value is `mantissa * 10^-scale`; specifications speak of it in units of
//! `10^-28`, so every amount has an integer value (see [`Amount::value`]).
//! The arithmetic itself is done by `rust_decimal`.
use rust_decimal::Decimal;
use vstd::prelude::*;

verus! {

/// Largest scale a decimal may carry.
pub const MAX_SCALE: u32 = 28;

/// `10^n`.
pub open spec fn pow10(n: nat) -> int
    decreases n,
{
    if n == 0 {
        1
    } else {
        10 * pow10((n - 1) as nat)
    }
}

/// Exclusive bound of the mantissa magnitude: `2^96`.
pub open spec fn mantissa_bound() -> int {
    0x1_0000_0000_0000_0000_0000_0000
}

/// `10^28`: one whole unit, in the `10^-28` units of [`Amount::value`].
pub open spec fn one() -> int {
    10_000_000_000_000_000_000_000_000_000
}

/// Largest magnitude, in units of `10^-28`, that a result may have without the
/// decimal arithmetic overflowing: `(2^96 - 1) * 10^28`.
pub open spec fn max_value() -> int {
    (mantissa_bound() - 1) * one()
}

/// A decimal number held as its mantissa and scale.
#[derive(Clone, Copy, Debug)]
pub struct Amount {
    pub(crate) mantissa: i128,
    pub(crate) scale: u32,
}

impl Amount {
    /// The representation is one that `rust_decimal` can hold.
    #[verifier::type_invariant]
    pub(crate) open spec fn inv(self) -> bool {
        self.wf()
    }

    /// The representation is one that `rust_decimal` can hold.
    pub open(crate) spec fn wf(self) -> bool {
        &&& -mantissa_bound() < self.mantissa < mantissa_bound()
        &&& self.scale <= 28
    }

    /// The amount `num * 10^-scale`, as `Decimal::new` builds it.
    pub fn new(num: i64, scale: u32) -> (r: Amount)
        requires
            scale <= 28,
        ensures
            r.mantissa_spec() == num,
            r.decimals() == scale,
            r.value() == num * pow10((28 - scale) as nat),
    {
        decimal_new(num, scale)
    }

    /// The amount `num * 10^-scale` for a mantissa below `2^96` in magnitude and a
    /// scale of at most 28, as `Decimal::from_i128_with_scale` builds it.
    pub fn from_i128_with_scale(num: i128, scale: u32) -> (r: Amount)
        requires
            -mantissa_bound() < num < mantissa_bound(),
            scale <= 28,
        ensures
            r.mantissa_spec() == num,
            r.decimals() == scale,
    {
        Amount { mantissa: num, scale }
    }

    /// Zero, with scale 0.
    pub fn zero() -> (r: Amount)
        ensures
            r == Amount::integer(0),
            r.value() == 0,
            r.decimals() == 0,
            r.wf(),
    {
        Amount { mantissa: 0, scale: 0 }
    }

    /// The integer `v` as an amount of scale 0.
    pub open(crate) spec fn integer(v: int) -> Amount {
        Amount { mantissa: v as i128, scale: 0 }
    }

    /// The same magnitude with the opposite sign.
    pub open(crate) spec fn negate(self) -> Amount {
        Amount { mantissa: -self.mantissa as i128, scale: self.scale }
    }

    /// The number of decimals (the scale).
    pub open(crate) spec fn decimals(self) -> nat {
        self.scale as nat
    }

    pub open(crate) spec fn mantissa_spec(&self) -> int {
        self.mantissa as int
    }

    /// The mantissa: the value is `mantissa * 10^-scale`.
    pub fn mantissa(&self) -> (r: i128)
        ensures
            r == self.mantissa_spec(),
    {
        self.mantissa
    }

    /// The scale: the number of decimals.
    pub fn scale(&self) -> (r: u32)
        ensures
            r == self.decimals(),
    {
        self.scale
    }

    /// The value, in units of `10^-28`.
    pub open(crate) spec fn value(self) -> int {
        self.mantissa * pow10((28 - self.scale) as nat)
    }
}


/// `10^28` is one whole unit.
pub proof fn lemma_pow10_28()
    ensures
        pow10(28) == one(),
{
    reveal_with_fuel(pow10, 29);
}

/// Powers of ten are positive.
pub proof fn lemma_pow10_positive(n: nat)
    ensures
        pow10(n) > 0,
    decreases n,
{
    if n > 0 {
        lemma_pow10_positive((n - 1) as nat);
    }
}

/// An integer amount is worth that many whole units.
pub proof fn lemma_integer_value(v: int)
    requires
        -mantissa_bound() < v < mantissa_bound(),
    ensures
        Amount::integer(v).value() == v * one(),
        Amount::integer(v).wf(),
{
    lemma_pow10_28();
}

/// Powers of ten grow with the exponent.
pub proof fn lemma_pow10_monotone(m: nat, n: nat)
    requires
        m <= n,
    ensures
        pow10(m) <= pow10(n),
    decreases n - m,
{
    if m < n {
        lemma_pow10_monotone(m, (n - 1) as nat);
        lemma_pow10_positive((n - 1) as nat);
    }
}

/// `10^m * 10^n == 10^(m + n)`.
pub proof fn lemma_pow10_add(m: nat, n: nat)
    ensures
        pow10(m) * pow10(n) == pow10(m + n),
    decreases m,
{
    if m > 0 {
        lemma_pow10_add((m - 1) as nat, n);
        assert(pow10(m) * pow10(n) == 10 * (pow10((m - 1) as nat) * pow10(n))) by (nonlinear_arith)
            requires
                pow10(m) == 10 * pow10((m - 1) as nat),
        ;
    }
}

/// A value has the sign of its mantissa and is at most the mantissa's magnitude
/// in whole units.
pub(crate) proof fn lemma_value_bounds(a: Amount, bound: int)
    requires
        a.wf(),
        -bound <= a.mantissa <= bound,
    ensures
        a.mantissa >= 0 <==> a.value() >= 0,
        -bound * one() <= a.value() <= bound * one(),
{
    let p = pow10((28 - a.scale) as nat);
    lemma_pow10_positive((28 - a.scale) as nat);
    lemma_pow10_monotone((28 - a.scale) as nat, 28);
    lemma_pow10_28();
    assert(a.mantissa >= 0 <==> a.mantissa * p >= 0) by (nonlinear_arith)
        requires
            p > 0,
    ;
    assert(-bound * one() <= a.mantissa * p <= bound * one()) by (nonlinear_arith)
        requires
            0 < p <= one(),
            -bound <= a.mantissa <= bound,
    ;
}

/// Half of the mantissa bound: `2^95`.
pub open spec fn half_bound() -> int {
    0x8000_0000_0000_0000_0000_0000
}

/// The mantissa is below `2^95` in magnitude.
pub open spec fn below_half(a: Amount) -> bool {
    -half_bound() < a.mantissa_spec() < half_bound()
}

/// `a + b` surely stays within range: the operands have opposite signs, or both
/// mantissas are below `2^95` in magnitude.
pub open spec fn sum_surely_in_range(a: Amount, b: Amount) -> bool {
    (a.mantissa_spec() >= 0) != (b.mantissa_spec() >= 0) || (below_half(a) && below_half(b))
}

/// `a - b` surely stays within range: the operands have the same sign, or both
/// mantissas are below `2^95` in magnitude.
pub open spec fn difference_surely_in_range(a: Amount, b: Amount) -> bool {
    (a.mantissa_spec() >= 0) == (b.mantissa_spec() >= 0) || (below_half(a) && below_half(b))
}

/// `a * p` surely stays within range: the whole part of `|a|`, times `p`, plus
/// `p`, is below `2^96`.
pub open spec fn product_surely_in_range(a: Amount, p: u64) -> bool {
    let m = if a.mantissa_spec() >= 0 { a.mantissa_spec() } else { -a.mantissa_spec() };
    (m / pow10(a.decimals())) * p + p <= mantissa_bound() - 1
}

/// Whether `a + b` surely stays within range: the operands have opposite signs,
/// or both mantissas are below `2^95` in magnitude.
pub(crate) fn sum_in_range(a: Amount, b: Amount) -> (r: bool)
    ensures
        r == sum_surely_in_range(a, b),
        r ==> within_range(a.value() + b.value()),
{
    proof {
        use_type_invariant(&a);
        use_type_invariant(&b);
        lemma_value_bounds(a, mantissa_bound() - 1);
        lemma_value_bounds(b, mantissa_bound() - 1);
    }
    let half: i128 = 0x8000_0000_0000_0000_0000_0000;
    if (a.mantissa >= 0) != (b.mantissa >= 0) {
        return true;
    }
    if -half < a.mantissa && a.mantissa < half && -half < b.mantissa && b.mantissa < half {
        proof {
            lemma_value_bounds(a, half_bound() - 1);
            lemma_value_bounds(b, half_bound() - 1);
        }
        true
    } else {
        false
    }
}

/// Whether `a - b` surely stays within range: the operands have the same sign,
/// or both mantissas are below `2^95` in magnitude.
pub(crate) fn difference_in_range(a: Amount, b: Amount) -> (r: bool)
    ensures
        r == difference_surely_in_range(a, b),
        r ==> within_range(a.value() - b.value()),
{
    proof {
        use_type_invariant(&a);
        use_type_invariant(&b);
        lemma_value_bounds(a, mantissa_bound() - 1);
        lemma_value_bounds(b, mantissa_bound() - 1);
    }
    let half: i128 = 0x8000_0000_0000_0000_0000_0000;
    if (a.mantissa >= 0) == (b.mantissa >= 0) {
        return true;
    }
    if -half < a.mantissa && a.mantissa < half && -half < b.mantissa && b.mantissa < half {
        proof {
            lemma_value_bounds(a, half_bound() - 1);
            lemma_value_bounds(b, half_bound() - 1);
        }
        true
    } else {
        false
    }
}

/// `10^n` for `n <= 28`.
fn pow10_exec(n: u32) -> (r: u128)
    requires
        n <= 28,
    ensures
        r == pow10(n as nat),
{
    let mut r: u128 = 1;
    let mut i: u32 = 0;
    while i < n
        invariant
            i <= n <= 28,
            r == pow10(i as nat),
        decreases n - i,
    {
        proof {
            lemma_pow10_monotone((i + 1) as nat, 28);
            lemma_pow10_28();
        }
        r = r * 10;
        i = i + 1;
    }
    r
}

/// Whether `a * p` surely stays within range: the whole part of `|a|`, times
/// `p`, plus `p`, is below `2^96`.
pub(crate) fn product_in_range(a: Amount, p: u64) -> (r: bool)
    ensures
        r == product_surely_in_range(a, p),
        r ==> within_range(a.value() * p),
{
    proof {
        use_type_invariant(&a);
    }
    let t = pow10_exec(a.scale);
    proof {
        lemma_pow10_positive(a.scale as nat);
    }
    let m: u128 = if a.mantissa >= 0 { a.mantissa as u128 } else { (-a.mantissa) as u128 };
    let q = m / t;
    let x = match q.checked_mul(p as u128) {
        Some(x) => x,
        None => return false,
    };
    let limit: u128 = 0xffff_ffff_ffff_ffff_ffff_ffff;
    if x > limit || limit - x < p as u128 {
        return false;
    }
    proof {
        let s = a.scale as nat;
        let e = (28 - a.scale) as nat;
        lemma_pow10_positive(s);
        lemma_pow10_positive(e);
        lemma_pow10_add(s, e);
        lemma_pow10_28();
        let rem = m % t;
        assert(m == q * t + rem && 0 <= rem < t) by (nonlinear_arith)
            requires
                t > 0,
                q == m / t,
                rem == m % t,
        ;
        // |m| * p < (x + p) * t <= (2^96 - 1) * t
        assert(m * p <= (mantissa_bound() - 1) * t) by (nonlinear_arith)
            requires
                m == q * t + rem,
                0 <= rem < t,
                x == q * p,
                x + p <= mantissa_bound() - 1,
                t > 0,
                p >= 0,
        ;
        let v = a.value();
        let pe = pow10(e);
        assert(v == a.mantissa * pe);
        assert(-max_value() <= v * p <= max_value()) by (nonlinear_arith)
            requires
                v == a.mantissa * pe,
                m == (if a.mantissa >= 0 { a.mantissa as int } else { -a.mantissa }),
                m * p <= (mantissa_bound() - 1) * t,
                t * pe == one(),
                pe > 0,
                p >= 0,
                max_value() == (mantissa_bound() - 1) * one(),
        ;
    }
    true
}

/// The value of the exact result is small enough that `rust_decimal` can hold it
/// after rounding, so the operation does not panic with an overflow.
pub open spec fn within_range(v: int) -> bool {
    -max_value() <= v <= max_value()
}

/// `v`, a value in units of `10^-28`, can be written with a mantissa below `2^96`
/// at scale `s` without rounding.
pub open spec fn fits_at_scale(v: int, s: nat) -> bool {
    -mantissa_bound() * pow10((28 - s) as nat) < v < mantissa_bound() * pow10((28 - s) as nat)
}

pub open(crate) spec fn max_scale_of(a: Amount, b: Amount) -> nat {
    if a.scale >= b.scale { a.scale as nat } else { b.scale as nat }
}

/// The scale of an unrounded sum or difference: the other operand's where one
/// operand is zero (it is returned as it is, up to its sign), else the larger.
pub open(crate) spec fn sum_scale(a: Amount, b: Amount) -> nat {
    if a.mantissa == 0 {
        b.scale as nat
    } else if b.mantissa == 0 {
        a.scale as nat
    } else {
        max_scale_of(a, b)
    }
}

/// What `rust_decimal` returns for `a + b`.
pub uninterp spec fn decimal_sum(a: Amount, b: Amount) -> Amount;

/// What `rust_decimal` returns for `a - b`.
pub uninterp spec fn decimal_difference(a: Amount, b: Amount) -> Amount;

/// What `rust_decimal` returns for `a * b`.
pub uninterp spec fn decimal_product(a: Amount, b: Amount) -> Amount;

/// What `rust_decimal` returns for `a / b`.
pub uninterp spec fn decimal_quotient(a: Amount, b: Amount) -> Amount;

/// `Decimal::new(num, scale)`: the decimal whose mantissa is `num` and whose scale
/// is `scale`; `rust_decimal` panics on a scale above 28, which `requires` rules out.
#[verifier::external_body]
pub(crate) fn decimal_new(num: i64, scale: u32) -> (r: Amount)
    requires
        scale <= 28,
    ensures
        r.mantissa == num,
        r.scale == scale,
{
    let d = Decimal::new(num, scale);
    Amount { mantissa: d.mantissa(), scale: d.scale() }
}

/// `Decimal::from(i64)`: the integer as a decimal of scale 0.
#[verifier::external_body]
pub(crate) fn decimal_from_i64(v: i64) -> (r: Amount)
    ensures
        r == Amount::integer(v as int),
{
    let d = Decimal::from(v);
    Amount { mantissa: d.mantissa(), scale: d.scale() }
}

/// `Decimal::from(u64)`: the integer as a decimal of scale 0.
#[verifier::external_body]
pub(crate) fn decimal_from_u64(v: u64) -> (r: Amount)
    ensures
        r == Amount::integer(v as int),
{
    let d = Decimal::from(v);
    Amount { mantissa: d.mantissa(), scale: d.scale() }
}

/// `Add` for `Decimal` (`a + b`). `rust_decimal` aligns both operands to the
/// larger scale and adds exactly when the sum fits in 96 bits there, keeping that
/// scale (a zero operand gives back the other one as it is); otherwise it rounds
/// to fewer decimals, and it panics only when even scale 0 cannot hold the
/// result, which `requires` rules out. The rounded case is named by
/// [`decimal_sum`] and nothing more is claimed of it.
#[verifier::external_body]
pub(crate) fn decimal_add(a: Amount, b: Amount) -> (r: Amount)
    requires
        within_range(a.value() + b.value()),
    ensures
        r == decimal_sum(a, b),
        r.wf(),
        fits_at_scale(a.value() + b.value(), max_scale_of(a, b)) ==> r.value() == a.value() + b.value(),
        fits_at_scale(a.value() + b.value(), max_scale_of(a, b)) ==> r.scale == sum_scale(a, b),
{
    let d = Decimal::from_i128_with_scale(a.mantissa, a.scale) + Decimal::from_i128_with_scale(b.mantissa, b.scale);
    Amount { mantissa: d.mantissa(), scale: d.scale() }
}

/// `Sub` for `Decimal` (`a - b`); as for [`decimal_add`], exact, and at the same scale, whenever the
/// difference fits at the larger scale, and named by [`decimal_difference`].
#[verifier::external_body]
pub(crate) fn decimal_sub(a: Amount, b: Amount) -> (r: Amount)
    requires
        within_range(a.value() - b.value()),
    ensures
        r == decimal_difference(a, b),
        r.wf(),
        fits_at_scale(a.value() - b.value(), max_scale_of(a, b)) ==> r.value() == a.value() - b.value(),
        fits_at_scale(a.value() - b.value(), max_scale_of(a, b)) ==> r.scale == sum_scale(a, b),
{
    let d = Decimal::from_i128_with_scale(a.mantissa, a.scale) - Decimal::from_i128_with_scale(b.mantissa, b.scale);
    Amount { mantissa: d.mantissa(), scale: d.scale() }
}

/// `Mul` for `Decimal` (`a * b`). The product of the mantissas at the sum of the
/// scales is returned as it is when it fits in 96 bits and the scale stays within
/// 28; otherwise it is rounded, which [`decimal_product`] names. A zero operand
/// gives zero. It panics only when the rounded product exceeds the range.
#[verifier::external_body]
pub(crate) fn decimal_mul(a: Amount, b: Amount) -> (r: Amount)
    requires
        -max_value() * one() <= a.value() * b.value() <= max_value() * one(),
    ensures
        r == decimal_product(a, b),
        r.wf(),
        a.mantissa == 0 || b.mantissa == 0 ==> r.mantissa == 0,
        a.mantissa != 0 && b.mantissa != 0 && -mantissa_bound() < a.mantissa * b.mantissa
            < mantissa_bound() && a.scale + b.scale <= 28
            ==> r.mantissa == a.mantissa * b.mantissa && r.scale == a.scale + b.scale,
{
    let d = Decimal::from_i128_with_scale(a.mantissa, a.scale) * Decimal::from_i128_with_scale(b.mantissa, b.scale);
    Amount { mantissa: d.mantissa(), scale: d.scale() }
}

/// `Div` for `Decimal` (`a / b`): the quotient to as many decimals as fit, rounded;
/// named by [`decimal_quotient`]. It panics on a zero divisor and when the
/// quotient exceeds the range, both ruled out by `requires`.
#[verifier::external_body]
pub(crate) fn decimal_div(a: Amount, b: Amount) -> (r: Amount)
    requires
        b.value() != 0,
        a.value() <= (mantissa_bound() - 1) * b.value() || b.value() < 0,
        -a.value() <= (mantissa_bound() - 1) * b.value() || b.value() < 0,
        a.value() <= -(mantissa_bound() - 1) * b.value() || b.value() > 0,
        -a.value() <= -(mantissa_bound() - 1) * b.value() || b.value() > 0,
    ensures
        r == decimal_quotient(a, b),
        r.wf(),
{
    let d = Decimal::from_i128_with_scale(a.mantissa, a.scale) / Decimal::from_i128_with_scale(b.mantissa, b.scale);
    Amount { mantissa: d.mantissa(), scale: d.scale() }
}

/// `Neg` for `Decimal`: flips the sign and keeps the scale.
#[verifier::external_body]
pub(crate) fn decimal_neg(a: Amount) -> (r: Amount)
    ensures
        r == a.negate(),
        r.value() == -a.value(),
{
    let d = -Decimal::from_i128_with_scale(a.mantissa, a.scale);
    Amount { mantissa: d.mantissa(), scale: d.scale() }
}

/// `PartialOrd::lt` for `Decimal`: compares the two values exactly.
#[verifier::external_body]
pub(crate) fn decimal_lt(a: Amount, b: Amount) -> (r: bool)
    ensures
        r == (a.value() < b.value()),
{
    Decimal::from_i128_with_scale(a.mantissa, a.scale) < Decimal::from_i128_with_scale(b.mantissa, b.scale)
}

/// `PartialEq::eq` for `Decimal`: equal values compare equal whatever their scale.
#[verifier::external_body]
pub(crate) fn decimal_eq(a: Amount, b: Amount) -> (r: bool)
    ensures
        r == (a.value() == b.value()),
{
    Decimal::from_i128_with_scale(a.mantissa, a.scale) == Decimal::from_i128_with_scale(b.mantissa, b.scale)
}

} // verus!
