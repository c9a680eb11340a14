//! Decimal numbers as plain integers: a signed 96-bit mantissa and a scale.
//!
//! The value of a number is `mantissa / 10^scale`. Since the scale never
//! exceeds 28, every number is a whole multiple of `10^-28`, and that multiple
//! (`units`) is the mathematical model used for ordering. Parsing, printing
//! and arithmetic are done by the `rust_decimal` crate.

use crate::errors::FIRParsingError;
use vstd::prelude::*;

verus! {

/// The largest scale a decimal can carry.
pub const MAX_SCALE: u32 = 28;

/// The largest magnitude of a mantissa: `2^96 - 1`.
pub const MAX_MANTISSA: i128 = 79_228_162_514_264_337_593_543_950_335;

/// Error type of the `rust_decimal` crate, carried through opaquely.
#[verifier::external_type_specification]
#[verifier::external_body]
pub struct ExDecimalError(rust_decimal::Error);

/// `10^n`.
pub open spec fn pow10(n: nat) -> int
    decreases n,
{
    if n == 0 {
        1
    } else {
        10 * pow10((n - 1) as nat)
    }
}

/// A decimal number: `mantissa / 10^scale`.
#[derive(Clone, Copy, Debug)]
pub struct Decimal {
    pub mantissa: i128,
    pub scale: u32,
}

/// What `rust_decimal` reads from a text: the number, or `None` where it
/// rejects the text.
pub uninterp spec fn decimal_from_text(text: Seq<char>) -> Option<Decimal>;

/// The text that `rust_decimal` prints for a number.
pub uninterp spec fn decimal_text(d: Decimal) -> Seq<char>;

/// The product as `rust_decimal` computes it; `None` on overflow.
pub uninterp spec fn decimal_product(a: Decimal, b: Decimal) -> Option<Decimal>;

/// The difference as `rust_decimal` computes it; `None` on overflow.
pub uninterp spec fn decimal_difference(a: Decimal, b: Decimal) -> Option<Decimal>;

/// The sum as `rust_decimal` computes it; `None` on overflow.
pub uninterp spec fn decimal_sum(a: Decimal, b: Decimal) -> Option<Decimal>;

/// Calls `rust_decimal::Decimal::from_str`. The outcome is a function of the
/// text alone and is named by `decimal_from_text`; a number that comes back
/// always has a 96-bit mantissa and a scale of at most 28.
#[verifier::external_body]
fn parse_text(text: &str) -> (r: Result<Decimal, rust_decimal::Error>)
    ensures
        r.is_ok() == decimal_from_text(text@).is_some(),
        r.is_ok() ==> decimal_from_text(text@) == Some(r.unwrap()) && r.unwrap().wf(),
{
    match text.parse::<rust_decimal::Decimal>() {
        Ok(d) => Ok(Decimal { mantissa: d.mantissa(), scale: d.scale() }),
        Err(e) => Err(e),
    }
}

/// Calls `to_string` on the `rust_decimal::Decimal` with this mantissa and
/// scale. The text is named by `decimal_text`.
#[verifier::external_body]
fn print_text(d: Decimal) -> (r: String)
    requires
        d.wf(),
    ensures
        r@ == decimal_text(d),
{
    rust_decimal::Decimal::from_i128_with_scale(d.mantissa, d.scale).to_string()
}

/// Calls `rust_decimal::Decimal::checked_mul`. The result is named by
/// `decimal_product`; a number that comes back is well formed.
#[verifier::external_body]
pub(crate) fn multiply(a: Decimal, b: Decimal) -> (r: Option<Decimal>)
    requires
        a.wf(),
        b.wf(),
    ensures
        r == decimal_product(a, b),
        r.is_some() ==> r.unwrap().wf(),
{
    let x = rust_decimal::Decimal::from_i128_with_scale(a.mantissa, a.scale);
    let y = rust_decimal::Decimal::from_i128_with_scale(b.mantissa, b.scale);
    match x.checked_mul(y) {
        Some(d) => Some(Decimal { mantissa: d.mantissa(), scale: d.scale() }),
        None => None,
    }
}

/// Calls `rust_decimal::Decimal::checked_sub`. The result is named by
/// `decimal_difference`; a number that comes back is well formed.
#[verifier::external_body]
pub(crate) fn subtract(a: Decimal, b: Decimal) -> (r: Option<Decimal>)
    requires
        a.wf(),
        b.wf(),
    ensures
        r == decimal_difference(a, b),
        r.is_some() ==> r.unwrap().wf(),
{
    let x = rust_decimal::Decimal::from_i128_with_scale(a.mantissa, a.scale);
    let y = rust_decimal::Decimal::from_i128_with_scale(b.mantissa, b.scale);
    match x.checked_sub(y) {
        Some(d) => Some(Decimal { mantissa: d.mantissa(), scale: d.scale() }),
        None => None,
    }
}

/// Calls `rust_decimal::Decimal::checked_add`. The result is named by
/// `decimal_sum`; a number that comes back is well formed.
#[verifier::external_body]
pub(crate) fn accumulate(a: Decimal, b: Decimal) -> (r: Option<Decimal>)
    requires
        a.wf(),
        b.wf(),
    ensures
        r == decimal_sum(a, b),
        r.is_some() ==> r.unwrap().wf(),
{
    let x = rust_decimal::Decimal::from_i128_with_scale(a.mantissa, a.scale);
    let y = rust_decimal::Decimal::from_i128_with_scale(b.mantissa, b.scale);
    match x.checked_add(y) {
        Some(d) => Some(Decimal { mantissa: d.mantissa(), scale: d.scale() }),
        None => None,
    }
}

/// `m * 10^k`, or `None` where it does not fit a mantissa.
fn scaled_up(m: i128, k: u32) -> (r: Option<i128>)
    requires
        -MAX_MANTISSA <= m <= MAX_MANTISSA,
        k <= MAX_SCALE,
    ensures
        match r {
            Some(x) => x == m * pow10(k as nat) && -MAX_MANTISSA <= x <= MAX_MANTISSA,
            None => if m < 0 {
                m * pow10(k as nat) < -MAX_MANTISSA
            } else {
                m * pow10(k as nat) > MAX_MANTISSA
            },
        },
{
    let mut x: i128 = m;
    let mut i: u32 = 0;
    assert(m * pow10(0) == m) by {
        assert(pow10(0) == 1);
    }
    while i < k
        invariant
            i <= k <= MAX_SCALE,
            -MAX_MANTISSA <= x <= MAX_MANTISSA,
            x == m * pow10(i as nat),
        decreases k - i,
    {
        let ghost rest = pow10((k - i - 1) as nat);
        proof {
            lemma_pow10_positive((k - i - 1) as nat);
            lemma_pow10_positive(i as nat);
            lemma_pow10_adds((i + 1) as nat, (k - i - 1) as nat);
            assert(pow10((i + 1) as nat) == 10 * pow10(i as nat));
            assert(m * pow10(k as nat) == (x * 10) * rest) by (nonlinear_arith)
                requires
                    x == m * pow10(i as nat),
                    pow10(k as nat) == (10 * pow10(i as nat)) * rest,
            ;
        }
        if x > MAX_MANTISSA / 10 {
            assert((x * 10) * rest > MAX_MANTISSA) by (nonlinear_arith)
                requires
                    x * 10 > MAX_MANTISSA,
                    rest >= 1,
            ;
            assert(m > 0) by (nonlinear_arith)
                requires
                    x == m * pow10(i as nat),
                    x > 0,
                    pow10(i as nat) > 0,
            ;
            return None;
        }
        if x < -(MAX_MANTISSA / 10) {
            assert((x * 10) * rest < -MAX_MANTISSA) by (nonlinear_arith)
                requires
                    x * 10 < -MAX_MANTISSA,
                    rest >= 1,
            ;
            assert(m < 0) by (nonlinear_arith)
                requires
                    x == m * pow10(i as nat),
                    x < 0,
                    pow10(i as nat) > 0,
            ;
            return None;
        }
        assert((m * pow10(i as nat)) * 10 == m * (10 * pow10(i as nat))) by (nonlinear_arith);
        x = x * 10;
        i = i + 1;
    }
    Some(x)
}

/// Numbers of one scale are ordered as their mantissas are; in general a
/// number's value is its mantissa times a positive power of ten.
proof fn lemma_units_order(a: int, b: int, p: int)
    requires
        p > 0,
    ensures
        (a * p < b * p) == (a < b),
{
    assert((a * p < b * p) == (a < b)) by (nonlinear_arith)
        requires
            p > 0,
    ;
}

impl Decimal {
    /// The mantissa fits 96 bits and the scale is at most 28.
    pub open spec fn wf(self) -> bool {
        &&& -MAX_MANTISSA <= self.mantissa <= MAX_MANTISSA
        &&& self.scale <= MAX_SCALE
    }

    /// The value in units of `10^-28`.
    pub open spec fn units(self) -> int {
        self.mantissa * pow10((MAX_SCALE - self.scale) as nat)
    }

    /// The same value with trailing zeros of the fraction removed.
    pub open spec fn normal(self) -> Decimal
        decreases self.scale,
    {
        if self.scale > 0 && self.mantissa % 10 == 0 {
            (Decimal { mantissa: (self.mantissa / 10) as i128, scale: (self.scale - 1) as u32 }).normal()
        } else {
            self
        }
    }

    /// Two numbers have the same value: their normal forms coincide.
    pub open spec fn same_value(self, other: Decimal) -> bool {
        self.normal() == other.normal()
    }

    /// A number from its parts, if they are in range.
    pub fn new(mantissa: i128, scale: u32) -> (r: Option<Decimal>)
        ensures
            r == if (Decimal { mantissa, scale }).wf() {
                Some(Decimal { mantissa, scale })
            } else {
                None
            },
    {
        if scale <= MAX_SCALE && -MAX_MANTISSA <= mantissa && mantissa <= MAX_MANTISSA {
            Some(Decimal { mantissa, scale })
        } else {
            None
        }
    }

    /// A whole number.
    pub fn from_int(n: i64) -> (r: Decimal)
        ensures
            r == (Decimal { mantissa: n as i128, scale: 0 }),
            r.wf(),
    {
        Decimal { mantissa: n as i128, scale: 0 }
    }

    /// Reads a number from text. What is no number is a parse failure.
    pub fn parse(text: &str) -> (r: Result<Decimal, FIRParsingError>)
        ensures
            match decimal_from_text(text@) {
                Some(d) => r == Ok::<Decimal, FIRParsingError>(d) && d.wf(),
                None => r matches Err(FIRParsingError::ParseDecimalError(_)),
            },
    {
        match parse_text(text) {
            Ok(d) => Ok(d),
            Err(e) => Err(FIRParsingError::ParseDecimalError(e)),
        }
    }

    /// Prints the number at its stored precision.
    pub fn to_text(&self) -> (r: String)
        requires
            self.wf(),
        ensures
            r@ == decimal_text(*self),
    {
        print_text(*self)
    }

    /// `self < other` by value, whatever the two scales.
    pub fn lt(self, other: Decimal) -> (r: bool)
        requires
            self.wf(),
            other.wf(),
        ensures
            r == (self.units() < other.units()),
    {
        if self.scale == other.scale {
            proof {
                let p = pow10((MAX_SCALE - self.scale) as nat);
                lemma_pow10_positive((MAX_SCALE - self.scale) as nat);
                lemma_units_order(self.mantissa as int, other.mantissa as int, p);
            }
            self.mantissa < other.mantissa
        } else if self.scale < other.scale {
            let k = other.scale - self.scale;
            let ghost p = pow10((MAX_SCALE - other.scale) as nat);
            let ghost up = self.mantissa * pow10(k as nat);
            proof {
                lemma_pow10_positive((MAX_SCALE - other.scale) as nat);
                lemma_pow10_adds(k as nat, (MAX_SCALE - other.scale) as nat);
                assert(self.units() == up * p) by (nonlinear_arith)
                    requires
                        self.units() == self.mantissa * (pow10(k as nat) * p),
                        up == self.mantissa * pow10(k as nat),
                ;
                lemma_units_order(up, other.mantissa as int, p);
            }
            match scaled_up(self.mantissa, k) {
                Some(x) => x < other.mantissa,
                None => self.mantissa < 0,
            }
        } else {
            let k = self.scale - other.scale;
            let ghost p = pow10((MAX_SCALE - self.scale) as nat);
            let ghost up = other.mantissa * pow10(k as nat);
            proof {
                lemma_pow10_positive((MAX_SCALE - self.scale) as nat);
                lemma_pow10_adds(k as nat, (MAX_SCALE - self.scale) as nat);
                assert(other.units() == up * p) by (nonlinear_arith)
                    requires
                        other.units() == other.mantissa * (pow10(k as nat) * p),
                        up == other.mantissa * pow10(k as nat),
                ;
                lemma_units_order(self.mantissa as int, up, p);
            }
            match scaled_up(other.mantissa, k) {
                Some(y) => self.mantissa < y,
                None => other.mantissa >= 0,
            }
        }
    }

    /// Removes trailing zeros of the fraction.
    pub fn normalize(self) -> (r: Decimal)
        ensures
            r == self.normal(),
    {
        let mut d = self;
        while d.scale > 0 && d.mantissa % 10 == 0
            invariant
                d.normal() == self.normal(),
            decreases d.scale,
        {
            d = Decimal { mantissa: d.mantissa / 10, scale: d.scale - 1 };
        }
        d
    }

    /// Whether two numbers have the same value.
    pub fn eq_value(self, other: Decimal) -> (r: bool)
        ensures
            r == self.same_value(other),
    {
        let a = self.normalize();
        let b = other.normalize();
        a.mantissa == b.mantissa && a.scale == b.scale
    }
}

/// A number is in normal form: its fraction does not end in a zero.
pub open spec fn is_normal(d: Decimal) -> bool {
    d.scale == 0 || d.mantissa % 10 != 0
}

/// Powers of ten are positive.
pub proof fn lemma_pow10_positive(n: nat)
    ensures
        pow10(n) > 0,
    decreases n,
{
    if n > 0 {
        lemma_pow10_positive((n - 1) as nat);
    }
}

/// `10^(a+b) = 10^a * 10^b`.
pub proof fn lemma_pow10_adds(a: nat, b: nat)
    ensures
        pow10(a + b) == pow10(a) * pow10(b),
    decreases a,
{
    if a > 0 {
        lemma_pow10_adds((a - 1) as nat, b);
        assert(pow10(a + b) == 10 * pow10((a - 1 + b) as nat));
        assert(10 * (pow10((a - 1) as nat) * pow10(b)) == (10 * pow10((a - 1) as nat)) * pow10(b))
            by (nonlinear_arith);
    }
}

/// The normal form of a number has the number's value, is in normal form
/// and is well formed where the number is.
pub proof fn lemma_normal_form(d: Decimal)
    requires
        d.scale <= MAX_SCALE,
    ensures
        d.normal().units() == d.units(),
        is_normal(d.normal()),
        d.normal().scale <= d.scale,
        d.wf() ==> d.normal().wf(),
    decreases d.scale,
{
    if d.scale > 0 && d.mantissa % 10 == 0 {
        let q = d.mantissa / 10;
        let next = Decimal { mantissa: q as i128, scale: (d.scale - 1) as u32 };
        assert(d.mantissa == 10 * q);
        lemma_normal_form(next);
        let p = pow10((MAX_SCALE - d.scale) as nat);
        assert(pow10((MAX_SCALE - next.scale) as nat) == 10 * p);
        assert(q * (10 * p) == (10 * q) * p) by (nonlinear_arith);
    }
}

/// Two numbers in normal form with the same value are the same number.
pub proof fn lemma_normal_is_unique(a: Decimal, b: Decimal)
    requires
        a.scale <= b.scale <= MAX_SCALE,
        is_normal(a),
        is_normal(b),
        a.units() == b.units(),
    ensures
        a == b,
{
    let k = (b.scale - a.scale) as nat;
    let p = pow10((MAX_SCALE - b.scale) as nat);
    lemma_pow10_positive((MAX_SCALE - b.scale) as nat);
    lemma_pow10_adds(k, (MAX_SCALE - b.scale) as nat);
    assert(pow10((MAX_SCALE - a.scale) as nat) == pow10(k) * p);
    let am = a.mantissa as int;
    let bm = b.mantissa as int;
    let pk = pow10(k);
    assert(am * (pk * p) == (am * pk) * p) by (nonlinear_arith);
    assert(am * pk == bm) by (nonlinear_arith)
        requires
            (am * pk) * p == bm * p,
            p > 0,
    ;
    if k > 0 {
        let r = pow10((k - 1) as nat);
        assert(pk == 10 * r);
        assert(am * (10 * r) == 10 * (am * r)) by (nonlinear_arith);
        assert(bm % 10 == 0);
        assert(false);
    }
}

/// Equality of normal forms is equality of values.
pub proof fn lemma_same_value_is_same_units(a: Decimal, b: Decimal)
    requires
        a.scale <= MAX_SCALE,
        b.scale <= MAX_SCALE,
    ensures
        a.same_value(b) == (a.units() == b.units()),
{
    lemma_normal_form(a);
    lemma_normal_form(b);
    if a.units() == b.units() {
        if a.normal().scale <= b.normal().scale {
            lemma_normal_is_unique(a.normal(), b.normal());
        } else {
            lemma_normal_is_unique(b.normal(), a.normal());
        }
    }
}

/// `==` compares by value: `1.0 == 1.00`.
impl PartialEq for Decimal {
    fn eq(&self, other: &Decimal) -> (r: bool) {
        self.eq_value(*other)
    }
}

impl vstd::std_specs::cmp::PartialEqSpecImpl for Decimal {
    open spec fn obeys_eq_spec() -> bool {
        true
    }

    open spec fn eq_spec(&self, other: &Decimal) -> bool {
        self.same_value(*other)
    }
}

impl Eq for Decimal {

}

} // verus!
