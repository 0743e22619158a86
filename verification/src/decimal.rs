//! Fixed-point decimal numbers: an integer mantissa and a scale, the number of
//! digits behind the decimal point. The arithmetic is that of `rust_decimal`.
use std::str::FromStr;
use vstd::prelude::*;

verus! {

/// The largest scale of a decimal.
pub const MAX_SCALE: u32 = 28;

/// The largest mantissa of a decimal: 96 bits.
pub const MAX_MANTISSA: i128 = 0xFFFF_FFFF_FFFF_FFFF_FFFF_FFFF;

/// `rust_decimal::Error`, the reason why a text is no decimal. It is handed
/// on as it is.
#[verifier::external_type_specification]
#[verifier::external_body]
pub struct ExDecimalError(rust_decimal::Error);

/// Ten to the power of `exponent`.
pub open spec fn pow10(exponent: nat) -> nat
    decreases exponent,
{
    if exponent == 0 {
        1
    } else {
        10 * pow10((exponent - 1) as nat)
    }
}

/// A mantissa and a scale without the trailing zeros behind the decimal point:
/// the number stays the same.
pub open spec fn normalized(mantissa: int, scale: nat) -> (int, nat)
    decreases scale,
{
    if scale > 0 && mantissa % 10 == 0 {
        normalized(mantissa / 10, (scale - 1) as nat)
    } else {
        (mantissa, scale)
    }
}

/// The decimal number that a text stands for, as a mantissa and a scale,
/// where the text is one.
pub uninterp spec fn decimal_of_text(text: Seq<char>) -> Option<(int, nat)>;

/// The number `mantissa / 10^scale`, held without trailing zeros behind the
/// decimal point, so that equal numbers are equal values.
#[derive(Clone, Copy, Debug, PartialEq, Eq, Hash)]
pub struct Decimal {
    mantissa: i128,
    scale: u32,
}

/// Whether `a / 10^a_scale` is less than `b / 10^b_scale`.
pub open spec fn less(a: int, a_scale: nat, b: int, b_scale: nat) -> bool {
    a * pow10(b_scale) < b * pow10(a_scale)
}

/// Whether `a / 10^a_scale` is `b / 10^b_scale`.
pub open spec fn same(a: int, a_scale: nat, b: int, b_scale: nat) -> bool {
    a * pow10(b_scale) == b * pow10(a_scale)
}

/// Calls `rust_decimal::Decimal::from_i128_with_scale`, then `normalize`, and
/// takes the result apart with `mantissa` and `scale`. Normalizing strips the
/// trailing zeros behind the decimal point and nothing else; every decimal has
/// a mantissa of at most 96 bits and a scale of at most 28.
#[verifier::external_body]
fn normalize(mantissa: i128, scale: u32) -> (parts: (i128, u32))
    requires
        scale <= MAX_SCALE,
        -MAX_MANTISSA <= mantissa <= MAX_MANTISSA,
    ensures
        (parts.0 as int, parts.1 as nat) == normalized(mantissa as int, scale as nat),
        parts.1 <= MAX_SCALE,
        -MAX_MANTISSA <= parts.0 <= MAX_MANTISSA,
{
    let decimal = rust_decimal::Decimal::from_i128_with_scale(mantissa, scale).normalize();
    (decimal.mantissa(), decimal.scale())
}

/// Calls `rust_decimal::Decimal::from_str` and takes the result apart with
/// `mantissa` and `scale`. Which texts are numbers, and which number each is,
/// is left to that function: the contract gives its answer a name. Every
/// decimal has a mantissa of at most 96 bits and a scale of at most 28.
#[verifier::external_body]
fn parse(text: &str) -> (parts: Result<(i128, u32), rust_decimal::Error>)
    ensures
        parts.is_ok() == decimal_of_text(text@).is_some(),
        parts matches Ok(p) ==> decimal_of_text(text@) == Some((p.0 as int, p.1 as nat))
            && p.1 <= MAX_SCALE && -MAX_MANTISSA <= p.0 <= MAX_MANTISSA,
{
    match rust_decimal::Decimal::from_str(text) {
        Ok(decimal) => Ok((decimal.mantissa(), decimal.scale())),
        Err(error) => Err(error),
    }
}

/// Compares two decimals with `<` of `rust_decimal::Decimal`, which orders
/// them as numbers.
#[verifier::external_body]
fn decimal_less(a: i128, a_scale: u32, b: i128, b_scale: u32) -> (result: bool)
    requires
        a_scale <= MAX_SCALE,
        b_scale <= MAX_SCALE,
        -MAX_MANTISSA <= a <= MAX_MANTISSA,
        -MAX_MANTISSA <= b <= MAX_MANTISSA,
    ensures
        result == less(a as int, a_scale as nat, b as int, b_scale as nat),
{
    rust_decimal::Decimal::from_i128_with_scale(a, a_scale)
        < rust_decimal::Decimal::from_i128_with_scale(b, b_scale)
}

/// Compares two decimals with `==` of `rust_decimal::Decimal`, which holds of
/// equal numbers, whatever their scales.
#[verifier::external_body]
fn decimal_equal(a: i128, a_scale: u32, b: i128, b_scale: u32) -> (result: bool)
    requires
        a_scale <= MAX_SCALE,
        b_scale <= MAX_SCALE,
        -MAX_MANTISSA <= a <= MAX_MANTISSA,
        -MAX_MANTISSA <= b <= MAX_MANTISSA,
    ensures
        result == same(a as int, a_scale as nat, b as int, b_scale as nat),
{
    rust_decimal::Decimal::from_i128_with_scale(a, a_scale)
        == rust_decimal::Decimal::from_i128_with_scale(b, b_scale)
}

impl Decimal {
    #[verifier::type_invariant]
    spec fn in_range(self) -> bool {
        self.scale <= MAX_SCALE && -MAX_MANTISSA <= self.mantissa <= MAX_MANTISSA
    }

    /// The mantissa.
    pub closed spec fn spec_mantissa(self) -> int {
        self.mantissa as int
    }

    /// The scale.
    pub closed spec fn spec_scale(self) -> nat {
        self.scale as nat
    }

    /// Whether `self` is less than `other`, as numbers.
    pub open spec fn spec_less(self, other: Decimal) -> bool {
        less(self.spec_mantissa(), self.spec_scale(), other.spec_mantissa(), other.spec_scale())
    }

    /// Whether `self` and `other` are the same number.
    pub open spec fn spec_same(self, other: Decimal) -> bool {
        same(self.spec_mantissa(), self.spec_scale(), other.spec_mantissa(), other.spec_scale())
    }

    /// The number `number / 10^scale`.
    pub fn new(number: i64, scale: u32) -> (decimal: Self)
        requires
            scale <= MAX_SCALE,
        ensures
            (decimal.spec_mantissa(), decimal.spec_scale()) == normalized(
                number as int,
                scale as nat,
            ),
    {
        let parts = normalize(number as i128, scale);
        Decimal { mantissa: parts.0, scale: parts.1 }
    }

    /// Whether the decimal is the number that the text stands for, without
    /// trailing zeros behind the decimal point.
    pub open spec fn read_from(self, text: Seq<char>) -> bool {
        decimal_of_text(text) matches Some(parts) && (self.spec_mantissa(), self.spec_scale())
            == normalized(parts.0, parts.1)
    }

    /// The number that `text` stands for, or the reason why it stands for none.
    pub fn from_text(text: &str) -> (decimal: Result<Self, rust_decimal::Error>)
        ensures
            decimal.is_ok() == decimal_of_text(text@).is_some(),
            decimal matches Ok(d) ==> d.read_from(text@),
    {
        match parse(text) {
            Ok(parts) => {
                let parts = normalize(parts.0, parts.1);
                Ok(Decimal { mantissa: parts.0, scale: parts.1 })
            },
            Err(error) => Err(error),
        }
    }

    /// The words that identify the number: the two halves of the mantissa and
    /// the scale.
    pub closed spec fn spec_words(self) -> (u64, u64, u64) {
        (self.mantissa as u128 as u64, (self.mantissa as u128 >> 64) as u64, self.scale as u64)
    }

    /// The words that identify the number.
    pub fn words(&self) -> (words: (u64, u64, u64))
        ensures
            words == self.spec_words(),
    {
        (self.mantissa as u128 as u64, (self.mantissa as u128 >> 64) as u64, self.scale as u64)
    }

    /// The mantissa of the number.
    pub fn mantissa(&self) -> (mantissa: i128)
        ensures
            mantissa == self.spec_mantissa(),
    {
        self.mantissa
    }

    /// The scale of the number.
    pub fn scale(&self) -> (scale: u32)
        ensures
            scale == self.spec_scale(),
    {
        self.scale
    }

    /// Whether `self` is less than `other`.
    pub fn less_than(&self, other: &Decimal) -> (result: bool)
        ensures
            result == self.spec_less(*other),
    {
        proof {
            use_type_invariant(self);
            use_type_invariant(other);
        }
        decimal_less(self.mantissa, self.scale, other.mantissa, other.scale)
    }

    /// Whether `self` and `other` are the same number.
    pub fn equals(&self, other: &Decimal) -> (result: bool)
        ensures
            result == self.spec_same(*other),
    {
        proof {
            use_type_invariant(self);
            use_type_invariant(other);
        }
        decimal_equal(self.mantissa, self.scale, other.mantissa, other.scale)
    }
}

} // verus!
