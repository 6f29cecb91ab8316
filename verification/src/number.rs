//! Numbers: the decimal text of integers, and floating-point values given by
//! their IEEE-754 bit patterns.

use crate::buffer::Buffer;
use vstd::prelude::*;
use vstd::string::StringSliceAdditionalSpecFns;

verus! {

/// The decimal digits of a natural number, without leading zeros.
pub open spec fn decimal_digits(n: nat) -> Seq<u8>
    decreases n,
{
    if n < 10 {
        seq![(0x30 + n) as u8]
    } else {
        decimal_digits(n / 10) + seq![(0x30 + n % 10) as u8]
    }
}

/// The decimal text of an integer: a minus sign for a negative one, then its
/// digits.
pub open spec fn decimal_text(n: int) -> Seq<u8> {
    if n < 0 {
        seq![0x2du8] + decimal_digits((-n) as nat)
    } else {
        decimal_digits(n as nat)
    }
}

/// Calls `serde_json::ser::Formatter::write_u64` of `CompactFormatter` on an
/// empty byte vector, which receives the integer in base 10 as `itoa` prints
/// it: its digits, without sign or leading zeros.
#[verifier::external_body]
pub(crate) fn compact_u64(value: u64) -> (text: Vec<u8>)
    ensures
        text@ == decimal_text(value as int),
{
    let mut text: Vec<u8> = Vec::new();
    let _ = serde_json::ser::Formatter::write_u64(
        &mut serde_json::ser::CompactFormatter,
        &mut text,
        value,
    );
    text
}

/// Calls `serde_json::ser::Formatter::write_i64` of `CompactFormatter` on an
/// empty byte vector, which receives the integer in base 10 as `itoa` prints
/// it: a minus sign if it is negative, then its digits without leading zeros.
#[verifier::external_body]
pub(crate) fn compact_i64(value: i64) -> (text: Vec<u8>)
    ensures
        text@ == decimal_text(value as int),
{
    let mut text: Vec<u8> = Vec::new();
    let _ = serde_json::ser::Formatter::write_i64(
        &mut serde_json::ser::CompactFormatter,
        &mut text,
        value,
    );
    text
}

/// The kind of value that a floating-point bit pattern stands for.
#[derive(Clone, Copy, Debug, PartialEq, Eq, Structural)]
pub enum FloatCategory {
    Nan,
    Infinite,
    Zero,
    Subnormal,
    Normal,
}

impl FloatCategory {
    /// NaN and the infinities have no JSON text.
    pub open spec fn is_finite(self) -> bool {
        self != FloatCategory::Nan && self != FloatCategory::Infinite
    }

    /// A value that is written as its own decimal text: finite and no zero.
    pub open spec fn has_text(self) -> bool {
        self == FloatCategory::Normal || self == FloatCategory::Subnormal
    }
}

/// The category that an exponent field and a fraction field give, where
/// `top` is the exponent field with every bit set.
pub open spec fn category_of(exponent: int, fraction: int, top: int) -> FloatCategory {
    if exponent == top {
        if fraction == 0 {
            FloatCategory::Infinite
        } else {
            FloatCategory::Nan
        }
    } else if exponent == 0 {
        if fraction == 0 {
            FloatCategory::Zero
        } else {
            FloatCategory::Subnormal
        }
    } else {
        FloatCategory::Normal
    }
}

/// The category of a double: 11 exponent bits above 52 fraction bits, the
/// sign bit on top.
pub open spec fn double_category(bits: u64) -> FloatCategory {
    category_of(
        (bits as int / 0x10_0000_0000_0000) % 0x800,
        bits as int % 0x10_0000_0000_0000,
        0x7ff,
    )
}

/// The category of a single: 8 exponent bits above 23 fraction bits, the sign
/// bit on top.
pub open spec fn single_category(bits: u32) -> FloatCategory {
    category_of((bits as int / 0x80_0000) % 0x100, bits as int % 0x80_0000, 0xff)
}

/// Exactly two doubles are zero: all bits clear, and the sign bit alone.
pub proof fn lemma_double_zeros(bits: u64)
    ensures
        double_category(bits) == FloatCategory::Zero <==> bits == 0 || bits
            == 0x8000_0000_0000_0000,
{
}

/// Exactly two singles are zero: all bits clear, and the sign bit alone.
pub proof fn lemma_single_zeros(bits: u32)
    ensures
        single_category(bits) == FloatCategory::Zero <==> bits == 0 || bits == 0x8000_0000,
{
}

/// A double is NaN or infinite exactly when every bit of its exponent is
/// set, whatever its sign.
pub proof fn lemma_double_non_finite(bits: u64)
    ensures
        !double_category(bits).is_finite() <==> 0x7ff0_0000_0000_0000 <= bits
            < 0x8000_0000_0000_0000 || 0xfff0_0000_0000_0000 <= bits,
{
}

/// Classifies the bit pattern of a double.
pub fn classify_double(bits: u64) -> (r: FloatCategory)
    ensures
        r == double_category(bits),
{
    let exponent: u64 = (bits >> 52) & 0x7ff;
    let fraction: u64 = bits & 0xf_ffff_ffff_ffff;
    assert(exponent == (bits / 0x10_0000_0000_0000) % 0x800) by (bit_vector)
        requires
            exponent == (bits >> 52) & 0x7ff,
    ;
    assert(fraction == bits % 0x10_0000_0000_0000) by (bit_vector)
        requires
            fraction == bits & 0xf_ffff_ffff_ffff,
    ;
    if exponent == 0x7ff {
        if fraction == 0 {
            FloatCategory::Infinite
        } else {
            FloatCategory::Nan
        }
    } else if exponent == 0 {
        if fraction == 0 {
            FloatCategory::Zero
        } else {
            FloatCategory::Subnormal
        }
    } else {
        FloatCategory::Normal
    }
}

/// Classifies the bit pattern of a single.
pub fn classify_single(bits: u32) -> (r: FloatCategory)
    ensures
        r == single_category(bits),
{
    let exponent: u32 = (bits >> 23) & 0xff;
    let fraction: u32 = bits & 0x7f_ffff;
    assert(exponent == (bits / 0x80_0000) % 0x100) by (bit_vector)
        requires
            exponent == (bits >> 23) & 0xff,
    ;
    assert(fraction == bits % 0x80_0000) by (bit_vector)
        requires
            fraction == bits & 0x7f_ffff,
    ;
    if exponent == 0xff {
        if fraction == 0 {
            FloatCategory::Infinite
        } else {
            FloatCategory::Nan
        }
    } else if exponent == 0 {
        if fraction == 0 {
            FloatCategory::Zero
        } else {
            FloatCategory::Subnormal
        }
    } else {
        FloatCategory::Normal
    }
}

/// What is written for a floating-point value that is not refused: `0` for a
/// zero of either sign, else the shortest decimal text of the value.
pub open spec fn float_text(category: FloatCategory, text: Seq<char>) -> Seq<u8> {
    if category == FloatCategory::Zero {
        seq![0x30u8]
    } else {
        vstd::utf8::encode_utf8(text)
    }
}

/// Whether the text of a double fits the scratch buffer, as far as the text
/// is read: it is read only for a value that is written as its text.
pub open spec fn text_fits(bits: u64, text: Seq<char>) -> bool {
    double_category(bits).has_text() ==> vstd::utf8::encode_utf8(text).len() <= Buffer::SIZE
}

/// A double as the encoder takes it: its IEEE-754 bit pattern, and its
/// shortest decimal text as the number formatter printed it. Of the text only
/// the length is known here: it fits the scratch buffer where it is read.
#[derive(Debug)]
pub struct FloatNumber {
    bits: u64,
    text: String,
}

impl FloatNumber {
    #[verifier::type_invariant]
    spec fn fits(&self) -> bool {
        text_fits(self.bits, self.text@)
    }

    /// The IEEE-754 bit pattern.
    pub closed spec fn bits(&self) -> u64 {
        self.bits
    }

    /// The decimal text.
    pub closed spec fn text(&self) -> Seq<char> {
        self.text@
    }

    /// Pairs a bit pattern with its text, unless the value is written as
    /// its text and the text is longer than the scratch buffer.
    pub fn new(bits: u64, text: &str) -> (r: Option<FloatNumber>)
        ensures
            r is Some <==> text_fits(bits, text@),
            r matches Some(number) ==> number.bits() == bits && number.text() == text@,
    {
        let fits = match classify_double(bits) {
            FloatCategory::Normal | FloatCategory::Subnormal => text.as_bytes().len()
                <= Buffer::SIZE,
            _ => true,
        };
        if fits {
            Some(FloatNumber { bits, text: text.to_owned() })
        } else {
            None
        }
    }

    /// The IEEE-754 bit pattern.
    pub fn get_bits(&self) -> (r: u64)
        ensures
            r == self.bits(),
    {
        self.bits
    }

    /// The decimal text, which fits the scratch buffer where the value is
    /// written as its text.
    pub fn get_text(&self) -> (r: &str)
        ensures
            r@ == self.text(),
            text_fits(self.bits(), r@),
    {
        proof {
            use_type_invariant(self);
        }
        self.text.as_str()
    }
}

impl Clone for FloatNumber {
    fn clone(&self) -> (r: Self)
        ensures
            r.bits() == self.bits(),
            r.text() == self.text(),
    {
        proof {
            use_type_invariant(self);
        }
        FloatNumber { bits: self.bits, text: self.text.clone() }
    }
}

} // verus!
