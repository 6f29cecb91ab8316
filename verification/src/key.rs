//! Keys as they are stored: the bytes that were written for a key, the text
//! that those bytes stand for, and the order of keys by that text.

use crate::escape::{
    escaped, escaped_char, lemma_escaped_concat, lemma_escaped_of_character, string_token,
    CharEscape,
};
use crate::order::{
    char_units, key_order, lemma_order_asymmetric, lemma_order_irreflexive, lemma_order_total,
    lemma_order_transitive, lemma_raw_units_injective, lemma_utf16_units_concat,
    lemma_utf16_units_injective, push_raw_units, push_scalar_units, raw_units, scalar_units,
    units_before, utf16_units, KeyOrder,
};
use vstd::prelude::*;
use vstd::utf8::{
    decode_first_scalar, encode_scalar, encode_utf8, length_of_first_scalar, valid_first_scalar,
};

verus! {

/// The value of a hexadecimal digit of either case.
pub open spec fn hex_value(byte: u8) -> Option<int> {
    if 0x30 <= byte <= 0x39 {
        Some(byte - 0x30)
    } else if 0x61 <= byte <= 0x66 {
        Some(byte - 0x61 + 10)
    } else if 0x41 <= byte <= 0x46 {
        Some(byte - 0x41 + 10)
    } else {
        None
    }
}

/// The code unit that a backslash and the given byte stand for, where the
/// two are an escape of two bytes.
pub open spec fn short_escape(byte: u8) -> Option<u16> {
    if byte == 0x22 {
        Some(0x22u16)
    } else if byte == 0x5c {
        Some(0x5cu16)
    } else if byte == 0x2f {
        Some(0x2fu16)
    } else if byte == 0x62 {
        Some(0x08u16)
    } else if byte == 0x66 {
        Some(0x0cu16)
    } else if byte == 0x6e {
        Some(0x0au16)
    } else if byte == 0x72 {
        Some(0x0du16)
    } else if byte == 0x74 {
        Some(0x09u16)
    } else {
        None
    }
}

/// The code unit that the bytes begin with, where they begin with a
/// backslash, `u` and four hexadecimal digits.
pub open spec fn long_escape(bytes: Seq<u8>) -> Option<u16> {
    if bytes.len() >= 6 && bytes[0] == 0x5c && bytes[1] == 0x75 && hex_value(bytes[2]) is Some
        && hex_value(bytes[3]) is Some && hex_value(bytes[4]) is Some && hex_value(
        bytes[5],
    ) is Some {
        Some(
            (((hex_value(bytes[2])->0 * 16 + hex_value(bytes[3])->0) * 16 + hex_value(
                bytes[4],
            )->0) * 16 + hex_value(bytes[5])->0) as u16,
        )
    } else {
        None
    }
}

/// How many bytes the first piece of a key takes: a quote, an escape, or a
/// character in UTF-8. A byte that begins none of these is a piece of its
/// own.
pub open spec fn head_len(bytes: Seq<u8>) -> int {
    if bytes.len() == 0 {
        0
    } else if bytes[0] == 0x5c {
        if bytes.len() >= 2 && short_escape(bytes[1]) is Some {
            2
        } else if long_escape(bytes) is Some {
            6
        } else {
            1
        }
    } else if bytes[0] < 0x80 {
        1
    } else if valid_first_scalar(bytes) {
        length_of_first_scalar(bytes)
    } else {
        1
    }
}

/// The code units that the first piece of a key stands for: none for a
/// quote, which only delimits; the character of an escape; the character of
/// a UTF-8 sequence; and the byte itself where it begins none of these.
pub open spec fn head_units(bytes: Seq<u8>) -> Seq<u16> {
    if bytes.len() == 0 || bytes[0] == 0x22 {
        Seq::empty()
    } else if bytes[0] == 0x5c {
        if bytes.len() >= 2 && short_escape(bytes[1]) is Some {
            seq![short_escape(bytes[1])->0]
        } else if long_escape(bytes) is Some {
            seq![long_escape(bytes)->0]
        } else {
            seq![0x5cu16]
        }
    } else if bytes[0] < 0x80 {
        seq![bytes[0] as u16]
    } else if valid_first_scalar(bytes) {
        scalar_units(decode_first_scalar(bytes))
    } else {
        seq![bytes[0] as u16]
    }
}

/// The UTF-16 code units of the text that the bytes of a key stand for.
pub open spec fn key_units(bytes: Seq<u8>) -> Seq<u16>
    decreases bytes.len(),
{
    let n = head_len(bytes);
    if 1 <= n <= bytes.len() {
        head_units(bytes) + key_units(bytes.skip(n))
    } else {
        Seq::empty()
    }
}

/// The first piece of a key that is not empty takes at least one byte and
/// lies within the key.
pub proof fn lemma_head_len(bytes: Seq<u8>)
    requires
        bytes.len() > 0,
    ensures
        1 <= head_len(bytes) <= bytes.len(),
{
}

/// One key sorts before another: by the code units of the text that the
/// keys stand for, and where two keys stand for the same text, by their
/// bytes.
pub open spec fn key_before(a: Seq<u8>, b: Seq<u8>) -> bool {
    units_before(key_units(a), key_units(b)) || (key_units(a) == key_units(b) && units_before(
        raw_units(a),
        raw_units(b),
    ))
}

/// No key sorts before itself.
pub proof fn lemma_key_irreflexive(a: Seq<u8>)
    ensures
        !key_before(a, a),
{
    lemma_order_irreflexive(key_units(a));
    lemma_order_irreflexive(raw_units(a));
}

/// Of two keys at most one sorts before the other.
pub proof fn lemma_key_asymmetric(a: Seq<u8>, b: Seq<u8>)
    requires
        key_before(a, b),
    ensures
        !key_before(b, a),
{
    lemma_order_irreflexive(key_units(a));
    if units_before(key_units(a), key_units(b)) {
        lemma_order_asymmetric(key_units(a), key_units(b));
    } else {
        lemma_order_asymmetric(raw_units(a), raw_units(b));
    }
}

/// The order of keys is transitive.
pub proof fn lemma_key_transitive(a: Seq<u8>, b: Seq<u8>, c: Seq<u8>)
    requires
        key_before(a, b),
        key_before(b, c),
    ensures
        key_before(a, c),
{
    if units_before(key_units(a), key_units(b)) && units_before(key_units(b), key_units(c)) {
        lemma_order_transitive(key_units(a), key_units(b), key_units(c));
    } else if !units_before(key_units(a), key_units(b)) && !units_before(
        key_units(b),
        key_units(c),
    ) {
        lemma_order_transitive(raw_units(a), raw_units(b), raw_units(c));
    }
}

/// The order of keys is total: two keys are the same bytes, or one sorts
/// before the other.
pub proof fn lemma_key_total(a: Seq<u8>, b: Seq<u8>)
    ensures
        a == b || key_before(a, b) || key_before(b, a),
{
    lemma_order_total(key_units(a), key_units(b));
    lemma_order_total(raw_units(a), raw_units(b));
    if raw_units(a) == raw_units(b) {
        lemma_raw_units_injective(a, b);
    }
}

/// Keys in rising order stand for text in rising order: the text of the
/// first sorts before that of the second, or is the same.
pub proof fn lemma_key_order_is_text_order(a: Seq<u8>, b: Seq<u8>)
    requires
        key_before(a, b),
    ensures
        units_before(key_units(a), key_units(b)) || key_units(a) == key_units(b),
        !units_before(key_units(b), key_units(a)),
{
    lemma_order_irreflexive(key_units(a));
    if units_before(key_units(a), key_units(b)) {
        lemma_order_asymmetric(key_units(a), key_units(b));
    }
}

/// The value of a hexadecimal digit of either case.
pub fn hex_value_of(byte: u8) -> (r: Option<u16>)
    ensures
        r is Some <==> hex_value(byte) is Some,
        r matches Some(v) ==> v == hex_value(byte)->0,
{
    if 0x30 <= byte && byte <= 0x39 {
        Some((byte - 0x30) as u16)
    } else if 0x61 <= byte && byte <= 0x66 {
        Some((byte - 0x61 + 10) as u16)
    } else if 0x41 <= byte && byte <= 0x46 {
        Some((byte - 0x41 + 10) as u16)
    } else {
        None
    }
}

/// The code unit that a backslash and the given byte stand for.
pub fn short_escape_of(byte: u8) -> (r: Option<u16>)
    ensures
        r == short_escape(byte),
{
    if byte == 0x22 {
        Some(0x22)
    } else if byte == 0x5c {
        Some(0x5c)
    } else if byte == 0x2f {
        Some(0x2f)
    } else if byte == 0x62 {
        Some(0x08)
    } else if byte == 0x66 {
        Some(0x0c)
    } else if byte == 0x6e {
        Some(0x0a)
    } else if byte == 0x72 {
        Some(0x0d)
    } else if byte == 0x74 {
        Some(0x09)
    } else {
        None
    }
}

/// The code unit of the escape with four digits that begins at `at`.
pub fn long_escape_at(bytes: &[u8], at: usize) -> (r: Option<u16>)
    requires
        at < bytes@.len(),
    ensures
        r == long_escape(bytes@.skip(at as int)),
{
    let ghost rest = bytes@.skip(at as int);
    if bytes.len() - at < 6 || bytes[at] != 0x5c || bytes[at + 1] != 0x75 {
        return None;
    }
    assert(rest[0] == bytes@[at as int] && rest[1] == bytes@[at + 1]);
    assert(rest[2] == bytes@[at + 2] && rest[3] == bytes@[at + 3]);
    assert(rest[4] == bytes@[at + 4] && rest[5] == bytes@[at + 5]);
    match (
        hex_value_of(bytes[at + 2]),
        hex_value_of(bytes[at + 3]),
        hex_value_of(bytes[at + 4]),
        hex_value_of(bytes[at + 5]),
    ) {
        (Some(a), Some(b), Some(c), Some(d)) => Some(((a * 16 + b) * 16 + c) * 16 + d),
        _ => None,
    }
}

/// The character in UTF-8 that begins at `at`: its number and the length of
/// its bytes, where the bytes there are the well-formed encoding of one.
pub fn first_scalar_at(bytes: &[u8], at: usize) -> (r: Option<(u32, usize)>)
    requires
        at < bytes@.len(),
    ensures
        r is Some <==> valid_first_scalar(bytes@.skip(at as int)),
        r matches Some((v, n)) ==> {
            &&& v == decode_first_scalar(bytes@.skip(at as int))
            &&& n == length_of_first_scalar(bytes@.skip(at as int))
            &&& v <= 0x10FFFF
            &&& 1 <= n <= bytes@.len() - at
        },
{
    let ghost rest = bytes@.skip(at as int);
    let left: usize = bytes.len() - at;
    let b0: u8 = bytes[at];
    assert(rest[0] == b0);
    if b0 <= 0x7f {
        assert((b0 & 0x7f) as u32 <= 0x7f) by (bit_vector);
        Some(((b0 & 0x7F) as u32, 1))
    } else if 0xc0 <= b0 && b0 <= 0xdf {
        if left < 2 {
            return None;
        }
        let b1: u8 = bytes[at + 1];
        assert(rest[1] == b1);
        if !(0x80 <= b1 && b1 <= 0xbf) {
            return None;
        }
        let v: u32 = (((b0 & 0x1F) as u32) << 6) | ((b1 & 0x3f) as u32);
        assert(v <= 0x7ff) by (bit_vector)
            requires
                v == (((b0 & 0x1F) as u32) << 6) | ((b1 & 0x3f) as u32),
        ;
        if 0x80 <= v {
            Some((v, 2))
        } else {
            None
        }
    } else if 0xe0 <= b0 && b0 <= 0xef {
        if left < 3 {
            return None;
        }
        let b1: u8 = bytes[at + 1];
        let b2: u8 = bytes[at + 2];
        assert(rest[1] == b1 && rest[2] == b2);
        if !(0x80 <= b1 && b1 <= 0xbf && 0x80 <= b2 && b2 <= 0xbf) {
            return None;
        }
        let v: u32 = (((b0 & 0x0F) as u32) << 12) | (((b1 & 0x3f) as u32) << 6) | ((b2
            & 0x3f) as u32);
        assert(v <= 0xffff) by (bit_vector)
            requires
                v == (((b0 & 0x0F) as u32) << 12) | (((b1 & 0x3f) as u32) << 6) | ((b2
                    & 0x3f) as u32),
        ;
        if 0x800 <= v && !(0xD800 <= v && v <= 0xDFFF) {
            Some((v, 3))
        } else {
            None
        }
    } else if 0xf0 <= b0 && b0 <= 0xf7 {
        if left < 4 {
            return None;
        }
        let b1: u8 = bytes[at + 1];
        let b2: u8 = bytes[at + 2];
        let b3: u8 = bytes[at + 3];
        assert(rest[1] == b1 && rest[2] == b2 && rest[3] == b3);
        if !(0x80 <= b1 && b1 <= 0xbf && 0x80 <= b2 && b2 <= 0xbf && 0x80 <= b3 && b3 <= 0xbf) {
            return None;
        }
        let v: u32 = (((b0 & 0x07) as u32) << 18) | (((b1 & 0x3f) as u32) << 12) | (((b2
            & 0x3f) as u32) << 6) | ((b3 & 0x3f) as u32);
        if 0x10000 <= v && v <= 0x10ffff {
            Some((v, 4))
        } else {
            None
        }
    } else {
        None
    }
}

/// Reads the code units of the text that the bytes of a key stand for.
pub fn read_key_units(bytes: &[u8]) -> (units: Vec<u16>)
    ensures
        units@ == key_units(bytes@),
{
    let mut units: Vec<u16> = Vec::new();
    let mut at: usize = 0;
    assert(bytes@.skip(0) =~= bytes@);
    assert(units@ + key_units(bytes@) =~= key_units(bytes@));
    while at < bytes.len()
        invariant
            at <= bytes@.len(),
            units@ + key_units(bytes@.skip(at as int)) == key_units(bytes@),
        decreases bytes@.len() - at,
    {
        let ghost rest = bytes@.skip(at as int);
        let ghost before = units@;
        let b0: u8 = bytes[at];
        let mut n: usize = 1;
        assert(rest[0] == b0);
        if b0 == 0x22 {
        } else if b0 == 0x5c {
            let short = if bytes.len() - at >= 2 {
                assert(rest[1] == bytes@[at + 1]);
                short_escape_of(bytes[at + 1])
            } else {
                None
            };
            match short {
                Some(unit) => {
                    units.push(unit);
                    n = 2;
                },
                None => match long_escape_at(bytes, at) {
                    Some(unit) => {
                        units.push(unit);
                        n = 6;
                    },
                    None => {
                        units.push(0x5c);
                    },
                },
            }
        } else if b0 < 0x80 {
            units.push(b0 as u16);
        } else {
            match first_scalar_at(bytes, at) {
                Some((v, len)) => {
                    push_scalar_units(&mut units, v);
                    n = len;
                },
                None => {
                    units.push(b0 as u16);
                },
            }
        }
        proof {
            assert(n == head_len(rest));
            assert(units@ =~= before + head_units(rest));
            assert(rest.skip(n as int) =~= bytes@.skip(at + n));
            assert(before + head_units(rest) + key_units(rest.skip(n as int)) =~= before + (
            head_units(rest) + key_units(rest.skip(n as int))));
        }
        at = at + n;
    }
    assert(bytes@.skip(at as int) =~= Seq::<u8>::empty());
    assert(units@ + Seq::<u16>::empty() =~= units@);
    units
}

/// Compares two keys whose code units are at hand: by the code units, and
/// where these are the same, by the bytes.
pub fn compare_keys(units: &[u16], key: &[u8], other_units: &[u16], other: &[u8]) -> (r: KeyOrder)
    requires
        units@ == key_units(key@),
        other_units@ == key_units(other@),
    ensures
        r == KeyOrder::Before <==> key_before(key@, other@),
        r == KeyOrder::Same <==> key@ == other@,
        r == KeyOrder::After <==> key_before(other@, key@),
{
    proof {
        lemma_key_irreflexive(key@);
        if key_before(key@, other@) {
            lemma_key_asymmetric(key@, other@);
        }
        if key_before(other@, key@) {
            lemma_key_asymmetric(other@, key@);
        }
        lemma_order_irreflexive(units@);
    }
    match key_order(units, other_units) {
        KeyOrder::Before => KeyOrder::Before,
        KeyOrder::After => KeyOrder::After,
        KeyOrder::Same => {
            let mut raw: Vec<u16> = Vec::new();
            let mut other_raw: Vec<u16> = Vec::new();
            push_raw_units(&mut raw, key);
            push_raw_units(&mut other_raw, other);
            assert(raw@ =~= raw_units(key@));
            assert(other_raw@ =~= raw_units(other@));
            let r = key_order(raw.as_slice(), other_raw.as_slice());
            proof {
                if raw_units(key@) == raw_units(other@) {
                    lemma_raw_units_injective(key@, other@);
                }
            }
            r
        },
    }
}

/// What a character becomes in a string is read back as the character,
/// whatever follows it.
pub proof fn lemma_character_read_back(c: char, rest: Seq<u8>)
    ensures
        key_units(escaped_char(c) + rest) == char_units(c) + key_units(rest),
{
    let piece = escaped_char(c);
    let bytes = piece + rest;
    let v = c as u32;
    vstd::utf8::char_is_scalar(c);
    lemma_escaped_of_character(c);
    assert forall|k: int| 0 <= k < piece.len() implies bytes[k] == piece[k] by {}
    if v < 0x80 {
        let b = c as u8;
        match CharEscape::of(b) {
            Some(CharEscape::AsciiControl(control)) => {
                assert(piece.len() == 6);
                assert(bytes[0] == piece[0] && bytes[1] == piece[1] && bytes[2] == piece[2]);
                assert(bytes[3] == piece[3] && bytes[4] == piece[4] && bytes[5] == piece[5]);
                assert(long_escape(bytes) == Some(control as u16));
            },
            Some(escape) => {
                assert(piece.len() == 2);
                assert(bytes[0] == piece[0] && bytes[1] == piece[1]);
            },
            None => {
                assert(piece.len() == 1);
                assert(bytes[0] == piece[0]);
            },
        }
        assert(head_len(bytes) == piece.len());
        assert(head_units(bytes) =~= char_units(c));
    } else {
        let one = encode_scalar(v);
        vstd::utf8::encode_utf8_first_scalar(seq![c]);
        assert(piece == one);
        assert(one[0] >= 0x80);
        assert(bytes[0] == one[0]);
        assert(vstd::utf8::valid_leading_and_continuation_bytes_first_codepoint(one));
        assert(one.len() >= 2 ==> bytes[1] == one[1]);
        assert(one.len() >= 3 ==> bytes[2] == one[2]);
        assert(one.len() >= 4 ==> bytes[3] == one[3]);
        assert(vstd::utf8::valid_leading_and_continuation_bytes_first_codepoint(bytes));
        assert(vstd::utf8::decode_first_codepoint(bytes) == vstd::utf8::decode_first_codepoint(
            one,
        ));
        assert(valid_first_scalar(bytes));
        assert(head_len(bytes) == piece.len());
        assert(head_units(bytes) =~= char_units(c));
    }
    assert(bytes.skip(piece.len() as int) =~= rest);
}

/// The escaped bytes of a text are read back as the text, whatever follows
/// them.
pub proof fn lemma_text_read_back(text: Seq<char>, rest: Seq<u8>)
    ensures
        key_units(escaped(encode_utf8(text)) + rest) == utf16_units(text) + key_units(rest),
    decreases text.len(),
{
    if text.len() == 0 {
        assert(escaped(encode_utf8(text)) + rest =~= rest);
        assert(utf16_units(text) + key_units(rest) =~= key_units(rest));
    } else {
        let c = text[0];
        let tail = text.drop_first();
        let after = escaped(encode_utf8(tail));
        vstd::utf8::char_is_scalar(c);
        lemma_escaped_concat(encode_scalar(c as u32), encode_utf8(tail));
        lemma_escaped_of_character(c);
        assert(escaped(encode_utf8(text)) == escaped_char(c) + after);
        assert(escaped(encode_utf8(text)) + rest =~= escaped_char(c) + (after + rest));
        lemma_character_read_back(c, after + rest);
        lemma_text_read_back(tail, rest);
        assert(text =~= seq![c] + tail);
        lemma_utf16_units_concat(seq![c], tail);
        assert(seq![c].drop_last() =~= Seq::<char>::empty());
        assert(utf16_units(Seq::<char>::empty()) =~= Seq::<u16>::empty());
        assert(seq![c].last() == c);
        assert(utf16_units(seq![c]) =~= char_units(c));
        assert(char_units(c) + (utf16_units(tail) + key_units(rest)) =~= utf16_units(text)
            + key_units(rest));
    }
}

/// The string token of a text stands for that text.
pub proof fn lemma_token_units(text: Seq<char>)
    ensures
        key_units(string_token(text)) == utf16_units(text),
{
    let quote = seq![0x22u8];
    let inner = escaped(encode_utf8(text));
    let token = string_token(text);
    assert(token =~= quote + (inner + quote));
    assert(head_len(token) == 1);
    assert(head_units(token) =~= Seq::<u16>::empty());
    assert(token.skip(1) =~= inner + quote);
    lemma_text_read_back(text, quote);
    assert(head_len(quote) == 1);
    assert(quote.skip(1) =~= Seq::<u8>::empty());
    assert(key_units(Seq::<u8>::empty()) =~= Seq::<u16>::empty());
    assert(head_units(quote) =~= Seq::<u16>::empty());
    assert(key_units(quote) =~= Seq::<u16>::empty());
    assert(key_units(token) =~= utf16_units(text));
}

/// Different texts have different string tokens.
pub proof fn lemma_token_injective(a: Seq<char>, b: Seq<char>)
    requires
        string_token(a) == string_token(b),
    ensures
        a == b,
{
    lemma_token_units(a);
    lemma_token_units(b);
    lemma_utf16_units_injective(a, b);
}

/// String tokens sort as the texts that they stand for.
pub proof fn lemma_token_order(a: Seq<char>, b: Seq<char>)
    ensures
        key_before(string_token(a), string_token(b)) <==> units_before(
            utf16_units(a),
            utf16_units(b),
        ),
{
    lemma_token_units(a);
    lemma_token_units(b);
    lemma_order_irreflexive(utf16_units(a));
    if utf16_units(a) == utf16_units(b) {
        lemma_utf16_units_injective(a, b);
        lemma_order_irreflexive(raw_units(string_token(a)));
    }
}

} // verus!
