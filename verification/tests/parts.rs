use jcs::buffer::Buffer;
use jcs::escape::{lower_hex, push_escaped, CharEscape};
use jcs::number::{classify_double, classify_single, FloatCategory, FloatNumber};
use jcs::key::{compare_keys, first_scalar_at, long_escape_at, read_key_units, short_escape_of};
use jcs::order::{key_order, push_raw_units, KeyOrder};

fn units_of(text: &str) -> Vec<u16> {
    let mut token: Vec<u8> = vec![b'"'];
    push_escaped(&mut token, text.as_bytes());
    token.push(b'"');
    read_key_units(&token)
}

#[test]
fn utf16_units_of_text() {
    assert_eq!(units_of(""), Vec::<u16>::new());
    assert_eq!(units_of("a\u{e9}"), vec![0x61, 0xe9]);
    assert_eq!(units_of("\u{ffff}"), vec![0xffff]);
    assert_eq!(units_of("\u{10000}"), vec![0xd800, 0xdc00]);
    assert_eq!(units_of("\u{1f600}"), vec![0xd83d, 0xde00]);
    assert_eq!(units_of("\u{10ffff}"), vec![0xdbff, 0xdfff]);
    let expected: Vec<u16> = "k\u{20ac}\u{1f600}z".encode_utf16().collect();
    assert_eq!(units_of("k\u{20ac}\u{1f600}z"), expected);
}

#[test]
fn raw_units_are_the_bytes() {
    let mut units: Vec<u16> = vec![1];
    push_raw_units(&mut units, &[0x31, 0xff]);
    assert_eq!(units, vec![1, 0x31, 0xff]);
}

#[test]
fn key_order_is_lexicographic_by_code_unit() {
    assert_eq!(key_order(&[], &[]), KeyOrder::Same);
    assert_eq!(key_order(&[], &[0]), KeyOrder::Before);
    assert_eq!(key_order(&[0], &[]), KeyOrder::After);
    assert_eq!(key_order(&[1, 2], &[1, 2]), KeyOrder::Same);
    assert_eq!(key_order(&[1, 2], &[1, 3]), KeyOrder::Before);
    assert_eq!(key_order(&[1, 2, 9], &[1, 3]), KeyOrder::Before);
    assert_eq!(key_order(&[2], &[1, 3]), KeyOrder::After);
    assert_eq!(key_order(&[1, 2], &[1, 2, 0]), KeyOrder::Before);
    assert_eq!(
        key_order(&units_of("\u{1f600}"), &units_of("\u{fb33}")),
        KeyOrder::Before
    );
    assert_eq!(
        key_order(&units_of("\u{20ac}"), &units_of("\u{1f600}")),
        KeyOrder::Before
    );
}

#[test]
fn classification_of_doubles() {
    assert_eq!(classify_double(0.0f64.to_bits()), FloatCategory::Zero);
    assert_eq!(classify_double((-0.0f64).to_bits()), FloatCategory::Zero);
    assert_eq!(classify_double(1.0f64.to_bits()), FloatCategory::Normal);
    assert_eq!(classify_double(f64::MAX.to_bits()), FloatCategory::Normal);
    assert_eq!(classify_double(f64::MIN_POSITIVE.to_bits()), FloatCategory::Normal);
    assert_eq!(classify_double(5e-324f64.to_bits()), FloatCategory::Subnormal);
    assert_eq!(classify_double(f64::NAN.to_bits()), FloatCategory::Nan);
    assert_eq!(classify_double(0xfff0_0000_0000_0001), FloatCategory::Nan);
    assert_eq!(classify_double(f64::INFINITY.to_bits()), FloatCategory::Infinite);
    assert_eq!(classify_double(f64::NEG_INFINITY.to_bits()), FloatCategory::Infinite);
}

#[test]
fn classification_of_singles() {
    assert_eq!(classify_single(0.0f32.to_bits()), FloatCategory::Zero);
    assert_eq!(classify_single((-0.0f32).to_bits()), FloatCategory::Zero);
    assert_eq!(classify_single(1.0f32.to_bits()), FloatCategory::Normal);
    assert_eq!(classify_single(1e-45f32.to_bits()), FloatCategory::Subnormal);
    assert_eq!(classify_single(f32::NAN.to_bits()), FloatCategory::Nan);
    assert_eq!(classify_single(f32::INFINITY.to_bits()), FloatCategory::Infinite);
    assert_eq!(classify_single(f32::NEG_INFINITY.to_bits()), FloatCategory::Infinite);
}

#[test]
fn classification_agrees_with_the_standard_library() {
    for value in [0.0f64, -0.0, 1.0, -1.5, 1e-310, f64::NAN, f64::INFINITY, f64::MIN_POSITIVE / 2.0] {
        let expected = match value.classify() {
            std::num::FpCategory::Nan => FloatCategory::Nan,
            std::num::FpCategory::Infinite => FloatCategory::Infinite,
            std::num::FpCategory::Zero => FloatCategory::Zero,
            std::num::FpCategory::Subnormal => FloatCategory::Subnormal,
            std::num::FpCategory::Normal => FloatCategory::Normal,
        };
        assert_eq!(classify_double(value.to_bits()), expected);
    }
}

#[test]
fn float_number_must_fit_the_scratch_buffer() {
    let number = FloatNumber::new(1.5f64.to_bits(), "1.5").unwrap();
    assert_eq!(number.get_bits(), 1.5f64.to_bits());
    assert_eq!(number.get_text(), "1.5");
    assert!(FloatNumber::new(0, "-1.2345678901234567e+300").is_some());
    let one = 1.0f64.to_bits();
    assert!(FloatNumber::new(one, "1234567890123456789012345").is_some());
    assert!(FloatNumber::new(one, "12345678901234567890123456").is_none());
    assert!(FloatNumber::new(5e-324f64.to_bits(), "12345678901234567890123456").is_none());
    assert!(FloatNumber::new(0, "12345678901234567890123456").is_some());
    assert!(FloatNumber::new(f64::NAN.to_bits(), "12345678901234567890123456").is_some());
    let copy = number.clone();
    assert_eq!(copy.get_text(), "1.5");
}

#[test]
fn scratch_buffer_holds_one_text() {
    assert_eq!(Buffer::SIZE, 25);
    let mut buffer = Buffer::new();
    assert_eq!(buffer.format_finite("-1.2345678901234567e+300"), b"-1.2345678901234567e+300");
    assert_eq!(buffer.format_finite("0.1"), b"0.1");
    assert_eq!(buffer.format_finite(""), b"");
    assert_eq!(buffer.format_finite("1234567890123456789012345").len(), 25);
}

#[test]
fn escape_of_each_byte() {
    assert_eq!(CharEscape::for_byte(b'"'), Some(CharEscape::Quote));
    assert_eq!(CharEscape::for_byte(b'\\'), Some(CharEscape::ReverseSolidus));
    assert_eq!(CharEscape::for_byte(b'/'), Some(CharEscape::Solidus));
    assert_eq!(CharEscape::for_byte(0x08), Some(CharEscape::Backspace));
    assert_eq!(CharEscape::for_byte(0x0c), Some(CharEscape::FormFeed));
    assert_eq!(CharEscape::for_byte(b'\n'), Some(CharEscape::LineFeed));
    assert_eq!(CharEscape::for_byte(b'\r'), Some(CharEscape::CarriageReturn));
    assert_eq!(CharEscape::for_byte(b'\t'), Some(CharEscape::Tab));
    assert_eq!(CharEscape::for_byte(0x00), Some(CharEscape::AsciiControl(0x00)));
    assert_eq!(CharEscape::for_byte(0x0b), Some(CharEscape::AsciiControl(0x0b)));
    assert_eq!(CharEscape::for_byte(0x1f), Some(CharEscape::AsciiControl(0x1f)));
    assert_eq!(CharEscape::for_byte(b' '), None);
    assert_eq!(CharEscape::for_byte(b'a'), None);
    assert_eq!(CharEscape::for_byte(0x7f), None);
    assert_eq!(CharEscape::for_byte(0x80), None);
    assert_eq!(CharEscape::for_byte(0xff), None);
}

#[test]
fn escape_text() {
    let mut text: Vec<u8> = Vec::new();
    CharEscape::Tab.push_text(&mut text);
    CharEscape::AsciiControl(0x1e).push_text(&mut text);
    assert_eq!(text, b"\\t\\u001e".to_vec());
    assert_eq!(read_key_units(&text), vec![0x09, 0x1e]);
}

#[test]
fn hex_digits_are_lower_case() {
    let digits: Vec<u8> = (0u8..16).map(lower_hex).collect();
    assert_eq!(digits, b"0123456789abcdef".to_vec());
}

#[test]
fn escaping_goes_byte_by_byte() {
    let mut text = b">".to_vec();
    push_escaped(&mut text, "a\"\u{20ac}\u{7}".as_bytes());
    assert_eq!(text, b">a\\\"\xe2\x82\xac\\u0007".to_vec());
}

#[test]
fn key_bytes_are_read_as_their_text() {
    assert_eq!(read_key_units(b""), Vec::<u16>::new());
    assert_eq!(read_key_units(b"\"\""), Vec::<u16>::new());
    assert_eq!(read_key_units(b"\"ab\""), vec![0x61, 0x62]);
    assert_eq!(read_key_units(b"10"), vec![0x31, 0x30]);
    assert_eq!(
        read_key_units(b"\"\\\"\\\\\\/\\b\\f\\n\\r\\t\""),
        vec![0x22, 0x5c, 0x2f, 0x08, 0x0c, 0x0a, 0x0d, 0x09]
    );
    assert_eq!(read_key_units(b"\"\\u0000\\u001f\\u00E9\\uD83d\\uDE00\""), vec![0, 0x1f, 0xe9, 0xd83d, 0xde00]);
    assert_eq!(
        read_key_units("\"\u{e9}\u{20ac}\u{1f600}\u{fb33}\"".as_bytes()),
        vec![0xe9, 0x20ac, 0xd83d, 0xde00, 0xfb33]
    );
}

#[test]
fn key_bytes_that_are_no_token_are_read_byte_by_byte() {
    assert_eq!(read_key_units(b"\\"), vec![0x5c]);
    assert_eq!(read_key_units(b"\\x"), vec![0x5c, 0x78]);
    assert_eq!(read_key_units(b"\\u12"), vec![0x5c, 0x75, 0x31, 0x32]);
    assert_eq!(read_key_units(b"\\u12g4"), vec![0x5c, 0x75, 0x31, 0x32, 0x67, 0x34]);
    assert_eq!(read_key_units(&[0x80]), vec![0x80]);
    assert_eq!(read_key_units(&[0xc3]), vec![0xc3]);
    assert_eq!(read_key_units(&[0xc0, 0x80]), vec![0xc0, 0x80]);
    assert_eq!(read_key_units(&[0xe0, 0x80, 0x80]), vec![0xe0, 0x80, 0x80]);
    assert_eq!(read_key_units(&[0xed, 0xa0, 0x80]), vec![0xed, 0xa0, 0x80]);
    assert_eq!(read_key_units(&[0xf4, 0x90, 0x80, 0x80]), vec![0xf4, 0x90, 0x80, 0x80]);
    assert_eq!(read_key_units(&[0xf8, 0x61]), vec![0xf8, 0x61]);
    assert_eq!(read_key_units(&[0xe2, 0x82, 0x61]), vec![0xe2, 0x82, 0x61]);
}

#[test]
fn key_text_agrees_with_the_standard_library() {
    for text in ["", "a", "\n\"\\/", "\u{0}\u{1f}\u{7f}\u{80}", "k\u{20ac}\u{1f600}z\u{10ffff}\u{fb33}"] {
        let mut token: Vec<u8> = vec![b'"'];
        push_escaped(&mut token, text.as_bytes());
        token.push(b'"');
        let expected: Vec<u16> = text.encode_utf16().collect();
        assert_eq!(read_key_units(&token), expected);
    }
}

#[test]
fn pieces_of_a_key() {
    assert_eq!(short_escape_of(b'n'), Some(0x0a));
    assert_eq!(short_escape_of(b'/'), Some(0x2f));
    assert_eq!(short_escape_of(b'u'), None);
    assert_eq!(short_escape_of(b'x'), None);
    assert_eq!(long_escape_at(b"ab\\uAb09", 2), Some(0xab09));
    assert_eq!(long_escape_at(b"ab\\uAb0", 2), None);
    assert_eq!(long_escape_at(b"ab\\uAb0z", 2), None);
    assert_eq!(first_scalar_at(b"a", 0), Some((0x61, 1)));
    assert_eq!(first_scalar_at("x\u{e9}".as_bytes(), 1), Some((0xe9, 2)));
    assert_eq!(first_scalar_at("\u{20ac}".as_bytes(), 0), Some((0x20ac, 3)));
    assert_eq!(first_scalar_at("\u{1f600}".as_bytes(), 0), Some((0x1f600, 4)));
    assert_eq!(first_scalar_at(&[0xc1, 0xbf], 0), None);
    assert_eq!(first_scalar_at(&[0xe2, 0x82], 0), None);
}

#[test]
fn keys_compare_by_text_then_by_bytes() {
    let compare = |a: &[u8], b: &[u8]| compare_keys(&read_key_units(a), a, &read_key_units(b), b);
    assert_eq!(compare(b"\"a\"", b"\"a\""), KeyOrder::Same);
    assert_eq!(compare(b"\"a\"", b"\"b\""), KeyOrder::Before);
    assert_eq!(compare(b"\"b\"", b"\"a\""), KeyOrder::After);
    assert_eq!(compare(b"\"\\n\"", b"\" \""), KeyOrder::Before);
    assert_eq!(compare(b"\"/\"", b"\"\\/\""), KeyOrder::Before);
    assert_eq!(compare(b"\"\\/\"", b"\"/\""), KeyOrder::After);
    assert_eq!(compare("\"\u{1f600}\"".as_bytes(), "\"\u{fb33}\"".as_bytes()), KeyOrder::Before);
    assert_eq!(compare(b"a", b"\"a\""), KeyOrder::After);
}
