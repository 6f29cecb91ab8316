use jcs::entry::{Entry, MemberList};
use jcs::error::EncodingError;
use jcs::escape::CharEscape;
use jcs::number::{FloatCategory, FloatNumber};
use jcs::ser::JcsFormatter;
use jcs::value::{JsonNumber, JsonValue};

fn shortest(value: f64) -> String {
    ryu_js::Buffer::new().format(value).to_string()
}

fn shortest_single(value: f32) -> String {
    ryu_js::Buffer::new().format(value).to_string()
}

fn write_key(formatter: &mut JcsFormatter, sink: &mut Vec<u8>, first: bool, key: &str) {
    formatter.begin_object_key(sink, first).unwrap();
    formatter.begin_string(sink).unwrap();
    formatter.write_string_fragment(sink, key).unwrap();
    formatter.end_string(sink).unwrap();
    formatter.end_object_key(sink).unwrap();
    formatter.begin_object_value(sink).unwrap();
}

#[test]
fn events_of_an_object_give_sorted_members() {
    let mut formatter = JcsFormatter::new();
    let mut sink: Vec<u8> = Vec::new();
    formatter.begin_object(&mut sink).unwrap();
    assert_eq!(sink, b"{".to_vec());
    write_key(&mut formatter, &mut sink, true, "b");
    formatter.write_u8(&mut sink, 1).unwrap();
    formatter.end_object_value(&mut sink).unwrap();
    write_key(&mut formatter, &mut sink, false, "a");
    formatter.write_u8(&mut sink, 2).unwrap();
    formatter.end_object_value(&mut sink).unwrap();
    assert_eq!(sink, b"{".to_vec());
    formatter.end_object(&mut sink).unwrap();
    assert_eq!(sink, b"{\"a\":2,\"b\":1}".to_vec());
}

#[test]
fn events_of_nested_objects_flush_into_the_parent() {
    let mut formatter = JcsFormatter::new();
    let mut sink: Vec<u8> = Vec::new();
    formatter.begin_object(&mut sink).unwrap();
    write_key(&mut formatter, &mut sink, true, "z");
    formatter.begin_object(&mut sink).unwrap();
    write_key(&mut formatter, &mut sink, true, "b");
    formatter.write_i32(&mut sink, 1).unwrap();
    formatter.end_object_value(&mut sink).unwrap();
    write_key(&mut formatter, &mut sink, false, "a");
    formatter.write_i32(&mut sink, 2).unwrap();
    formatter.end_object_value(&mut sink).unwrap();
    formatter.end_object(&mut sink).unwrap();
    formatter.end_object_value(&mut sink).unwrap();
    write_key(&mut formatter, &mut sink, false, "y");
    formatter.write_i32(&mut sink, 1).unwrap();
    formatter.end_object_value(&mut sink).unwrap();
    assert_eq!(sink, b"{".to_vec());
    formatter.end_object(&mut sink).unwrap();
    assert_eq!(sink, b"{\"y\":1,\"z\":{\"a\":2,\"b\":1}}".to_vec());
}

#[test]
fn events_of_an_array_stream_to_the_sink() {
    let mut formatter = JcsFormatter::new();
    let mut sink: Vec<u8> = Vec::new();
    formatter.begin_array(&mut sink).unwrap();
    formatter.begin_array_value(&mut sink, true).unwrap();
    formatter.write_u64(&mut sink, 3).unwrap();
    formatter.end_array_value(&mut sink).unwrap();
    assert_eq!(sink, b"[3".to_vec());
    formatter.begin_array_value(&mut sink, false).unwrap();
    formatter.write_null(&mut sink).unwrap();
    formatter.end_array_value(&mut sink).unwrap();
    formatter.begin_array_value(&mut sink, false).unwrap();
    formatter.write_bool(&mut sink, true).unwrap();
    formatter.end_array_value(&mut sink).unwrap();
    formatter.begin_array_value(&mut sink, false).unwrap();
    formatter.write_bool(&mut sink, false).unwrap();
    formatter.end_array_value(&mut sink).unwrap();
    formatter.end_array(&mut sink).unwrap();
    assert_eq!(sink, b"[3,null,true,false]".to_vec());
}

#[test]
fn end_object_without_an_open_object_is_unbalanced() {
    let mut formatter = JcsFormatter::new();
    let mut sink = b"[".to_vec();
    assert_eq!(formatter.end_object(&mut sink), Err(EncodingError::UnbalancedScope));
    assert_eq!(sink, b"[".to_vec());
}

#[test]
fn member_events_without_an_open_object_are_unbalanced() {
    let mut formatter = JcsFormatter::new();
    let mut sink: Vec<u8> = Vec::new();
    assert_eq!(formatter.end_object_value(&mut sink), Err(EncodingError::UnbalancedScope));
    assert_eq!(formatter.begin_object_key(&mut sink, true), Err(EncodingError::UnbalancedScope));
    assert_eq!(formatter.end_object_key(&mut sink), Err(EncodingError::UnbalancedScope));
    assert_eq!(formatter.begin_object_value(&mut sink), Ok(()));
    assert!(sink.is_empty());
    formatter.begin_object(&mut sink).unwrap();
    formatter.end_object(&mut sink).unwrap();
    assert_eq!(formatter.end_object(&mut sink), Err(EncodingError::UnbalancedScope));
    assert_eq!(sink, b"{}".to_vec());
}

#[test]
fn entry_mut_gives_the_innermost_frame() {
    let mut formatter = JcsFormatter::new();
    let mut sink: Vec<u8> = Vec::new();
    assert_eq!(formatter.entry_mut().err(), Some(EncodingError::UnbalancedScope));
    formatter.begin_object(&mut sink).unwrap();
    assert!(formatter.entry_mut().unwrap().key_phase);
    formatter.entry_mut().unwrap().key_phase = false;
    assert!(!formatter.writing_key());
    formatter.write_null(&mut sink).unwrap();
    assert_eq!(formatter.entry_mut().unwrap().pending_value, b"null".to_vec());
}

#[test]
fn scope_picks_the_destination() {
    let mut formatter = JcsFormatter::new();
    let mut sink: Vec<u8> = Vec::new();
    formatter.scope(&mut sink).push(b'a');
    assert_eq!(sink, b"a".to_vec());
    formatter.begin_object(&mut sink).unwrap();
    formatter.scope(&mut sink).push(b'k');
    formatter.end_object_key(&mut sink).unwrap();
    formatter.scope(&mut sink).push(b'v');
    assert_eq!(sink, b"a{".to_vec());
    let entry = formatter.entry_mut().unwrap();
    assert_eq!(entry.pending_key, b"k".to_vec());
    assert_eq!(entry.pending_value, b"v".to_vec());
}

#[test]
fn begin_object_key_drops_what_was_written_for_a_key() {
    let mut formatter = JcsFormatter::new();
    let mut sink: Vec<u8> = Vec::new();
    formatter.begin_object(&mut sink).unwrap();
    formatter.write_null(&mut sink).unwrap();
    write_key(&mut formatter, &mut sink, true, "k");
    formatter.write_u16(&mut sink, 65535).unwrap();
    formatter.end_object_value(&mut sink).unwrap();
    formatter.end_object(&mut sink).unwrap();
    assert_eq!(sink, b"{\"k\":65535}".to_vec());
}

#[test]
fn unfinished_member_is_dropped_when_the_object_closes() {
    let mut formatter = JcsFormatter::new();
    let mut sink: Vec<u8> = Vec::new();
    formatter.begin_object(&mut sink).unwrap();
    write_key(&mut formatter, &mut sink, true, "done");
    formatter.write_i8(&mut sink, -128).unwrap();
    formatter.end_object_value(&mut sink).unwrap();
    write_key(&mut formatter, &mut sink, false, "dangling");
    formatter.write_i8(&mut sink, 1).unwrap();
    formatter.end_object(&mut sink).unwrap();
    assert_eq!(sink, b"{\"done\":-128}".to_vec());
}

#[test]
fn integer_keys_sort_by_their_digits() {
    let mut formatter = JcsFormatter::new();
    let mut sink: Vec<u8> = Vec::new();
    formatter.begin_object(&mut sink).unwrap();
    for (at, key) in [9u64, 10, 100].iter().enumerate() {
        formatter.begin_object_key(&mut sink, at == 0).unwrap();
        formatter.begin_string(&mut sink).unwrap();
        formatter.write_u64(&mut sink, *key).unwrap();
        formatter.end_string(&mut sink).unwrap();
        formatter.end_object_key(&mut sink).unwrap();
        formatter.begin_object_value(&mut sink).unwrap();
        formatter.write_bool(&mut sink, true).unwrap();
        formatter.end_object_value(&mut sink).unwrap();
    }
    formatter.end_object(&mut sink).unwrap();
    assert_eq!(sink, b"{\"10\":true,\"100\":true,\"9\":true}".to_vec());
}

#[test]
fn escaped_and_plain_key_with_one_text_are_one_key() {
    let mut formatter = JcsFormatter::new();
    let mut sink: Vec<u8> = Vec::new();
    formatter.begin_object(&mut sink).unwrap();
    formatter.begin_object_key(&mut sink, true).unwrap();
    formatter.begin_string(&mut sink).unwrap();
    formatter.write_string_fragment(&mut sink, "a").unwrap();
    formatter.write_char_escape(&mut sink, CharEscape::LineFeed).unwrap();
    formatter.end_string(&mut sink).unwrap();
    formatter.end_object_key(&mut sink).unwrap();
    formatter.write_u8(&mut sink, 1).unwrap();
    formatter.end_object_value(&mut sink).unwrap();
    write_key(&mut formatter, &mut sink, false, "a\n");
    formatter.write_u8(&mut sink, 2).unwrap();
    formatter.end_object_value(&mut sink).unwrap();
    formatter.end_object(&mut sink).unwrap();
    assert_eq!(sink, b"{\"a\\n\":2}".to_vec());
}

#[test]
fn integers_of_every_width() {
    let mut formatter = JcsFormatter::new();
    let mut sink: Vec<u8> = Vec::new();
    formatter.write_i8(&mut sink, -128).unwrap();
    sink.push(b' ');
    formatter.write_i16(&mut sink, -32768).unwrap();
    sink.push(b' ');
    formatter.write_i32(&mut sink, -2147483648).unwrap();
    sink.push(b' ');
    formatter.write_i64(&mut sink, 9223372036854775807).unwrap();
    sink.push(b' ');
    formatter.write_u8(&mut sink, 255).unwrap();
    sink.push(b' ');
    formatter.write_u16(&mut sink, 0).unwrap();
    sink.push(b' ');
    formatter.write_u32(&mut sink, 4294967295).unwrap();
    sink.push(b' ');
    formatter.write_u64(&mut sink, 1000).unwrap();
    assert_eq!(
        String::from_utf8(sink).unwrap(),
        "-128 -32768 -2147483648 9223372036854775807 255 0 4294967295 1000"
    );
}

#[test]
fn doubles_by_bits_and_text() {
    let mut formatter = JcsFormatter::new();
    let mut sink: Vec<u8> = Vec::new();
    for value in [0.0f64, -0.0, 1.0, 0.1, -2.5e-10, 5e-324, 1.7976931348623157e308] {
        formatter.write_f64(&mut sink, value.to_bits(), &shortest(value)).unwrap();
        sink.push(b' ');
    }
    assert_eq!(
        String::from_utf8(sink).unwrap(),
        "0 0 1 0.1 -2.5e-10 5e-324 1.7976931348623157e+308 "
    );
}

#[test]
fn singles_by_bits_and_text() {
    let mut formatter = JcsFormatter::new();
    let mut sink: Vec<u8> = Vec::new();
    for value in [0.0f32, -0.0, 1.0, 0.1, 3.4028235e38, 1e-45] {
        formatter.write_f32(&mut sink, value.to_bits(), &shortest_single(value)).unwrap();
        sink.push(b' ');
    }
    assert_eq!(
        String::from_utf8(sink).unwrap(),
        "0 0 1 0.1 3.4028235e+38 1e-45 "
    );
}

#[test]
fn non_finite_floats_write_nothing() {
    let mut formatter = JcsFormatter::new();
    let mut sink = b"[".to_vec();
    for value in [f64::NAN, f64::INFINITY, f64::NEG_INFINITY] {
        assert_eq!(
            formatter.write_f64(&mut sink, value.to_bits(), &shortest(value)),
            Err(EncodingError::NonFiniteNumber)
        );
    }
    for value in [f32::NAN, f32::INFINITY, f32::NEG_INFINITY] {
        assert_eq!(
            formatter.write_f32(&mut sink, value.to_bits(), &shortest_single(value)),
            Err(EncodingError::NonFiniteNumber)
        );
    }
    assert_eq!(sink, b"[".to_vec());
}

#[test]
fn write_float_goes_by_the_category() {
    let mut formatter = JcsFormatter::new();
    let mut sink: Vec<u8> = Vec::new();
    assert_eq!(formatter.write_float(&mut sink, FloatCategory::Zero, "-0"), Ok(()));
    assert_eq!(formatter.write_float(&mut sink, FloatCategory::Normal, "1.5"), Ok(()));
    assert_eq!(formatter.write_float(&mut sink, FloatCategory::Subnormal, "5e-324"), Ok(()));
    assert_eq!(
        formatter.write_float(&mut sink, FloatCategory::Nan, "NaN"),
        Err(EncodingError::NonFiniteNumber)
    );
    assert_eq!(
        formatter.write_float(&mut sink, FloatCategory::Infinite, "Infinity"),
        Err(EncodingError::NonFiniteNumber)
    );
    assert_eq!(sink, b"01.55e-324".to_vec());
}

#[test]
fn char_escapes() {
    let mut formatter = JcsFormatter::new();
    let mut sink: Vec<u8> = Vec::new();
    for escape in [
        CharEscape::Quote,
        CharEscape::ReverseSolidus,
        CharEscape::Solidus,
        CharEscape::Backspace,
        CharEscape::FormFeed,
        CharEscape::LineFeed,
        CharEscape::CarriageReturn,
        CharEscape::Tab,
        CharEscape::AsciiControl(0x00),
        CharEscape::AsciiControl(0x1f),
        CharEscape::AsciiControl(0x1a),
    ] {
        formatter.write_char_escape(&mut sink, escape).unwrap();
    }
    assert_eq!(
        String::from_utf8(sink).unwrap(),
        "\\\"\\\\\\/\\b\\f\\n\\r\\t\\u0000\\u001f\\u001a"
    );
}

#[test]
fn string_fragment_escapes_what_has_an_escape() {
    let mut formatter = JcsFormatter::new();
    let mut sink: Vec<u8> = Vec::new();
    formatter.begin_string(&mut sink).unwrap();
    formatter.write_string_fragment(&mut sink, "a/b\u{e9}").unwrap();
    formatter.write_string_fragment(&mut sink, "\u{1}c").unwrap();
    formatter.end_string(&mut sink).unwrap();
    assert_eq!(String::from_utf8(sink).unwrap(), "\"a\\/b\u{e9}\\u0001c\"");
}

#[test]
fn raw_fragment_is_written_in_canonical_form() {
    let mut formatter = JcsFormatter::new();
    let mut sink: Vec<u8> = Vec::new();
    formatter.begin_array(&mut sink).unwrap();
    formatter.begin_array_value(&mut sink, true).unwrap();
    formatter
        .write_raw_fragment(&mut sink, " { \"b\" : 1.0e2 , \"a\" : [ 0.0 , -0.0, 12345678901234567890 ] } ")
        .unwrap();
    formatter.end_array_value(&mut sink).unwrap();
    formatter.end_array(&mut sink).unwrap();
    assert_eq!(
        String::from_utf8(sink).unwrap(),
        "[{\"a\":[0,0,12345678901234567890],\"b\":100}]"
    );
}

#[test]
fn raw_fragment_inside_an_object_is_held_back() {
    let mut formatter = JcsFormatter::new();
    let mut sink: Vec<u8> = Vec::new();
    formatter.begin_object(&mut sink).unwrap();
    write_key(&mut formatter, &mut sink, true, "n");
    formatter.write_raw_fragment(&mut sink, "18446744073709551615").unwrap();
    formatter.end_object_value(&mut sink).unwrap();
    write_key(&mut formatter, &mut sink, false, "m");
    formatter.write_raw_fragment(&mut sink, "{\"y\":null,\"x\":null}").unwrap();
    formatter.end_object_value(&mut sink).unwrap();
    assert_eq!(sink, b"{".to_vec());
    formatter.end_object(&mut sink).unwrap();
    assert_eq!(
        String::from_utf8(sink).unwrap(),
        "{\"m\":{\"x\":null,\"y\":null},\"n\":18446744073709551615}"
    );
}

#[test]
fn malformed_raw_fragment_writes_nothing() {
    let mut formatter = JcsFormatter::new();
    let mut sink = b"[".to_vec();
    assert_eq!(
        formatter.write_raw_fragment(&mut sink, "{\"a\":"),
        Err(EncodingError::MalformedRawFragment)
    );
    assert_eq!(
        formatter.write_raw_fragment(&mut sink, "nul"),
        Err(EncodingError::MalformedRawFragment)
    );
    assert_eq!(sink, b"[".to_vec());
}

#[test]
fn raw_value_is_encoded_on_its_own() {
    let mut formatter = JcsFormatter::new();
    let mut sink: Vec<u8> = Vec::new();
    formatter.begin_object(&mut sink).unwrap();
    formatter.end_object_key(&mut sink).unwrap();
    let value = JsonValue::Array(vec![JsonValue::Number(JsonNumber::NegInt(-7))]);
    formatter.write_raw_value(&mut sink, &value).unwrap();
    assert_eq!(formatter.entry_mut().unwrap().pending_value, b"[-7]".to_vec());
}

#[test]
fn frame_takes_writes_by_phase() {
    let mut entry = Entry::new();
    assert!(entry.key_phase);
    entry.write(b"\"k\"");
    entry.end_key();
    entry.write(b"1");
    assert_eq!(entry.pending_key, b"\"k\"".to_vec());
    assert_eq!(entry.pending_value, b"1".to_vec());
    entry.end_value();
    assert!(entry.pending_key.is_empty());
    assert!(entry.pending_value.is_empty());
    let mut text: Vec<u8> = Vec::new();
    entry.members.write_text(&mut text);
    assert_eq!(text, b"\"k\":1".to_vec());
    entry.begin_key();
    assert!(entry.key_phase);
    entry.buffer_mut().push(b'x');
    assert_eq!(entry.pending_key, b"x".to_vec());
}

#[test]
fn member_list_sorts_and_replaces() {
    let mut members = MemberList::new();
    for (key, value) in [
        ("\"b\"", "1"),
        ("\"a\"", "2"),
        ("\"aa\"", "3"),
        ("\"b\"", "4"),
        ("\"\"", "5"),
    ] {
        members.insert(key.as_bytes().to_vec(), value.as_bytes().to_vec());
    }
    let mut text: Vec<u8> = Vec::new();
    members.write_text(&mut text);
    assert_eq!(
        String::from_utf8(text).unwrap(),
        "\"\":5,\"a\":2,\"aa\":3,\"b\":4"
    );
}

#[test]
fn member_list_keeps_keys_with_other_bytes_and_one_text() {
    let mut members = MemberList::new();
    for (key, value) in [
        ("\"\\/\"", "1"),
        ("\"b\"", "2"),
        ("\"/\"", "3"),
        ("\"\\u002f\"", "4"),
        ("\"\\/\"", "5"),
        ("\"\\u002F\"", "6"),
        ("\"!\"", "7"),
    ] {
        members.insert(key.as_bytes().to_vec(), value.as_bytes().to_vec());
    }
    let mut text: Vec<u8> = Vec::new();
    members.write_text(&mut text);
    assert_eq!(
        String::from_utf8(text).unwrap(),
        "\"!\":7,\"/\":3,\"\\/\":5,\"\\u002F\":6,\"\\u002f\":4,\"b\":2"
    );
}

fn push_member(formatter: &mut JcsFormatter, sink: &mut Vec<u8>, key: &[u8], value: &[u8]) {
    formatter.begin_object_key(sink, false).unwrap();
    formatter.scope(sink).extend_from_slice(key);
    formatter.end_object_key(sink).unwrap();
    formatter.begin_object_value(sink).unwrap();
    formatter.scope(sink).extend_from_slice(value);
    formatter.end_object_value(sink).unwrap();
}

#[test]
fn keys_pushed_through_the_scope_are_members_of_their_own() {
    let mut formatter = JcsFormatter::new();
    let mut sink: Vec<u8> = Vec::new();
    formatter.begin_object(&mut sink).unwrap();
    push_member(&mut formatter, &mut sink, b"\"b\"", b"1");
    push_member(&mut formatter, &mut sink, b"\"a\"", b"2");
    push_member(&mut formatter, &mut sink, b"\"b\"", b"3");
    formatter.end_object(&mut sink).unwrap();
    assert_eq!(sink, b"{\"a\":2,\"b\":3}".to_vec());
}

#[test]
fn keys_sort_by_their_text_however_they_were_written() {
    let mut formatter = JcsFormatter::new();
    let mut sink: Vec<u8> = Vec::new();
    formatter.begin_object(&mut sink).unwrap();
    push_member(&mut formatter, &mut sink, b"\"z\"", b"1");
    write_key(&mut formatter, &mut sink, false, "a");
    formatter.write_u8(&mut sink, 2).unwrap();
    formatter.end_object_value(&mut sink).unwrap();
    push_member(&mut formatter, &mut sink, "\"\u{fb33}\"".as_bytes(), b"3");
    push_member(&mut formatter, &mut sink, b"\"\\ud83d\\ude00\"", b"4");
    push_member(&mut formatter, &mut sink, b"\"\\n\"", b"5");
    formatter.end_object(&mut sink).unwrap();
    assert_eq!(
        String::from_utf8(sink).unwrap(),
        "{\"\\n\":5,\"a\":2,\"z\":1,\"\\ud83d\\ude00\":4,\"\u{fb33}\":3}"
    );
}

#[test]
fn depth_follows_the_open_objects() {
    let mut formatter = JcsFormatter::default();
    let mut sink: Vec<u8> = Vec::new();
    assert_eq!(formatter.depth(), 0);
    formatter.begin_object(&mut sink).unwrap();
    formatter.end_object_key(&mut sink).unwrap();
    formatter.begin_array(&mut sink).unwrap();
    formatter.begin_object(&mut sink).unwrap();
    assert_eq!(formatter.depth(), 2);
    formatter.end_object(&mut sink).unwrap();
    assert_eq!(formatter.depth(), 1);
    formatter.end_array(&mut sink).unwrap();
    formatter.end_object(&mut sink).unwrap();
    assert_eq!(formatter.depth(), 0);
    assert_eq!(sink, b"{}".to_vec());
}

#[test]
fn a_copy_of_the_encoder_goes_its_own_way() {
    let mut formatter = JcsFormatter::new();
    let mut sink: Vec<u8> = Vec::new();
    formatter.begin_object(&mut sink).unwrap();
    write_key(&mut formatter, &mut sink, true, "b");
    formatter.write_u8(&mut sink, 1).unwrap();
    formatter.end_object_value(&mut sink).unwrap();
    let mut copy = formatter.clone();
    let mut other = sink.clone();
    write_key(&mut copy, &mut other, false, "a");
    copy.write_u8(&mut other, 2).unwrap();
    copy.end_object_value(&mut other).unwrap();
    copy.end_object(&mut other).unwrap();
    formatter.end_object(&mut sink).unwrap();
    assert_eq!(other, b"{\"a\":2,\"b\":1}".to_vec());
    assert_eq!(sink, b"{\"b\":1}".to_vec());
}

#[test]
fn write_double_takes_a_checked_number() {
    let mut formatter = JcsFormatter::new();
    let mut sink: Vec<u8> = Vec::new();
    let half = FloatNumber::new(0.5f64.to_bits(), &shortest(0.5)).unwrap();
    let zero = FloatNumber::new((-0.0f64).to_bits(), &shortest(-0.0)).unwrap();
    let nan = FloatNumber::new(f64::NAN.to_bits(), &shortest(f64::NAN)).unwrap();
    assert_eq!(formatter.write_double(&mut sink, &half), Ok(()));
    assert_eq!(formatter.write_double(&mut sink, &zero), Ok(()));
    assert_eq!(formatter.write_double(&mut sink, &nan), Err(EncodingError::NonFiniteNumber));
    assert_eq!(sink, b"0.50".to_vec());
}

#[test]
fn write_float_reads_the_text_only_where_it_is_written() {
    let long = "12345678901234567890123456";
    let mut formatter = JcsFormatter::new();
    let mut sink: Vec<u8> = Vec::new();
    assert_eq!(formatter.write_float(&mut sink, FloatCategory::Zero, long), Ok(()));
    assert_eq!(formatter.write_f64(&mut sink, (-0.0f64).to_bits(), long), Ok(()));
    assert_eq!(formatter.write_f32(&mut sink, 0.0f32.to_bits(), long), Ok(()));
    assert_eq!(
        formatter.write_f64(&mut sink, f64::INFINITY.to_bits(), long),
        Err(EncodingError::NonFiniteNumber)
    );
    assert_eq!(
        formatter.write_float(&mut sink, FloatCategory::Nan, long),
        Err(EncodingError::NonFiniteNumber)
    );
    assert_eq!(sink, b"000".to_vec());
}
