//! The canonical text of every value is valid UTF-8.

use crate::entry::{insert_member, lemma_rank_bounds, member_text, members_text, MemberView};
use crate::escape::{
    escaped, escaped_byte, lemma_escaped_concat, lemma_escaped_unchanged, string_token, CharEscape,
};
use crate::number::{decimal_digits, decimal_text};
use crate::value::{
    bool_text, canonical, canonical_items, null_text, separator_text, sorted_members,
    written_member, Json, JsonEntry,
};
use vstd::prelude::*;
use vstd::utf8::{
    encode_utf8, encode_utf8_valid_utf8, length_of_first_scalar, pop_first_scalar,
    valid_utf8, valid_utf8_concat,
};

verus! {

/// Every byte is an ASCII character.
pub open spec fn all_ascii(bytes: Seq<u8>) -> bool {
    forall|i: int| 0 <= i < bytes.len() ==> #[trigger] bytes[i] < 0x80
}

/// ASCII text is valid UTF-8.
pub proof fn lemma_ascii_valid(bytes: Seq<u8>)
    requires
        all_ascii(bytes),
    ensures
        valid_utf8(bytes),
    decreases bytes.len(),
{
    if bytes.len() > 0 {
        let b = bytes[0];
        assert((b & 0x7f) as u32 <= 0x7f) by (bit_vector);
        let rest = pop_first_scalar(bytes);
        assert(rest =~= bytes.subrange(1, bytes.len() as int));
        assert forall|i: int| 0 <= i < rest.len() implies #[trigger] rest[i] < 0x80 by {
            assert(rest[i] == bytes[i + 1]);
        }
        lemma_ascii_valid(rest);
    }
}

/// An escape sequence is ASCII text.
proof fn lemma_escape_ascii(escape: CharEscape)
    ensures
        all_ascii(escape.text()),
{
}

/// Escaping keeps UTF-8 text valid.
pub proof fn lemma_escaped_valid(bytes: Seq<u8>)
    requires
        valid_utf8(bytes),
    ensures
        valid_utf8(escaped(bytes)),
    decreases bytes.len(),
{
    if bytes.len() > 0 {
        assert(vstd::utf8::valid_first_scalar(bytes));
        let n = length_of_first_scalar(bytes);
        assert(1 <= n <= bytes.len());
        let head = bytes.subrange(0, n);
        let tail = pop_first_scalar(bytes);
        assert(bytes =~= head + tail);
        lemma_escaped_concat(head, tail);
        lemma_escaped_valid(tail);
        if n == 1 {
            let b = bytes[0];
            assert(head =~= seq![b]);
            assert(head.drop_last() =~= Seq::<u8>::empty());
            assert(escaped(Seq::<u8>::empty()) =~= Seq::<u8>::empty());
            assert(head.last() == b);
            assert(escaped(head) =~= escaped_byte(b));
            match CharEscape::of(b) {
                Some(escape) => {
                    lemma_escape_ascii(escape);
                },
                None => {},
            }
            lemma_ascii_valid(escaped_byte(b));
        } else {
            assert forall|i: int| 0 <= i < head.len() implies CharEscape::of(
                #[trigger] head[i],
            ) is None by {
                assert(head[i] == bytes[i]);
            }
            lemma_escaped_unchanged(head);
            assert(forall|i: int| 0 <= i < n ==> head[i] == bytes[i]);
            assert(vstd::utf8::valid_leading_and_continuation_bytes_first_codepoint(head));
            assert(vstd::utf8::decode_first_codepoint(head) == vstd::utf8::decode_first_codepoint(
                bytes,
            ));
            assert(vstd::utf8::valid_first_scalar(head));
            assert(pop_first_scalar(head) =~= Seq::<u8>::empty());
            assert(valid_utf8(pop_first_scalar(head)));
            assert(valid_utf8(head));
        }
        valid_utf8_concat(escaped(head), escaped(tail));
    }
}

/// A string token is valid UTF-8.
pub proof fn lemma_string_token_valid(text: Seq<char>)
    ensures
        valid_utf8(string_token(text)),
{
    let quote = seq![0x22u8];
    encode_utf8_valid_utf8(text);
    lemma_escaped_valid(encode_utf8(text));
    lemma_ascii_valid(quote);
    valid_utf8_concat(quote, escaped(encode_utf8(text)));
    valid_utf8_concat(quote + escaped(encode_utf8(text)), quote);
}

/// Decimal digits are ASCII text.
proof fn lemma_digits_ascii(n: nat)
    ensures
        all_ascii(decimal_digits(n)),
    decreases n,
{
    if n >= 10 {
        lemma_digits_ascii(n / 10);
    }
}

/// The decimal text of an integer is valid UTF-8.
pub proof fn lemma_decimal_valid(n: int)
    ensures
        valid_utf8(decimal_text(n)),
{
    if n < 0 {
        lemma_digits_ascii((-n) as nat);
    } else {
        lemma_digits_ascii(n as nat);
    }
    lemma_ascii_valid(decimal_text(n));
}

/// The key and the value of every member are valid UTF-8.
pub open spec fn members_valid(members: Seq<MemberView>) -> bool {
    forall|i: int|
        0 <= i < members.len() ==> valid_utf8((#[trigger] members[i]).key) && valid_utf8(
            members[i].value,
        )
}

/// Members of valid UTF-8 are written as valid UTF-8.
pub proof fn lemma_members_text_valid(members: Seq<MemberView>)
    requires
        members_valid(members),
    ensures
        valid_utf8(members_text(members)),
    decreases members.len(),
{
    if members.len() > 0 {
        let last = members.last();
        let colon = seq![0x3au8];
        lemma_ascii_valid(colon);
        valid_utf8_concat(last.key, colon);
        valid_utf8_concat(last.key + colon, last.value);
        if members.len() > 1 {
            let front = members.drop_last();
            assert forall|i: int| 0 <= i < front.len() implies valid_utf8(
                (#[trigger] front[i]).key,
            ) && valid_utf8(front[i].value) by {
                assert(front[i] == members[i]);
            }
            lemma_members_text_valid(front);
            let comma = seq![0x2cu8];
            lemma_ascii_valid(comma);
            valid_utf8_concat(members_text(front), comma);
            valid_utf8_concat(members_text(front) + comma, member_text(last));
        }
    }
}

/// The canonical text of a value is valid UTF-8.
pub proof fn lemma_canonical_valid(json: Json)
    ensures
        valid_utf8(canonical(json)),
    decreases json, 0nat,
{
    match json {
        Json::Null => {
            lemma_ascii_valid(null_text());
        },
        Json::Bool(b) => {
            lemma_ascii_valid(bool_text(b));
        },
        Json::PosInt(n) => {
            lemma_decimal_valid(n as int);
        },
        Json::NegInt(n) => {
            lemma_decimal_valid(n as int);
        },
        Json::Float { bits, text } => {
            encode_utf8_valid_utf8(text);
            lemma_ascii_valid(seq![0x30u8]);
        },
        Json::String(text) => {
            lemma_string_token_valid(text);
        },
        Json::Array(items) => {
            let open = seq![0x5bu8];
            let close = seq![0x5du8];
            lemma_items_valid(items, items.len());
            lemma_ascii_valid(open);
            lemma_ascii_valid(close);
            valid_utf8_concat(open, canonical_items(items, items.len()));
            valid_utf8_concat(open + canonical_items(items, items.len()), close);
        },
        Json::Object(members) => {
            let open = seq![0x7bu8];
            let close = seq![0x7du8];
            let inner = members_text(sorted_members(members, members.len()));
            lemma_sorted_members_valid(members, members.len());
            lemma_members_text_valid(sorted_members(members, members.len()));
            lemma_ascii_valid(open);
            lemma_ascii_valid(close);
            valid_utf8_concat(open, inner);
            valid_utf8_concat(open + inner, close);
        },
    }
}

/// The canonical text of the elements of an array is valid UTF-8.
pub proof fn lemma_items_valid(items: Seq<Json>, count: nat)
    ensures
        valid_utf8(canonical_items(items, count)),
    decreases items, count,
{
    if 0 < count <= items.len() {
        let front = canonical_items(items, (count - 1) as nat);
        let comma = separator_text(count == 1);
        lemma_items_valid(items, (count - 1) as nat);
        lemma_canonical_valid(items[count - 1]);
        lemma_ascii_valid(comma);
        valid_utf8_concat(front, comma);
        valid_utf8_concat(front + comma, canonical(items[count - 1]));
    }
}

/// The members of an object are written as valid UTF-8.
pub proof fn lemma_sorted_members_valid(members: Seq<JsonEntry>, count: nat)
    ensures
        members_valid(sorted_members(members, count)),
    decreases members, count,
{
    if 0 < count <= members.len() {
        let before = sorted_members(members, (count - 1) as nat);
        let entry = members[count - 1];
        let member = written_member(entry);
        lemma_sorted_members_valid(members, (count - 1) as nat);
        lemma_string_token_valid(entry.key);
        lemma_canonical_valid(entry.value);
        lemma_rank_bounds(before, member.key);
        let after = insert_member(before, member);
        let at = crate::entry::rank(before, member.key);
        assert forall|i: int| 0 <= i < after.len() implies valid_utf8(
            (#[trigger] after[i]).key,
        ) && valid_utf8(after[i].value) by {
            if at < before.len() && before[at].key == member.key {
                if i != at {
                    assert(after[i] == before[i]);
                }
            } else {
                if i < at {
                    assert(after[i] == before[i]);
                } else if i > at {
                    assert(after[i] == before[i - 1]);
                }
            }
        }
    }
}

} // verus!
