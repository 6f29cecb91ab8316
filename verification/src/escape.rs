//! String escaping: which characters are escaped, and the text of each escape.

use vstd::prelude::*;

verus! {

/// A character that is written as an escape sequence.
#[derive(Clone, Copy, Debug, PartialEq, Eq, Structural)]
pub enum CharEscape {
    /// `"`, written `\"`
    Quote,
    /// `\`, written `\\`
    ReverseSolidus,
    /// `/`, written `\/`
    Solidus,
    /// U+0008, written `\b`
    Backspace,
    /// U+000C, written `\f`
    FormFeed,
    /// U+000A, written `\n`
    LineFeed,
    /// U+000D, written `\r`
    CarriageReturn,
    /// U+0009, written `\t`
    Tab,
    /// Another control character, written `\u00XX` with lower-case digits
    AsciiControl(u8),
}

/// The lower-case hexadecimal digit of a value below 16.
pub open spec fn hex_digit(n: int) -> u8 {
    if n < 10 {
        (0x30 + n) as u8
    } else {
        (0x61 + n - 10) as u8
    }
}

impl CharEscape {
    /// The bytes of the escape sequence.
    pub open spec fn text(self) -> Seq<u8> {
        match self {
            CharEscape::Quote => seq![0x5cu8, 0x22u8],
            CharEscape::ReverseSolidus => seq![0x5cu8, 0x5cu8],
            CharEscape::Solidus => seq![0x5cu8, 0x2fu8],
            CharEscape::Backspace => seq![0x5cu8, 0x62u8],
            CharEscape::FormFeed => seq![0x5cu8, 0x66u8],
            CharEscape::LineFeed => seq![0x5cu8, 0x6eu8],
            CharEscape::CarriageReturn => seq![0x5cu8, 0x72u8],
            CharEscape::Tab => seq![0x5cu8, 0x74u8],
            CharEscape::AsciiControl(byte) => seq![
                0x5cu8,
                0x75u8,
                0x30u8,
                0x30u8,
                hex_digit(byte as int / 16),
                hex_digit(byte as int % 16),
            ],
        }
    }

    /// The escape of a byte of UTF-8 text, if it is written as one. Bytes of
    /// 0x80 and above belong to longer characters and are never escaped.
    pub open spec fn of(byte: u8) -> Option<CharEscape> {
        if byte == 0x22 {
            Some(CharEscape::Quote)
        } else if byte == 0x5c {
            Some(CharEscape::ReverseSolidus)
        } else if byte == 0x2f {
            Some(CharEscape::Solidus)
        } else if byte == 0x08 {
            Some(CharEscape::Backspace)
        } else if byte == 0x0c {
            Some(CharEscape::FormFeed)
        } else if byte == 0x0a {
            Some(CharEscape::LineFeed)
        } else if byte == 0x0d {
            Some(CharEscape::CarriageReturn)
        } else if byte == 0x09 {
            Some(CharEscape::Tab)
        } else if byte < 0x20 {
            Some(CharEscape::AsciiControl(byte))
        } else {
            None
        }
    }

    /// Decides whether a byte of UTF-8 text is escaped, and how.
    pub fn for_byte(byte: u8) -> (r: Option<CharEscape>)
        ensures
            r == CharEscape::of(byte),
    {
        if byte == 0x22 {
            Some(CharEscape::Quote)
        } else if byte == 0x5c {
            Some(CharEscape::ReverseSolidus)
        } else if byte == 0x2f {
            Some(CharEscape::Solidus)
        } else if byte == 0x08 {
            Some(CharEscape::Backspace)
        } else if byte == 0x0c {
            Some(CharEscape::FormFeed)
        } else if byte == 0x0a {
            Some(CharEscape::LineFeed)
        } else if byte == 0x0d {
            Some(CharEscape::CarriageReturn)
        } else if byte == 0x09 {
            Some(CharEscape::Tab)
        } else if byte < 0x20 {
            Some(CharEscape::AsciiControl(byte))
        } else {
            None
        }
    }

    /// Appends the escape sequence to `buf`.
    pub fn push_text(&self, buf: &mut Vec<u8>)
        ensures
            final(buf)@ == old(buf)@ + self.text(),
    {
        buf.push(0x5c);
        match self {
            CharEscape::Quote => buf.push(0x22),
            CharEscape::ReverseSolidus => buf.push(0x5c),
            CharEscape::Solidus => buf.push(0x2f),
            CharEscape::Backspace => buf.push(0x62),
            CharEscape::FormFeed => buf.push(0x66),
            CharEscape::LineFeed => buf.push(0x6e),
            CharEscape::CarriageReturn => buf.push(0x72),
            CharEscape::Tab => buf.push(0x74),
            CharEscape::AsciiControl(byte) => {
                buf.push(0x75);
                buf.push(0x30);
                buf.push(0x30);
                buf.push(lower_hex(*byte / 16));
                buf.push(lower_hex(*byte % 16));
            },
        }
        assert(buf@ =~= old(buf)@ + self.text());
    }
}

/// The lower-case hexadecimal digit of a value below 16.
pub fn lower_hex(n: u8) -> (r: u8)
    requires
        n < 16,
    ensures
        r == hex_digit(n as int),
{
    if n < 10 {
        0x30 + n
    } else {
        0x61 + (n - 10)
    }
}

/// What one byte of UTF-8 text becomes: its escape sequence, or itself.
pub open spec fn escaped_byte(byte: u8) -> Seq<u8> {
    match CharEscape::of(byte) {
        Some(escape) => escape.text(),
        None => seq![byte],
    }
}

/// UTF-8 text with every byte that has an escape replaced by its sequence.
pub open spec fn escaped(bytes: Seq<u8>) -> Seq<u8>
    decreases bytes.len(),
{
    if bytes.len() == 0 {
        Seq::empty()
    } else {
        escaped(bytes.drop_last()) + escaped_byte(bytes.last())
    }
}

/// A text as a JSON string token: quoted, with its UTF-8 bytes escaped.
pub open spec fn string_token(text: Seq<char>) -> Seq<u8> {
    seq![0x22u8] + escaped(vstd::utf8::encode_utf8(text)) + seq![0x22u8]
}

/// Escaping goes byte by byte, so it distributes over concatenation.
pub proof fn lemma_escaped_concat(a: Seq<u8>, b: Seq<u8>)
    ensures
        escaped(a + b) == escaped(a) + escaped(b),
    decreases b.len(),
{
    if b.len() == 0 {
        assert(a + b =~= a);
        assert(escaped(a) + escaped(b) =~= escaped(a));
    } else {
        assert((a + b).drop_last() =~= a + b.drop_last());
        lemma_escaped_concat(a, b.drop_last());
        assert(escaped(a + b) =~= escaped(a) + escaped(b));
    }
}

/// Bytes without an escape stay as they are.
pub proof fn lemma_escaped_unchanged(bytes: Seq<u8>)
    requires
        forall|i: int| 0 <= i < bytes.len() ==> CharEscape::of(#[trigger] bytes[i]) is None,
    ensures
        escaped(bytes) == bytes,
    decreases bytes.len(),
{
    if bytes.len() > 0 {
        let front = bytes.drop_last();
        assert forall|i: int| 0 <= i < front.len() implies CharEscape::of(
            #[trigger] front[i],
        ) is None by {
            assert(front[i] == bytes[i]);
        }
        lemma_escaped_unchanged(front);
        assert(CharEscape::of(bytes[bytes.len() - 1]) is None);
        assert(escaped(bytes) =~= bytes);
    }
}

/// What one character of a string becomes: an ASCII character that has an
/// escape becomes that escape, and every other character its UTF-8 bytes.
pub open spec fn escaped_char(c: char) -> Seq<u8> {
    if (c as u32) < 0x80 {
        escaped_byte(c as u8)
    } else {
        vstd::utf8::encode_utf8(seq![c])
    }
}

/// The UTF-8 bytes of a text that continues by a character are those of the
/// text, then those of the character.
pub proof fn lemma_utf8_push(text: Seq<char>, c: char)
    ensures
        vstd::utf8::encode_utf8(text.push(c)) == vstd::utf8::encode_utf8(text)
            + vstd::utf8::encode_utf8(seq![c]),
    decreases text.len(),
{
    if text.len() == 0 {
        assert(text.push(c) =~= seq![c]);
        assert(vstd::utf8::encode_utf8(text) =~= Seq::<u8>::empty());
        assert(vstd::utf8::encode_utf8(text) + vstd::utf8::encode_utf8(seq![c])
            =~= vstd::utf8::encode_utf8(seq![c]));
    } else {
        let rest = text.drop_first();
        lemma_utf8_push(rest, c);
        assert(text.push(c).drop_first() =~= rest.push(c));
        assert(text.push(c)[0] == text[0]);
        assert(vstd::utf8::encode_utf8(text.push(c)) =~= vstd::utf8::encode_utf8(text)
            + vstd::utf8::encode_utf8(seq![c]));
    }
}

/// The escaped UTF-8 bytes of one character are what the character becomes.
pub proof fn lemma_escaped_of_character(c: char)
    ensures
        escaped(vstd::utf8::encode_scalar(c as u32)) == escaped_char(c),
        vstd::utf8::encode_utf8(seq![c]) == vstd::utf8::encode_scalar(c as u32),
        (c as u32) >= 0x80 ==> forall|i: int|
            0 <= i < vstd::utf8::encode_scalar(c as u32).len() ==> #[trigger] vstd::utf8::encode_scalar(
                c as u32,
            )[i] >= 0x80,
{
    let v = c as u32;
    let one = vstd::utf8::encode_utf8(seq![c]);
    vstd::utf8::char_is_scalar(c);
    assert(seq![c].drop_first() =~= Seq::<char>::empty());
    assert(seq![c][0] == c);
    assert(vstd::utf8::encode_utf8(Seq::<char>::empty()) =~= Seq::<u8>::empty());
    assert(one =~= vstd::utf8::encode_scalar(v));
    assert(forall|y: u8| #![trigger 0x80u8 | y] (0x80u8 | y) >= 0x80) by (bit_vector);
    assert(forall|y: u8| #![trigger 0xC0u8 | y] (0xC0u8 | y) >= 0x80) by (bit_vector);
    assert(forall|y: u8| #![trigger 0xE0u8 | y] (0xE0u8 | y) >= 0x80) by (bit_vector);
    assert(forall|y: u8| #![trigger 0xF0u8 | y] (0xF0u8 | y) >= 0x80) by (bit_vector);
    if v < 0x80 {
        assert((v & 0x7F) as u8 == v as u8) by (bit_vector)
            requires
                v < 0x80,
        ;
        assert(one =~= seq![c as u8]);
        assert(one.drop_last() =~= Seq::<u8>::empty());
        assert(escaped(Seq::<u8>::empty()) =~= Seq::<u8>::empty());
        assert(escaped(one) =~= escaped_byte(c as u8));
    } else {
        assert forall|i: int| 0 <= i < one.len() implies CharEscape::of(#[trigger] one[i]) is None by {
            assert(one[i] >= 0x80);
        }
        lemma_escaped_unchanged(one);
    }
}

/// Escaping goes character by character: the escaped text of a string that
/// continues by a character is that of the string, then what the character
/// becomes. So a character without an escape, whatever its length in UTF-8,
/// passes as it is.
pub proof fn lemma_escaped_by_character(text: Seq<char>, c: char)
    ensures
        escaped(vstd::utf8::encode_utf8(text.push(c))) == escaped(vstd::utf8::encode_utf8(text))
            + escaped_char(c),
{
    lemma_utf8_push(text, c);
    lemma_escaped_concat(vstd::utf8::encode_utf8(text), vstd::utf8::encode_utf8(seq![c]));
    lemma_escaped_of_character(c);
}

/// Appends the escaped form of `bytes` to `buf`.
pub fn push_escaped(buf: &mut Vec<u8>, bytes: &[u8])
    ensures
        final(buf)@ == old(buf)@ + escaped(bytes@),
{
    let mut i: usize = 0;
    while i < bytes.len()
        invariant
            i <= bytes@.len(),
            buf@ == old(buf)@ + escaped(bytes@.take(i as int)),
        decreases bytes@.len() - i,
    {
        let byte: u8 = bytes[i];
        proof {
            assert(bytes@.take(i + 1).drop_last() =~= bytes@.take(i as int));
        }
        match CharEscape::for_byte(byte) {
            Some(escape) => escape.push_text(buf),
            None => buf.push(byte),
        }
        i = i + 1;
        assert(buf@ =~= old(buf)@ + escaped(bytes@.take(i as int)));
    }
    assert(bytes@.take(bytes@.len() as int) =~= bytes@);
}

} // verus!
