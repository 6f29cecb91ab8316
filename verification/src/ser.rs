//! The canonicalizing encoder: it takes the write events of a value tree and
//! produces canonical bytes, holding back the members of each open object
//! until the object closes.

use crate::buffer::Buffer;
use crate::entry::{
    append_bytes, insert_member, members_map, members_text, strictly_sorted, Entry, EntryView,
};
use crate::error::EncodingError;
use crate::escape::{escaped, push_escaped, string_token, CharEscape};
use crate::number::{
    classify_double, classify_single, compact_i64, compact_u64, decimal_text, double_category,
    float_text, single_category, FloatCategory, FloatNumber,
};
use crate::read::{parse, parsed_value, texts_fit};
use crate::value::{
    bool_text, canonical, canonical_items, encodable, null_text, separator_text, sorted_members,
    written_member, Json, JsonEntry, JsonNumber, JsonValue,
};
use vstd::prelude::*;
use vstd::string::StringSliceAdditionalSpecFns;

verus! {

/// The open frames after a write: with no frame open they are untouched;
/// otherwise the innermost frame takes the write.
pub open spec fn frames_after_write(frames: Seq<EntryView>, bytes: Seq<u8>) -> Seq<EntryView> {
    if frames.len() == 0 {
        frames
    } else {
        frames.update(frames.len() - 1, frames.last().wrote(bytes))
    }
}

/// The output after a write: with no frame open the bytes are appended to
/// it; otherwise it is untouched.
pub open spec fn sink_after_write(frames: Seq<EntryView>, sink: Seq<u8>, bytes: Seq<u8>) -> Seq<
    u8,
> {
    if frames.len() == 0 {
        sink + bytes
    } else {
        sink
    }
}

/// Whether writes belong to the key of the innermost open object.
pub open spec fn in_key_phase(frames: Seq<EntryView>) -> bool {
    frames.len() > 0 && frames.last().key_phase
}

/// Two writes in a row are one write of both texts.
pub proof fn lemma_write_twice(
    frames: Seq<EntryView>,
    sink: Seq<u8>,
    first: Seq<u8>,
    second: Seq<u8>,
)
    ensures
        frames_after_write(frames_after_write(frames, first), second) == frames_after_write(frames, first + second),
        sink_after_write(
            frames_after_write(frames, first),
            sink_after_write(frames, sink, first),
            second,
        ) == sink_after_write(frames, sink, first + second),
        in_key_phase(frames_after_write(frames, first)) == in_key_phase(frames),
{
    if frames.len() == 0 {
        assert((sink + first) + second =~= sink + (first + second));
    } else {
        let top = frames.last();
        let twice = top.wrote(first).wrote(second);
        let both = top.wrote(first + second);
        assert(twice.pending_key =~= both.pending_key);
        assert(twice.pending_value =~= both.pending_value);
        assert(twice == both);
        assert(frames_after_write(frames_after_write(frames, first), second)
            =~= frames_after_write(frames, first + second));
    }
}

/// What closes an object: its members in key order, then `}`.
pub open spec fn object_tail(frame: EntryView) -> Seq<u8> {
    members_text(frame.members) + seq![0x7du8]
}

/// The canonicalizing encoder. It holds one frame for each object that is
/// open, the innermost last.
#[derive(Debug)]
pub struct JcsFormatter {
    frames: Vec<Entry>,
}

impl View for JcsFormatter {
    type V = Seq<EntryView>;

    closed spec fn view(&self) -> Seq<EntryView> {
        entry_views(self.frames@)
    }
}

/// The frames, each by its view.
pub open spec fn entry_views(frames: Seq<Entry>) -> Seq<EntryView> {
    Seq::new(frames.len(), |i: int| frames[i]@)
}

/// Replacing a frame replaces its view.
proof fn lemma_views_update(frames: Seq<Entry>, at: int)
    requires
        0 <= at < frames.len(),
    ensures
        forall|entry: Entry| #[trigger]
            entry_views(frames.update(at, entry)) == entry_views(frames).update(at, entry@),
{
    assert forall|entry: Entry| #[trigger]
        entry_views(frames.update(at, entry)) == entry_views(frames).update(at, entry@) by {
        assert(entry_views(frames.update(at, entry)) =~= entry_views(frames).update(at, entry@));
    }
}

impl Clone for JcsFormatter {
    fn clone(&self) -> (r: Self)
        ensures
            r@ == self@,
    {
        let mut frames: Vec<Entry> = Vec::new();
        let mut i: usize = 0;
        while i < self.frames.len()
            invariant
                i <= self.frames@.len(),
                entry_views(frames@) == entry_views(self.frames@).take(i as int),
            decreases self.frames@.len() - i,
        {
            let entry = self.frames[i].clone();
            let ghost copied = entry_views(frames@);
            frames.push(entry);
            assert(entry_views(frames@) =~= copied.push(self.frames@[i as int]@));
            i = i + 1;
            assert(entry_views(self.frames@).take(i as int) =~= entry_views(self.frames@).take(
                i - 1,
            ).push(self.frames@[i - 1]@));
        }
        assert(entry_views(frames@) =~= entry_views(self.frames@));
        JcsFormatter { frames }
    }
}

impl Default for JcsFormatter {
    fn default() -> (r: Self)
        ensures
            r@ == Seq::<EntryView>::empty(),
    {
        JcsFormatter::new()
    }
}

impl JcsFormatter {
    /// An encoder with no object open.
    pub fn new() -> (r: Self)
        ensures
            r@ == Seq::<EntryView>::empty(),
    {
        let r = JcsFormatter { frames: Vec::new() };
        assert(r@ =~= Seq::empty());
        r
    }

    /// How many objects are open.
    pub fn depth(&self) -> (r: usize)
        ensures
            r == self@.len(),
    {
        self.frames.len()
    }

    /// The destination of the next write: `writer` while no object is open,
    /// else the key buffer or the value buffer of the innermost frame.
    pub fn scope<'a>(&'a mut self, writer: &'a mut Vec<u8>) -> (r: &'a mut Vec<u8>)
        ensures
            old(self)@.len() == 0 ==> {
                &&& r@ == old(writer)@
                &&& final(writer)@ == final(r)@
                &&& final(self)@ == old(self)@
            },
            old(self)@.len() > 0 ==> {
                let top = old(self)@.last();
                &&& final(writer)@ == old(writer)@
                &&& r@ == if top.key_phase {
                    top.pending_key
                } else {
                    top.pending_value
                }
                &&& final(self)@ == old(self)@.update(
                    old(self)@.len() - 1,
                    if top.key_phase {
                        (EntryView { pending_key: final(r)@, ..top })
                    } else {
                        (EntryView { pending_value: final(r)@, ..top })
                    },
                )
            },
    {
        let n: usize = self.frames.len();
        if n == 0 {
            writer
        } else {
            proof {
                lemma_views_update(self.frames@, n - 1);
            }
            self.frames[n - 1].buffer_mut()
        }
    }

    /// The innermost frame, which is missing when no object is open.
    pub fn entry_mut(&mut self) -> (r: Result<&mut Entry, EncodingError>)
        ensures
            old(self)@.len() == 0 ==> r == Err::<&mut Entry, EncodingError>(
                EncodingError::UnbalancedScope,
            ) && final(self)@ == old(self)@,
            old(self)@.len() > 0 ==> r is Ok,
            r matches Ok(entry) ==> {
                &&& entry@ == old(self)@.last()
                &&& final(self)@ == old(self)@.update(old(self)@.len() - 1, final(entry)@)
            },
    {
        let n: usize = self.frames.len();
        if n == 0 {
            Err(EncodingError::UnbalancedScope)
        } else {
            proof {
                lemma_views_update(self.frames@, n - 1);
            }
            Ok(&mut self.frames[n - 1])
        }
    }

    /// Whether writes belong to the key of the innermost open object.
    pub fn writing_key(&self) -> (r: bool)
        ensures
            r == in_key_phase(self@),
    {
        let n: usize = self.frames.len();
        n > 0 && self.frames[n - 1].key_phase
    }

    /// Writes bytes to where the next write goes.
    pub fn write_bytes(&mut self, writer: &mut Vec<u8>, bytes: &[u8])
        ensures
            final(self)@ == frames_after_write(old(self)@, bytes@),
            final(writer)@ == sink_after_write(old(self)@, old(writer)@, bytes@),
    {
        let target = self.scope(writer);
        append_bytes(target, bytes);
        assert(self@ =~= frames_after_write(old(self)@, bytes@));
    }

    /// Writes `null`.
    pub fn write_null(&mut self, writer: &mut Vec<u8>) -> (r: Result<(), EncodingError>)
        ensures
            r is Ok,
            final(self)@ == frames_after_write(old(self)@, null_text()),
            final(writer)@ == sink_after_write(old(self)@, old(writer)@, null_text()),
    {
        let text: [u8; 4] = [0x6e, 0x75, 0x6c, 0x6c];
        assert(text@ =~= null_text());
        self.write_bytes(writer, text.as_slice());
        Ok(())
    }

    /// Writes `true` or `false`.
    pub fn write_bool(&mut self, writer: &mut Vec<u8>, value: bool) -> (r: Result<
        (),
        EncodingError,
    >)
        ensures
            r is Ok,
            final(self)@ == frames_after_write(old(self)@, bool_text(value)),
            final(writer)@ == sink_after_write(old(self)@, old(writer)@, bool_text(value)),
    {
        if value {
            let text: [u8; 4] = [0x74, 0x72, 0x75, 0x65];
            assert(text@ =~= bool_text(value));
            self.write_bytes(writer, text.as_slice());
        } else {
            let text: [u8; 5] = [0x66, 0x61, 0x6c, 0x73, 0x65];
            assert(text@ =~= bool_text(value));
            self.write_bytes(writer, text.as_slice());
        }
        Ok(())
    }

    /// Writes the escape sequence of one character.
    pub fn write_char_escape(&mut self, writer: &mut Vec<u8>, escape: CharEscape) -> (r: Result<
        (),
        EncodingError,
    >)
        ensures
            r is Ok,
            final(self)@ == frames_after_write(old(self)@, escape.text()),
            final(writer)@ == sink_after_write(old(self)@, old(writer)@, escape.text()),
    {
        let mut text: Vec<u8> = Vec::new();
        escape.push_text(&mut text);
        assert(text@ =~= escape.text());
        self.write_bytes(writer, text.as_slice());
        Ok(())
    }

    /// Writes a piece of a string: its UTF-8 bytes, with every character
    /// that has an escape written as that escape.
    pub fn write_string_fragment(&mut self, writer: &mut Vec<u8>, fragment: &str) -> (r: Result<
        (),
        EncodingError,
    >)
        ensures
            r is Ok,
            final(self)@ == frames_after_write(old(self)@, escaped(fragment.spec_bytes())),
            final(writer)@ == sink_after_write(
                old(self)@,
                old(writer)@,
                escaped(fragment.spec_bytes()),
            ),
    {
        let mut text: Vec<u8> = Vec::new();
        push_escaped(&mut text, fragment.as_bytes());
        assert(text@ =~= escaped(fragment.spec_bytes()));
        self.write_bytes(writer, text.as_slice());
        Ok(())
    }

    /// Writes an integer in base 10.
    pub fn write_i8(&mut self, writer: &mut Vec<u8>, value: i8) -> (r: Result<(), EncodingError>)
        ensures
            r is Ok,
            final(self)@ == frames_after_write(old(self)@, decimal_text(value as int)),
            final(writer)@ == sink_after_write(
                old(self)@,
                old(writer)@,
                decimal_text(value as int),
            ),
    {
        let text = compact_i64(value as i64);
        self.write_bytes(writer, text.as_slice());
        Ok(())
    }

    /// Writes an integer in base 10.
    pub fn write_i16(&mut self, writer: &mut Vec<u8>, value: i16) -> (r: Result<(), EncodingError>)
        ensures
            r is Ok,
            final(self)@ == frames_after_write(old(self)@, decimal_text(value as int)),
            final(writer)@ == sink_after_write(
                old(self)@,
                old(writer)@,
                decimal_text(value as int),
            ),
    {
        let text = compact_i64(value as i64);
        self.write_bytes(writer, text.as_slice());
        Ok(())
    }

    /// Writes an integer in base 10.
    pub fn write_i32(&mut self, writer: &mut Vec<u8>, value: i32) -> (r: Result<(), EncodingError>)
        ensures
            r is Ok,
            final(self)@ == frames_after_write(old(self)@, decimal_text(value as int)),
            final(writer)@ == sink_after_write(
                old(self)@,
                old(writer)@,
                decimal_text(value as int),
            ),
    {
        let text = compact_i64(value as i64);
        self.write_bytes(writer, text.as_slice());
        Ok(())
    }

    /// Writes an integer in base 10.
    pub fn write_i64(&mut self, writer: &mut Vec<u8>, value: i64) -> (r: Result<(), EncodingError>)
        ensures
            r is Ok,
            final(self)@ == frames_after_write(old(self)@, decimal_text(value as int)),
            final(writer)@ == sink_after_write(
                old(self)@,
                old(writer)@,
                decimal_text(value as int),
            ),
    {
        let text = compact_i64(value);
        self.write_bytes(writer, text.as_slice());
        Ok(())
    }

    /// Writes an integer in base 10.
    pub fn write_u8(&mut self, writer: &mut Vec<u8>, value: u8) -> (r: Result<(), EncodingError>)
        ensures
            r is Ok,
            final(self)@ == frames_after_write(old(self)@, decimal_text(value as int)),
            final(writer)@ == sink_after_write(
                old(self)@,
                old(writer)@,
                decimal_text(value as int),
            ),
    {
        let text = compact_u64(value as u64);
        self.write_bytes(writer, text.as_slice());
        Ok(())
    }

    /// Writes an integer in base 10.
    pub fn write_u16(&mut self, writer: &mut Vec<u8>, value: u16) -> (r: Result<(), EncodingError>)
        ensures
            r is Ok,
            final(self)@ == frames_after_write(old(self)@, decimal_text(value as int)),
            final(writer)@ == sink_after_write(
                old(self)@,
                old(writer)@,
                decimal_text(value as int),
            ),
    {
        let text = compact_u64(value as u64);
        self.write_bytes(writer, text.as_slice());
        Ok(())
    }

    /// Writes an integer in base 10.
    pub fn write_u32(&mut self, writer: &mut Vec<u8>, value: u32) -> (r: Result<(), EncodingError>)
        ensures
            r is Ok,
            final(self)@ == frames_after_write(old(self)@, decimal_text(value as int)),
            final(writer)@ == sink_after_write(
                old(self)@,
                old(writer)@,
                decimal_text(value as int),
            ),
    {
        let text = compact_u64(value as u64);
        self.write_bytes(writer, text.as_slice());
        Ok(())
    }

    /// Writes an integer in base 10.
    pub fn write_u64(&mut self, writer: &mut Vec<u8>, value: u64) -> (r: Result<(), EncodingError>)
        ensures
            r is Ok,
            final(self)@ == frames_after_write(old(self)@, decimal_text(value as int)),
            final(writer)@ == sink_after_write(
                old(self)@,
                old(writer)@,
                decimal_text(value as int),
            ),
    {
        let text = compact_u64(value);
        self.write_bytes(writer, text.as_slice());
        Ok(())
    }

    /// Writes a floating-point value of the given category, whose shortest
    /// decimal text is `text`. NaN and the infinities are refused and nothing
    /// is written; a zero of either sign is written as `0`; any other value
    /// is written as its text, which passes through the scratch buffer and
    /// must fit it. The text of a value that is not written as its text is
    /// not read.
    pub fn write_float(
        &mut self,
        writer: &mut Vec<u8>,
        category: FloatCategory,
        text: &str,
    ) -> (r: Result<(), EncodingError>)
        requires
            category.has_text() ==> text.spec_bytes().len() <= Buffer::SIZE,
        ensures
            r is Ok <==> category.is_finite(),
            r matches Err(e) ==> {
                &&& e == EncodingError::NonFiniteNumber
                &&& final(self)@ == old(self)@
                &&& final(writer)@ == old(writer)@
            },
            r is Ok ==> {
                let digits = float_text(category, text@);
                &&& final(self)@ == frames_after_write(old(self)@, digits)
                &&& final(writer)@ == sink_after_write(old(self)@, old(writer)@, digits)
            },
    {
        match category {
            FloatCategory::Nan | FloatCategory::Infinite => Err(EncodingError::NonFiniteNumber),
            FloatCategory::Zero => {
                let zero: [u8; 1] = [0x30];
                assert(zero@ =~= float_text(category, text@));
                self.write_bytes(writer, zero.as_slice());
                Ok(())
            },
            FloatCategory::Normal | FloatCategory::Subnormal => {
                let mut scratch = Buffer::new();
                let digits = scratch.format_finite(text);
                self.write_bytes(writer, digits);
                Ok(())
            },
        }
    }

    /// Writes the single-precision value with the given IEEE-754 bits and
    /// shortest decimal text.
    pub fn write_f32(&mut self, writer: &mut Vec<u8>, bits: u32, text: &str) -> (r: Result<
        (),
        EncodingError,
    >)
        requires
            single_category(bits).has_text() ==> text.spec_bytes().len() <= Buffer::SIZE,
        ensures
            r is Ok <==> single_category(bits).is_finite(),
            r matches Err(e) ==> {
                &&& e == EncodingError::NonFiniteNumber
                &&& final(self)@ == old(self)@
                &&& final(writer)@ == old(writer)@
            },
            r is Ok ==> {
                let digits = float_text(single_category(bits), text@);
                &&& final(self)@ == frames_after_write(old(self)@, digits)
                &&& final(writer)@ == sink_after_write(old(self)@, old(writer)@, digits)
            },
    {
        self.write_float(writer, classify_single(bits), text)
    }

    /// Writes the double-precision value with the given IEEE-754 bits and
    /// shortest decimal text.
    pub fn write_f64(&mut self, writer: &mut Vec<u8>, bits: u64, text: &str) -> (r: Result<
        (),
        EncodingError,
    >)
        requires
            double_category(bits).has_text() ==> text.spec_bytes().len() <= Buffer::SIZE,
        ensures
            r is Ok <==> double_category(bits).is_finite(),
            r matches Err(e) ==> {
                &&& e == EncodingError::NonFiniteNumber
                &&& final(self)@ == old(self)@
                &&& final(writer)@ == old(writer)@
            },
            r is Ok ==> {
                let digits = float_text(double_category(bits), text@);
                &&& final(self)@ == frames_after_write(old(self)@, digits)
                &&& final(writer)@ == sink_after_write(old(self)@, old(writer)@, digits)
            },
    {
        self.write_float(writer, classify_double(bits), text)
    }

    /// Writes a double whose text is known to fit the scratch buffer.
    pub fn write_double(&mut self, writer: &mut Vec<u8>, number: &FloatNumber) -> (r: Result<
        (),
        EncodingError,
    >)
        ensures
            r is Ok <==> double_category(number.bits()).is_finite(),
            r matches Err(e) ==> {
                &&& e == EncodingError::NonFiniteNumber
                &&& final(self)@ == old(self)@
                &&& final(writer)@ == old(writer)@
            },
            r is Ok ==> {
                let digits = float_text(double_category(number.bits()), number.text());
                &&& final(self)@ == frames_after_write(old(self)@, digits)
                &&& final(writer)@ == sink_after_write(old(self)@, old(writer)@, digits)
            },
    {
        self.write_f64(writer, number.get_bits(), number.get_text())
    }

    /// Opens a string: writes `"`.
    pub fn begin_string(&mut self, writer: &mut Vec<u8>) -> (r: Result<(), EncodingError>)
        ensures
            r is Ok,
            final(self)@ == frames_after_write(old(self)@, seq![0x22u8]),
            final(writer)@ == sink_after_write(old(self)@, old(writer)@, seq![0x22u8]),
    {
        let quote: [u8; 1] = [0x22];
        assert(quote@ =~= seq![0x22u8]);
        self.write_bytes(writer, quote.as_slice());
        Ok(())
    }

    /// Closes a string: writes `"`.
    pub fn end_string(&mut self, writer: &mut Vec<u8>) -> (r: Result<(), EncodingError>)
        ensures
            r is Ok,
            final(self)@ == frames_after_write(old(self)@, seq![0x22u8]),
            final(writer)@ == sink_after_write(old(self)@, old(writer)@, seq![0x22u8]),
    {
        let quote: [u8; 1] = [0x22];
        assert(quote@ =~= seq![0x22u8]);
        self.write_bytes(writer, quote.as_slice());
        Ok(())
    }

    /// Opens an array: writes `[`.
    pub fn begin_array(&mut self, writer: &mut Vec<u8>) -> (r: Result<(), EncodingError>)
        ensures
            r is Ok,
            final(self)@ == frames_after_write(old(self)@, seq![0x5bu8]),
            final(writer)@ == sink_after_write(old(self)@, old(writer)@, seq![0x5bu8]),
    {
        let text: [u8; 1] = [0x5b];
        assert(text@ =~= seq![0x5bu8]);
        self.write_bytes(writer, text.as_slice());
        Ok(())
    }

    /// Closes an array: writes `]`.
    pub fn end_array(&mut self, writer: &mut Vec<u8>) -> (r: Result<(), EncodingError>)
        ensures
            r is Ok,
            final(self)@ == frames_after_write(old(self)@, seq![0x5du8]),
            final(writer)@ == sink_after_write(old(self)@, old(writer)@, seq![0x5du8]),
    {
        let text: [u8; 1] = [0x5d];
        assert(text@ =~= seq![0x5du8]);
        self.write_bytes(writer, text.as_slice());
        Ok(())
    }

    /// Begins an element of an array: writes `,` before every element but
    /// the first. Elements are written in the order in which they arrive.
    pub fn begin_array_value(&mut self, writer: &mut Vec<u8>, first: bool) -> (r: Result<
        (),
        EncodingError,
    >)
        ensures
            r is Ok,
            final(self)@ == frames_after_write(old(self)@, separator_text(first)),
            final(writer)@ == sink_after_write(old(self)@, old(writer)@, separator_text(first)),
    {
        if first {
            let text: [u8; 0] = [];
            assert(text@ =~= separator_text(first));
            self.write_bytes(writer, text.as_slice());
        } else {
            let text: [u8; 1] = [0x2c];
            assert(text@ =~= separator_text(first));
            self.write_bytes(writer, text.as_slice());
        }
        Ok(())
    }

    /// Ends an element of an array: nothing is written.
    pub fn end_array_value(&mut self, writer: &mut Vec<u8>) -> (r: Result<(), EncodingError>)
        ensures
            r is Ok,
            final(self)@ == old(self)@,
            final(writer)@ == old(writer)@,
    {
        Ok(())
    }

    /// Opens an object: writes `{` where the object stands, then opens a
    /// frame that holds back its members.
    pub fn begin_object(&mut self, writer: &mut Vec<u8>) -> (r: Result<(), EncodingError>)
        ensures
            r is Ok,
            final(self)@ == frames_after_write(old(self)@, seq![0x7bu8]).push(EntryView::fresh()),
            final(writer)@ == sink_after_write(old(self)@, old(writer)@, seq![0x7bu8]),
    {
        let text: [u8; 1] = [0x7b];
        assert(text@ =~= seq![0x7bu8]);
        self.write_bytes(writer, text.as_slice());
        let ghost before = self@;
        self.frames.push(Entry::new());
        assert(self@ =~= before.push(EntryView::fresh()));
        Ok(())
    }

    /// Closes the innermost object: its frame is dropped, and its members
    /// and `}` are written where the object stands. The members stand in
    /// strict key order: their keys rise by the code units of the text that
    /// the key bytes stand for. What was written for a member that was not
    /// finished is dropped with the frame. With no object open this is
    /// refused and nothing changes.
    pub fn end_object(&mut self, writer: &mut Vec<u8>) -> (r: Result<(), EncodingError>)
        ensures
            r is Ok <==> old(self)@.len() > 0,
            r matches Err(e) ==> {
                &&& e == EncodingError::UnbalancedScope
                &&& final(self)@ == old(self)@
                &&& final(writer)@ == old(writer)@
            },
            r is Ok ==> {
                let rest = old(self)@.drop_last();
                let text = object_tail(old(self)@.last());
                &&& strictly_sorted(old(self)@.last().members)
                &&& final(self)@ == frames_after_write(rest, text)
                &&& final(writer)@ == sink_after_write(rest, old(writer)@, text)
            },
    {
        match self.frames.pop() {
            None => Err(EncodingError::UnbalancedScope),
            Some(entry) => {
                assert(self@ =~= old(self)@.drop_last());
                assert(entry@ == old(self)@.last());
                entry.members.sorted();
                let mut text: Vec<u8> = Vec::new();
                entry.members.write_text(&mut text);
                text.push(0x7d);
                assert(text@ =~= object_tail(entry@));
                self.write_bytes(writer, text.as_slice());
                Ok(())
            },
        }
    }

    /// Begins a key of the innermost object: what was written for a key is
    /// dropped, and writes belong to the key from now on. Whether the key is
    /// the first plays no part, since the separators are written when the
    /// object closes. With no object open this is refused and nothing
    /// changes.
    pub fn begin_object_key(&mut self, writer: &mut Vec<u8>, first: bool) -> (r: Result<
        (),
        EncodingError,
    >)
        ensures
            r is Ok <==> old(self)@.len() > 0,
            r matches Err(e) ==> e == EncodingError::UnbalancedScope && final(self)@ == old(self)@,
            r is Ok ==> final(self)@ == old(self)@.update(
                old(self)@.len() - 1,
                old(self)@.last().key_begun(),
            ),
            final(writer)@ == old(writer)@,
    {
        match self.entry_mut() {
            Ok(entry) => {
                entry.begin_key();
                Ok(())
            },
            Err(e) => Err(e),
        }
    }

    /// Ends a key of the innermost object: writes belong to the value from
    /// now on. With no object open this is refused and nothing changes.
    pub fn end_object_key(&mut self, writer: &mut Vec<u8>) -> (r: Result<(), EncodingError>)
        ensures
            r is Ok <==> old(self)@.len() > 0,
            r matches Err(e) ==> e == EncodingError::UnbalancedScope && final(self)@ == old(self)@,
            r is Ok ==> final(self)@ == old(self)@.update(
                old(self)@.len() - 1,
                old(self)@.last().key_ended(),
            ),
            final(writer)@ == old(writer)@,
    {
        match self.entry_mut() {
            Ok(entry) => {
                entry.end_key();
                Ok(())
            },
            Err(e) => Err(e),
        }
    }

    /// Begins a value of the innermost object: nothing is written, since the
    /// colon is written when the object closes.
    pub fn begin_object_value(&mut self, writer: &mut Vec<u8>) -> (r: Result<(), EncodingError>)
        ensures
            r is Ok,
            final(self)@ == old(self)@,
            final(writer)@ == old(writer)@,
    {
        Ok(())
    }

    /// Ends a value of the innermost object: the key and the value that were
    /// written become a finished member. It replaces the member with the
    /// same key bytes, and every member with other key bytes stays as it is.
    /// With no object open this is refused and nothing changes.
    pub fn end_object_value(&mut self, writer: &mut Vec<u8>) -> (r: Result<(), EncodingError>)
        ensures
            r is Ok <==> old(self)@.len() > 0,
            r matches Err(e) ==> e == EncodingError::UnbalancedScope && final(self)@ == old(self)@,
            r is Ok ==> {
                let top = old(self)@.last();
                &&& strictly_sorted(top.members)
                &&& final(self)@ == old(self)@.update(old(self)@.len() - 1, top.member_done())
                &&& members_map(final(self)@.last().members) == members_map(top.members).insert(
                    top.pending_key,
                    top.pending_value,
                )
            },
            final(writer)@ == old(writer)@,
    {
        match self.entry_mut() {
            Ok(entry) => {
                entry.end_value();
                Ok(())
            },
            Err(e) => Err(e),
        }
    }

    /// Writes a string: `"`, the escaped text, `"`.
    pub fn write_string(&mut self, writer: &mut Vec<u8>, text: &str) -> (r: Result<
        (),
        EncodingError,
    >)
        ensures
            r is Ok,
            final(self)@ == frames_after_write(old(self)@, string_token(text@)),
            final(writer)@ == sink_after_write(old(self)@, old(writer)@, string_token(text@)),
    {
        self.begin_string(writer)?;
        self.write_string_fragment(writer, text)?;
        self.end_string(writer)?;
        proof {
            let quote = seq![0x22u8];
            let inner = escaped(text.spec_bytes());
            lemma_write_twice(old(self)@, old(writer)@, quote, inner);
            lemma_write_twice(old(self)@, old(writer)@, quote + inner, quote);
        }
        Ok(())
    }

    /// Walks a value and writes its events in document order.
    fn write_value(&mut self, writer: &mut Vec<u8>, value: &JsonValue) -> (r: Result<
        (),
        EncodingError,
    >)
        requires
            !in_key_phase(old(self)@),
        ensures
            r is Ok <==> encodable(value.model()),
            r matches Err(e) ==> e == EncodingError::NonFiniteNumber,
            r is Ok ==> {
                let text = canonical(value.model());
                &&& final(self)@ == frames_after_write(old(self)@, text)
                &&& final(writer)@ == sink_after_write(old(self)@, old(writer)@, text)
            },
        decreases value,
    {
        match value {
            JsonValue::Null => self.write_null(writer),
            JsonValue::Bool(b) => self.write_bool(writer, *b),
            JsonValue::Number(JsonNumber::PosInt(n)) => self.write_u64(writer, *n),
            JsonValue::Number(JsonNumber::NegInt(n)) => self.write_i64(writer, *n),
            JsonValue::Number(JsonNumber::Float(number)) => self.write_double(writer, number),
            JsonValue::String(text) => self.write_string(writer, text.as_str()),
            JsonValue::Array(items) => {
                let ghost model = value.model()->Array_0;
                proof {
                    assert(seq![0x5bu8] + canonical_items(model, 0) =~= seq![0x5bu8]);
                }
                self.begin_array(writer)?;
                let mut i: usize = 0;
                while i < items.len()
                    invariant
                        i <= items@.len(),
                        decreases_to!(value => items),
                        value.model() == Json::Array(model),
                        model.len() == items@.len(),
                        forall|j: int| 0 <= j < items@.len() ==> model[j] == items@[j].model(),
                        forall|j: int| 0 <= j < i ==> encodable(#[trigger] model[j]),
                        !in_key_phase(old(self)@),
                        self@ == frames_after_write(old(self)@, seq![0x5bu8] + canonical_items(model, i as nat)),
                        writer@ == sink_after_write(
                            old(self)@,
                            old(writer)@,
                            seq![0x5bu8] + canonical_items(model, i as nat),
                        ),
                    decreases items@.len() - i,
                {
                    let ghost before = seq![0x5bu8] + canonical_items(model, i as nat);
                    let ghost comma = separator_text(i == 0);
                    let ghost item = canonical(model[i as int]);
                    proof {
                        lemma_write_twice(old(self)@, old(writer)@, before, comma);
                        lemma_write_twice(old(self)@, old(writer)@, before + comma, item);
                    }
                    self.begin_array_value(writer, i == 0)?;
                    match self.write_value(writer, &items[i]) {
                        Ok(()) => {},
                        Err(e) => {
                            assert(!encodable(model[i as int]));
                            proof {
                                crate::value::lemma_array_not_encodable(model, i as int);
                            }
                            return Err(e);
                        },
                    }
                    self.end_array_value(writer)?;
                    proof {
                        let after = seq![0x5bu8] + canonical_items(model, (i + 1) as nat);
                        assert(after =~= before + comma + item);
                    }
                    i = i + 1;
                }
                proof {
                    let before = seq![0x5bu8] + canonical_items(model, model.len());
                    lemma_write_twice(old(self)@, old(writer)@, before, seq![0x5du8]);
                }
                self.end_array(writer)?;
                Ok(())
            },
            JsonValue::Object(members) => {
                let ghost model = value.model()->Object_0;
                proof {
                }
                self.begin_object(writer)?;
                let ghost base = frames_after_write(old(self)@, seq![0x7bu8]);
                let mut i: usize = 0;
                while i < members.len()
                    invariant
                        i <= members@.len(),
                        decreases_to!(value => members),
                        value.model() == Json::Object(model),
                        model.len() == members@.len(),
                        forall|j: int|
                            0 <= j < members@.len() ==> model[j] == (JsonEntry {
                                key: members@[j].key@,
                                value: members@[j].value.model(),
                            }),
                        forall|j: int| 0 <= j < i ==> encodable((#[trigger] model[j]).value),
                        !in_key_phase(old(self)@),
                        base == frames_after_write(old(self)@, seq![0x7bu8]),
                        self@ == base.push(
                            EntryView {
                                members: sorted_members(model, i as nat),
                                key_phase: i == 0,
                                ..EntryView::fresh()
                            },
                        ),
                        writer@ == sink_after_write(old(self)@, old(writer)@, seq![0x7bu8]),
                    decreases members@.len() - i,
                {
                    let member = &members[i];
                    self.begin_object_key(writer, i == 0)?;
                    self.write_string(writer, member.key.as_str())?;
                    self.end_object_key(writer)?;
                    self.begin_object_value(writer)?;
                    match self.write_value(writer, &member.value) {
                        Ok(()) => {},
                        Err(e) => {
                            assert(!encodable(model[i as int].value));
                            proof {
                                crate::value::lemma_object_not_encodable(model, i as int);
                            }
                            return Err(e);
                        },
                    }
                    self.end_object_value(writer)?;
                    proof {
                        let done = sorted_members(model, (i + 1) as nat);
                        assert(done == insert_member(
                            sorted_members(model, i as nat),
                            written_member(model[i as int]),
                        ));
                        assert(self@ =~= base.push(
                            EntryView { members: done, key_phase: false, ..EntryView::fresh() },
                        ));
                    }
                    i = i + 1;
                }
                let ghost top = self@.last();
                proof {
                    let text = canonical(value.model());
                    let tail = object_tail(top);
                    assert(base.push(top).drop_last() =~= base);
                    assert(text =~= seq![0x7bu8] + tail);
                    lemma_write_twice(old(self)@, old(writer)@, seq![0x7bu8], tail);
                }
                self.end_object(writer)?;
                Ok(())
            },
        }
    }

    /// Writes the canonical text of a value that was read from a raw
    /// fragment. The value is encoded by an encoder of its own, so the open
    /// frames take no part in it. A value without canonical text is refused
    /// and nothing is written.
    pub fn write_raw_value(&mut self, writer: &mut Vec<u8>, value: &JsonValue) -> (r: Result<
        (),
        EncodingError,
    >)
        ensures
            r is Ok <==> encodable(value.model()),
            r matches Err(e) ==> {
                &&& e == EncodingError::NonFiniteNumber
                &&& final(self)@ == old(self)@
                &&& final(writer)@ == old(writer)@
            },
            r is Ok ==> {
                let text = canonical(value.model());
                &&& final(self)@ == frames_after_write(old(self)@, text)
                &&& final(writer)@ == sink_after_write(old(self)@, old(writer)@, text)
            },
    {
        match to_vec(value) {
            Ok(text) => {
                self.write_bytes(writer, text.as_slice());
                Ok(())
            },
            Err(e) => Err(e),
        }
    }

    /// Writes a raw fragment: the text of a JSON value, which is read and
    /// written again in canonical form. A text that cannot be read is
    /// refused as malformed: one that is no JSON, or one with a double whose
    /// decimal text does not fit the scratch buffer. A value without
    /// canonical text is refused too. Nothing is written then.
    pub fn write_raw_fragment(&mut self, writer: &mut Vec<u8>, fragment: &str) -> (r: Result<
        (),
        EncodingError,
    >)
        ensures
            r is Ok <==> (parsed_value(fragment@) matches Some(json) && texts_fit(json)
                && encodable(json)),
            r matches Err(e) ==> {
                &&& e == if parsed_value(fragment@) matches Some(json) && texts_fit(json) {
                    EncodingError::NonFiniteNumber
                } else {
                    EncodingError::MalformedRawFragment
                }
                &&& final(self)@ == old(self)@
                &&& final(writer)@ == old(writer)@
            },
            r is Ok ==> {
                let text = canonical(parsed_value(fragment@)->0);
                &&& final(self)@ == frames_after_write(old(self)@, text)
                &&& final(writer)@ == sink_after_write(old(self)@, old(writer)@, text)
            },
    {
        match parse(fragment) {
            Ok(value) => self.write_raw_value(writer, &value),
            Err(e) => Err(e),
        }
    }
}

/// Encodes a value as canonical bytes.
pub fn to_vec(value: &JsonValue) -> (r: Result<Vec<u8>, EncodingError>)
    ensures
        r is Ok <==> encodable(value.model()),
        r matches Ok(text) ==> text@ == canonical(value.model()),
        r matches Err(e) ==> e == EncodingError::NonFiniteNumber,
{
    let mut text: Vec<u8> = Vec::new();
    let mut formatter = JcsFormatter::new();
    match formatter.write_value(&mut text, value) {
        Ok(()) => {
            assert(text@ =~= canonical(value.model()));
            Ok(text)
        },
        Err(e) => Err(e),
    }
}

/// Calls `String::from_utf8`, which gives the `String` with the given bytes
/// where they are valid UTF-8, and an error where they are not.
#[verifier::external_body]
fn string_from_utf8(bytes: Vec<u8>) -> (r: Option<String>)
    ensures
        r is Some <==> vstd::utf8::valid_utf8(bytes@),
        r matches Some(text) ==> vstd::utf8::encode_utf8(text@) == bytes@,
{
    match String::from_utf8(bytes) {
        Ok(text) => Some(text),
        Err(_) => None,
    }
}

/// Encodes a value as canonical text, which is the canonical bytes read as
/// UTF-8.
pub fn to_string(value: &JsonValue) -> (r: Result<String, EncodingError>)
    ensures
        r is Ok <==> encodable(value.model()),
        r matches Ok(text) ==> vstd::utf8::encode_utf8(text@) == canonical(value.model()),
        r matches Err(e) ==> e == EncodingError::NonFiniteNumber,
{
    match to_vec(value) {
        Ok(bytes) => {
            proof {
                crate::wellformed::lemma_canonical_valid(value.model());
            }
            match string_from_utf8(bytes) {
                Some(text) => Ok(text),
                None => vstd::pervasive::unreached(),
            }
        },
        Err(e) => Err(e),
    }
}

/// Encodes a value and appends its canonical bytes to `writer`. Where the
/// value has no canonical text, nothing is appended.
pub fn to_writer(writer: &mut Vec<u8>, value: &JsonValue) -> (r: Result<(), EncodingError>)
    ensures
        r is Ok <==> encodable(value.model()),
        r is Ok ==> final(writer)@ == old(writer)@ + canonical(value.model()),
        r matches Err(e) ==> e == EncodingError::NonFiniteNumber && final(writer)@ == old(writer)@,
{
    match to_vec(value) {
        Ok(text) => {
            append_bytes(writer, text.as_slice());
            Ok(())
        },
        Err(e) => Err(e),
    }
}

} // verus!
