//! Fixed scratch storage for the text of one number.

use vstd::prelude::*;
use vstd::string::StringSliceAdditionalSpecFns;

verus! {

/// Scratch space that holds the decimal text of one finite number while it is
/// on its way to the output: a sign, up to 17 digits, a point, an exponent
/// mark and an exponent of up to three digits fit in it.
#[derive(Clone, Copy, Debug)]
pub struct Buffer {
    bytes: [u8; 25],
}

impl Buffer {
    /// The capacity in bytes.
    pub const SIZE: usize = 25;

    /// The bytes that the buffer holds.
    pub closed spec fn view(&self) -> Seq<u8> {
        self.bytes@
    }

    /// A zeroed buffer.
    pub fn new() -> (r: Self)
        ensures
            r@ == Seq::new(Self::SIZE as nat, |i: int| 0u8),
    {
        let r = Buffer { bytes: [0u8; 25] };
        assert(r@ =~= Seq::new(Self::SIZE as nat, |i: int| 0u8));
        r
    }

    /// Stores the text of a finite number and returns the bytes written. The
    /// text must fit the buffer; nothing is written beyond its capacity, and
    /// the bytes behind the text stay as they were.
    pub fn format_finite(&mut self, text: &str) -> (r: &[u8])
        requires
            text.spec_bytes().len() <= Self::SIZE,
        ensures
            r@ == text.spec_bytes(),
            final(self)@.len() == Self::SIZE,
            final(self)@.take(r@.len() as int) == r@,
            final(self)@.skip(r@.len() as int) == old(self)@.skip(r@.len() as int),
    {
        let src: &[u8] = text.as_bytes();
        let n: usize = src.len();
        let mut i: usize = 0;
        while i < n
            invariant
                i <= n == src@.len() <= 25,
                forall|j: int| 0 <= j < i ==> self.bytes@[j] == src@[j],
                forall|j: int| i <= j < 25 ==> self.bytes@[j] == old(self).bytes@[j],
            decreases n - i,
        {
            self.bytes[i] = src[i];
            i = i + 1;
        }
        let r = vstd::slice::slice_subrange(self.bytes.as_slice(), 0, n);
        assert(r@ =~= src@);
        assert(self@.take(n as int) =~= r@);
        assert(self@.skip(n as int) =~= old(self)@.skip(n as int));
        r
    }
}

impl Default for Buffer {
    fn default() -> (r: Self)
        ensures
            r@ == Seq::new(Self::SIZE as nat, |i: int| 0u8),
    {
        Buffer::new()
    }
}

} // verus!
