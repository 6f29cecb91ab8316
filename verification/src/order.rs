//! The order of object keys: lexicographic by UTF-16 code units.

use vstd::prelude::*;

verus! {

/// How one key stands to another in code-unit order.
#[derive(Clone, Copy, Debug, PartialEq, Eq, Structural)]
pub enum KeyOrder {
    Before,
    Same,
    After,
}

/// `a` and `b` hold the same code units at every index below `n`.
pub open spec fn agree_until(a: Seq<u16>, b: Seq<u16>, n: int) -> bool {
    &&& 0 <= n <= a.len()
    &&& n <= b.len()
    &&& forall|j: int| 0 <= j < n ==> a[j] == b[j]
}

/// `a` sorts strictly before `b`: at the first index where they differ `a`
/// has ended, or holds the smaller code unit.
pub open spec fn units_before(a: Seq<u16>, b: Seq<u16>) -> bool {
    exists|n: int| #[trigger]
        agree_until(a, b, n) && n < b.len() && (n == a.len() || a[n] < b[n])
}

/// Code-unit order is irreflexive.
pub proof fn lemma_order_irreflexive(a: Seq<u16>)
    ensures
        !units_before(a, a),
{
}

/// Code-unit order is asymmetric.
pub proof fn lemma_order_asymmetric(a: Seq<u16>, b: Seq<u16>)
    requires
        units_before(a, b),
    ensures
        !units_before(b, a),
{
    let n = choose|n: int| #[trigger]
        agree_until(a, b, n) && n < b.len() && (n == a.len() || a[n] < b[n]);
    assert forall|k: int| #[trigger]
        agree_until(b, a, k) && k < a.len() && (k == b.len() || b[k] < a[k]) implies false by {
        if k < n {
            assert(a[k] == b[k]);
        } else if k > n {
            assert(b[n] == a[n]);
        }
    }
}

/// Code-unit order is transitive.
pub proof fn lemma_order_transitive(a: Seq<u16>, b: Seq<u16>, c: Seq<u16>)
    requires
        units_before(a, b),
        units_before(b, c),
    ensures
        units_before(a, c),
{
    let n = choose|n: int| #[trigger]
        agree_until(a, b, n) && n < b.len() && (n == a.len() || a[n] < b[n]);
    let m = choose|m: int| #[trigger]
        agree_until(b, c, m) && m < c.len() && (m == b.len() || b[m] < c[m]);
    let k = if n <= m { n } else { m };
    assert(agree_until(a, c, k));
    if n < m {
        assert(b[n] == c[n]);
    } else if m < n {
        assert(a[m] == b[m]);
    }
}

/// Code-unit order is total: two keys are equal, or one sorts before the other.
pub proof fn lemma_order_total(a: Seq<u16>, b: Seq<u16>)
    ensures
        a == b || units_before(a, b) || units_before(b, a),
{
    if a != b {
        assert(agree_until(a, b, 0));
        lemma_first_difference(a, b, 0);
    }
}

/// From an index up to which two different keys agree, one is found to sort
/// before the other.
proof fn lemma_first_difference(a: Seq<u16>, b: Seq<u16>, n: int)
    requires
        agree_until(a, b, n),
        a != b,
    ensures
        units_before(a, b) || units_before(b, a),
    decreases a.len() - n,
{
    assert(agree_until(b, a, n));
    if n == a.len() && n == b.len() {
        assert(a =~= b);
    } else if n == a.len() || n == b.len() {
    } else if a[n] != b[n] {
    } else {
        assert(agree_until(a, b, n + 1));
        lemma_first_difference(a, b, n + 1);
    }
}

/// Compares two keys by their UTF-16 code units.
pub fn key_order(a: &[u16], b: &[u16]) -> (r: KeyOrder)
    ensures
        r == KeyOrder::Before <==> units_before(a@, b@),
        r == KeyOrder::Same <==> a@ == b@,
        r == KeyOrder::After <==> units_before(b@, a@),
{
    let mut n: usize = 0;
    while n < a.len() && n < b.len() && a[n] == b[n]
        invariant
            agree_until(a@, b@, n as int),
        decreases a@.len() - n,
    {
        n = n + 1;
    }
    proof {
        assert(agree_until(b@, a@, n as int));
        lemma_order_irreflexive(a@);
    }
    if n == a.len() && n == b.len() {
        proof {
            assert(a@ =~= b@);
        }
        KeyOrder::Same
    } else if n == a.len() || (n < b.len() && a[n] < b[n]) {
        proof {
            lemma_order_asymmetric(a@, b@);
        }
        KeyOrder::Before
    } else {
        proof {
            lemma_order_asymmetric(b@, a@);
        }
        KeyOrder::After
    }
}

/// The UTF-16 code units of one character: itself below U+10000, a surrogate
/// pair from there on.
pub open spec fn char_units(c: char) -> Seq<u16> {
    scalar_units(c as u32)
}

/// The UTF-16 code units of a character given by its number.
pub open spec fn scalar_units(v: u32) -> Seq<u16> {
    if v < 0x10000 {
        seq![v as u16]
    } else {
        seq![(0xD800 + (v - 0x10000) / 0x400) as u16, (0xDC00 + (v - 0x10000) % 0x400) as u16]
    }
}

/// Appends the UTF-16 code units of the character with the given number.
pub fn push_scalar_units(units: &mut Vec<u16>, v: u32)
    requires
        v <= 0x10FFFF,
    ensures
        final(units)@ == old(units)@ + scalar_units(v),
{
    if v < 0x10000 {
        units.push(v as u16);
    } else {
        let w: u32 = v - 0x10000;
        units.push((0xD800 + w / 0x400) as u16);
        units.push((0xDC00 + w % 0x400) as u16);
    }
    assert(units@ =~= old(units)@ + scalar_units(v));
}

/// The UTF-16 code units of a text.
pub open spec fn utf16_units(text: Seq<char>) -> Seq<u16>
    decreases text.len(),
{
    if text.len() == 0 {
        Seq::empty()
    } else {
        utf16_units(text.drop_last()) + char_units(text.last())
    }
}

/// Each byte taken as one code unit.
pub open spec fn raw_units(bytes: Seq<u8>) -> Seq<u16> {
    Seq::new(bytes.len(), |i: int| bytes[i] as u16)
}

/// Different bytes are different as code units.
pub proof fn lemma_raw_units_injective(a: Seq<u8>, b: Seq<u8>)
    requires
        raw_units(a) == raw_units(b),
    ensures
        a == b,
{
    assert(a.len() == raw_units(a).len());
    assert(b.len() == raw_units(b).len());
    assert forall|i: int| 0 <= i < a.len() implies a[i] == b[i] by {
        assert(raw_units(a)[i] == a[i] as u16);
        assert(raw_units(b)[i] == b[i] as u16);
    }
    assert(a =~= b);
}

/// The code units of a text that continues another are appended to those of
/// the first.
pub proof fn lemma_utf16_units_concat(a: Seq<char>, b: Seq<char>)
    ensures
        utf16_units(a + b) == utf16_units(a) + utf16_units(b),
    decreases b.len(),
{
    if b.len() == 0 {
        assert(a + b =~= a);
        assert(utf16_units(a) + utf16_units(b) =~= utf16_units(a));
    } else {
        assert((a + b).drop_last() =~= a + b.drop_last());
        lemma_utf16_units_concat(a, b.drop_last());
        assert(utf16_units(a + b) =~= utf16_units(a) + utf16_units(b));
    }
}

/// The code units of a character end in a low surrogate exactly when the
/// character lies above U+FFFF, and they give the character back.
proof fn lemma_char_units(c: char)
    ensures
        (c as u32) < 0x10000 ==> char_units(c).len() == 1 && char_units(c)[0] == c as u32 && !(
        0xDC00 <= char_units(c)[0] <= 0xDFFF),
        (c as u32) >= 0x10000 ==> char_units(c).len() == 2 && 0xD800 <= char_units(c)[0] <= 0xDBFF
            && 0xDC00 <= char_units(c)[1] <= 0xDFFF && c as u32 == 0x10000 + (char_units(c)[0]
            - 0xD800) * 0x400 + (char_units(c)[1] - 0xDC00),
{
    vstd::utf8::char_is_scalar(c);
}

/// Different texts have different code units: a key is known by its code
/// units.
pub proof fn lemma_utf16_units_injective(a: Seq<char>, b: Seq<char>)
    requires
        utf16_units(a) == utf16_units(b),
    ensures
        a == b,
    decreases a.len() + b.len(),
{
    if a.len() == 0 || b.len() == 0 {
        if a.len() > 0 {
            lemma_char_units(a.last());
            assert(utf16_units(a) == utf16_units(a.drop_last()) + char_units(a.last()));
            assert(utf16_units(a).len() >= 1);
            assert(utf16_units(b).len() == 0);
        }
        if b.len() > 0 {
            lemma_char_units(b.last());
            assert(utf16_units(b) == utf16_units(b.drop_last()) + char_units(b.last()));
            assert(utf16_units(b).len() >= 1);
            assert(utf16_units(a).len() == 0);
        }
        assert(a.len() == 0 && b.len() == 0);
        assert(a =~= b);
    } else {
        let x = a.last();
        let y = b.last();
        let front_a = utf16_units(a.drop_last());
        let front_b = utf16_units(b.drop_last());
        let all = utf16_units(a);
        lemma_char_units(x);
        lemma_char_units(y);
        assert(all == front_a + char_units(x));
        assert(all == front_b + char_units(y));
        assert(all.last() == char_units(x).last());
        assert(all.last() == char_units(y).last());
        vstd::utf8::char_is_scalar(x);
        vstd::utf8::char_is_scalar(y);
        if (x as u32) < 0x10000 {
            assert(front_a =~= all.drop_last());
            assert(front_b =~= all.drop_last());
        } else {
            assert(all[all.len() - 2] == char_units(x)[0]);
            assert(all[all.len() - 2] == char_units(y)[0]);
            assert(front_a =~= all.take(all.len() - 2));
            assert(front_b =~= all.take(all.len() - 2));
        }
        assert(x as u32 == y as u32);
        vstd::utf8::char_u32_cast(x, x as u32);
        vstd::utf8::char_u32_cast(y, y as u32);
        lemma_utf16_units_injective(a.drop_last(), b.drop_last());
        assert(a =~= a.drop_last().push(x));
        assert(b =~= b.drop_last().push(y));
    }
}

/// Appends each byte of `bytes` to `units` as one code unit.
pub fn push_raw_units(units: &mut Vec<u16>, bytes: &[u8])
    ensures
        final(units)@ == old(units)@ + raw_units(bytes@),
{
    let mut i: usize = 0;
    while i < bytes.len()
        invariant
            i <= bytes@.len(),
            units@ == old(units)@ + raw_units(bytes@.take(i as int)),
        decreases bytes@.len() - i,
    {
        units.push(bytes[i] as u16);
        i = i + 1;
        assert(units@ =~= old(units)@ + raw_units(bytes@.take(i as int)));
    }
    assert(bytes@.take(bytes@.len() as int) =~= bytes@);
}

} // verus!
