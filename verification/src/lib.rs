//! Canonical JSON encoding after the JSON Canonicalization Scheme (RFC 8785).
//!
//! The encoder receives the write events of a value tree in document order and
//! produces the one canonical text of that value: object members sorted by the
//! UTF-16 code units of their keys, numbers in their shortest form, strings
//! with a fixed set of escapes, and no insignificant whitespace.
//!
//! * [`ser`] holds the encoder and the entry points that encode a whole value.
//! * [`entry`] holds the frame that buffers the members of one open object.
//! * [`order`] holds the order of keys, [`escape`] the escapes of strings,
//!   [`number`] the text of numbers and [`buffer`] the scratch space that the
//!   text of a floating-point number passes through.
//! * [`key`] reads the text that the bytes of a key stand for and orders
//!   keys by it.
//! * [`value`] holds JSON values and states the canonical text of each;
//!   [`read`] reads a value from JSON text.
//! * [`laws`], [`normal`] and [`wellformed`] prove what holds of that text
//!   for every value.
//!
//! Floating-point values are taken by their IEEE-754 bits together with their
//! shortest decimal text.

pub mod buffer;
pub mod entry;
pub mod error;
pub mod escape;
pub mod key;
pub mod laws;
pub mod normal;
pub mod number;
pub mod order;
pub mod read;
pub mod ser;
pub mod value;
pub mod wellformed;
