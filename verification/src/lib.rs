//! A codec for the Named Binary Tag tree format: the data model, the
//! big-endian binary encoding, and the textual notation.
//!
//! - [`tag`] holds the data model: [`tag::Tag`], [`tag::ListTag`],
//!   [`tag::Compound`] and [`tag::NamedTag`], each with the mathematical
//!   value that the contracts speak of.
//! - [`wire`] and [`layout`] say what the values look like in bytes and what
//!   a reader makes of given bytes; [`io`] reads and writes accordingly, and
//!   [`laws`] proves that reading gives back what was written.
//! - [`snbt`] cuts a text into tokens and [`parse`] reads a tag from them;
//!   [`format`] writes values in the textual notation.
//!
//! A float is held as its IEEE 754 bit pattern throughout.

use vstd::prelude::*;

pub mod convert;
pub mod endian;
pub mod family;
pub mod format;
pub mod io;
pub mod laws;
pub mod layout;
pub mod parse;
pub mod snbt;
pub mod tag;
pub mod text;
pub mod wire;

verus! {

/// Why reading binary data failed.
#[derive(Clone, Copy, PartialEq, Eq, Structural, Debug)]
pub enum NbtError {
    /// The bytes ended before a value was complete.
    IoError,
    /// The bytes of a string are not UTF-8.
    FromUtf8Error,
    /// A kind byte that is neither the end marker nor one of the twelve kinds.
    Unsupported { id_encountered: u8 },
    /// The end marker stood where a kind was expected.
    End,
    /// Lists and dictionaries are nested deeper than the reader was allowed
    /// to go.
    TooDeep,
}

} // verus!
