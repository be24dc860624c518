//! Marker traits that sort the payload types into families.

use vstd::prelude::*;

verus! {

/// A payload type other than a single byte.
pub trait NonByte {
}

/// A payload type of a fixed width.
pub trait Primitive {
}

/// A payload type of a fixed width of more than one byte.
pub trait NonBytePrimitive {
}

impl<T: NonBytePrimitive> NonByte for T {
}

impl<T: NonBytePrimitive> Primitive for T {
}

impl Primitive for i8 {
}

impl NonBytePrimitive for i16 {
}

impl NonBytePrimitive for i32 {
}

impl NonBytePrimitive for i64 {
}

impl NonBytePrimitive for u32 {
}

impl NonBytePrimitive for u64 {
}

impl NonByte for Vec<i8> {
}

impl NonByte for String {
}

impl NonByte for Vec<i32> {
}

impl NonByte for Vec<i64> {
}

} // verus!
