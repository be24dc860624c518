//! Conversions between tags and the values that they hold.

use crate::tag::{Compound, ListTag, NamedTag, Tag, TagID};
use vstd::prelude::*;
use vstd::std_specs::convert::{FromSpecImpl, TryFromSpecImpl};

verus! {

/// A type whose values are the payload of one kind of tag.
pub trait NbtType: Sized {
    /// The kind of tag that holds values of this type.
    spec fn kind() -> TagID;

    /// The tag that holds `self`.
    spec fn tagged(self) -> Tag;

    /// The kind of tag that holds values of this type.
    fn id() -> (id: TagID)
        ensures
            id == Self::kind(),
    ;

    /// The tag that holds `self`.
    fn nbt(self) -> (tag: Tag)
        ensures
            tag == self.tagged(),
            tag@.id() == Self::kind(),
    ;
}

/// A type whose values can be turned into a tag, most often a dictionary.
/// An encoder says in `encoded` which tag a value becomes.
pub trait EncodeNbt: Sized {
    /// The value of the tag that `self` becomes.
    spec fn encoded(self) -> crate::tag::TagValue;

    /// The tag that `self` becomes.
    fn encode_nbt(self) -> (tag: Tag)
        ensures
            tag@ == self.encoded(),
    ;
}

/// A type whose values can be taken out of a tag. A decoder says in
/// `decodes` which tags it accepts.
pub trait DecodeNbt: Sized {
    /// What the decoder fails with.
    type Error;

    /// Whether the decoder accepts `nbt`.
    spec fn decodes(nbt: Tag) -> bool;

    /// The value that the decoder takes out of a tag that it accepts.
    spec fn decoded(nbt: Tag) -> Self;

    /// Takes a value out of `nbt`, which it succeeds in exactly where it
    /// accepts `nbt`.
    fn decode_nbt(nbt: Tag) -> (r: Result<Self, Self::Error>)
        ensures
            r is Ok <==> Self::decodes(nbt),
            r is Ok ==> r->Ok_0 == Self::decoded(nbt),
    ;
}

impl NbtType for i8 {
    open spec fn kind() -> TagID {
        TagID::Byte
    }

    open spec fn tagged(self) -> Tag {
        Tag::Byte(self)
    }

    fn id() -> (id: TagID) {
        TagID::Byte
    }

    fn nbt(self) -> (tag: Tag) {
        Tag::Byte(self)
    }
}

impl EncodeNbt for &i8 {
    open spec fn encoded(self) -> crate::tag::TagValue {
        Tag::Byte(*self)@
    }

    fn encode_nbt(self) -> (tag: Tag) {
        Tag::Byte(*self)
    }
}

impl DecodeNbt for i8 {
    type Error = ();

    open spec fn decodes(nbt: Tag) -> bool {
        nbt is Byte
    }

    open spec fn decoded(nbt: Tag) -> Self {
        nbt->Byte_0
    }

    fn decode_nbt(nbt: Tag) -> (r: Result<Self, ()>) {
        match nbt {
            Tag::Byte(inner) => Ok(inner),
            _ => Err(()),
        }
    }
}

impl NbtType for i16 {
    open spec fn kind() -> TagID {
        TagID::Short
    }

    open spec fn tagged(self) -> Tag {
        Tag::Short(self)
    }

    fn id() -> (id: TagID) {
        TagID::Short
    }

    fn nbt(self) -> (tag: Tag) {
        Tag::Short(self)
    }
}

impl EncodeNbt for &i16 {
    open spec fn encoded(self) -> crate::tag::TagValue {
        Tag::Short(*self)@
    }

    fn encode_nbt(self) -> (tag: Tag) {
        Tag::Short(*self)
    }
}

impl DecodeNbt for i16 {
    type Error = ();

    open spec fn decodes(nbt: Tag) -> bool {
        nbt is Short
    }

    open spec fn decoded(nbt: Tag) -> Self {
        nbt->Short_0
    }

    fn decode_nbt(nbt: Tag) -> (r: Result<Self, ()>) {
        match nbt {
            Tag::Short(inner) => Ok(inner),
            _ => Err(()),
        }
    }
}

impl NbtType for i32 {
    open spec fn kind() -> TagID {
        TagID::Int
    }

    open spec fn tagged(self) -> Tag {
        Tag::Int(self)
    }

    fn id() -> (id: TagID) {
        TagID::Int
    }

    fn nbt(self) -> (tag: Tag) {
        Tag::Int(self)
    }
}

impl EncodeNbt for &i32 {
    open spec fn encoded(self) -> crate::tag::TagValue {
        Tag::Int(*self)@
    }

    fn encode_nbt(self) -> (tag: Tag) {
        Tag::Int(*self)
    }
}

impl DecodeNbt for i32 {
    type Error = ();

    open spec fn decodes(nbt: Tag) -> bool {
        nbt is Int
    }

    open spec fn decoded(nbt: Tag) -> Self {
        nbt->Int_0
    }

    fn decode_nbt(nbt: Tag) -> (r: Result<Self, ()>) {
        match nbt {
            Tag::Int(inner) => Ok(inner),
            _ => Err(()),
        }
    }
}

impl NbtType for i64 {
    open spec fn kind() -> TagID {
        TagID::Long
    }

    open spec fn tagged(self) -> Tag {
        Tag::Long(self)
    }

    fn id() -> (id: TagID) {
        TagID::Long
    }

    fn nbt(self) -> (tag: Tag) {
        Tag::Long(self)
    }
}

impl EncodeNbt for &i64 {
    open spec fn encoded(self) -> crate::tag::TagValue {
        Tag::Long(*self)@
    }

    fn encode_nbt(self) -> (tag: Tag) {
        Tag::Long(*self)
    }
}

impl DecodeNbt for i64 {
    type Error = ();

    open spec fn decodes(nbt: Tag) -> bool {
        nbt is Long
    }

    open spec fn decoded(nbt: Tag) -> Self {
        nbt->Long_0
    }

    fn decode_nbt(nbt: Tag) -> (r: Result<Self, ()>) {
        match nbt {
            Tag::Long(inner) => Ok(inner),
            _ => Err(()),
        }
    }
}

impl NbtType for u32 {
    open spec fn kind() -> TagID {
        TagID::Float
    }

    open spec fn tagged(self) -> Tag {
        Tag::Float(self)
    }

    fn id() -> (id: TagID) {
        TagID::Float
    }

    fn nbt(self) -> (tag: Tag) {
        Tag::Float(self)
    }
}

impl EncodeNbt for &u32 {
    open spec fn encoded(self) -> crate::tag::TagValue {
        Tag::Float(*self)@
    }

    fn encode_nbt(self) -> (tag: Tag) {
        Tag::Float(*self)
    }
}

impl DecodeNbt for u32 {
    type Error = ();

    open spec fn decodes(nbt: Tag) -> bool {
        nbt is Float
    }

    open spec fn decoded(nbt: Tag) -> Self {
        nbt->Float_0
    }

    fn decode_nbt(nbt: Tag) -> (r: Result<Self, ()>) {
        match nbt {
            Tag::Float(inner) => Ok(inner),
            _ => Err(()),
        }
    }
}

impl NbtType for u64 {
    open spec fn kind() -> TagID {
        TagID::Double
    }

    open spec fn tagged(self) -> Tag {
        Tag::Double(self)
    }

    fn id() -> (id: TagID) {
        TagID::Double
    }

    fn nbt(self) -> (tag: Tag) {
        Tag::Double(self)
    }
}

impl EncodeNbt for &u64 {
    open spec fn encoded(self) -> crate::tag::TagValue {
        Tag::Double(*self)@
    }

    fn encode_nbt(self) -> (tag: Tag) {
        Tag::Double(*self)
    }
}

impl DecodeNbt for u64 {
    type Error = ();

    open spec fn decodes(nbt: Tag) -> bool {
        nbt is Double
    }

    open spec fn decoded(nbt: Tag) -> Self {
        nbt->Double_0
    }

    fn decode_nbt(nbt: Tag) -> (r: Result<Self, ()>) {
        match nbt {
            Tag::Double(inner) => Ok(inner),
            _ => Err(()),
        }
    }
}

impl NbtType for Vec<i8> {
    open spec fn kind() -> TagID {
        TagID::ByteArray
    }

    open spec fn tagged(self) -> Tag {
        Tag::ByteArray(self)
    }

    fn id() -> (id: TagID) {
        TagID::ByteArray
    }

    fn nbt(self) -> (tag: Tag) {
        Tag::ByteArray(self)
    }
}

impl EncodeNbt for &Vec<i8> {
    open spec fn encoded(self) -> crate::tag::TagValue {
        Tag::ByteArray(*self)@
    }

    fn encode_nbt(self) -> (tag: Tag) {
        Tag::ByteArray(vstd::slice::slice_to_vec(self.as_slice()))
    }
}

impl DecodeNbt for Vec<i8> {
    type Error = ();

    open spec fn decodes(nbt: Tag) -> bool {
        nbt is ByteArray
    }

    open spec fn decoded(nbt: Tag) -> Self {
        nbt->ByteArray_0
    }

    fn decode_nbt(nbt: Tag) -> (r: Result<Self, ()>) {
        match nbt {
            Tag::ByteArray(inner) => Ok(inner),
            _ => Err(()),
        }
    }
}

impl NbtType for String {
    open spec fn kind() -> TagID {
        TagID::String
    }

    open spec fn tagged(self) -> Tag {
        Tag::String(self)
    }

    fn id() -> (id: TagID) {
        TagID::String
    }

    fn nbt(self) -> (tag: Tag) {
        Tag::String(self)
    }
}

impl EncodeNbt for &String {
    open spec fn encoded(self) -> crate::tag::TagValue {
        Tag::String(*self)@
    }

    fn encode_nbt(self) -> (tag: Tag) {
        Tag::String(self.clone())
    }
}

impl DecodeNbt for String {
    type Error = ();

    open spec fn decodes(nbt: Tag) -> bool {
        nbt is String
    }

    open spec fn decoded(nbt: Tag) -> Self {
        nbt->String_0
    }

    fn decode_nbt(nbt: Tag) -> (r: Result<Self, ()>) {
        match nbt {
            Tag::String(inner) => Ok(inner),
            _ => Err(()),
        }
    }
}

impl NbtType for ListTag {
    open spec fn kind() -> TagID {
        TagID::List
    }

    open spec fn tagged(self) -> Tag {
        Tag::List(self)
    }

    fn id() -> (id: TagID) {
        TagID::List
    }

    fn nbt(self) -> (tag: Tag) {
        Tag::List(self)
    }
}

impl EncodeNbt for &ListTag {
    open spec fn encoded(self) -> crate::tag::TagValue {
        Tag::List(*self)@
    }

    fn encode_nbt(self) -> (tag: Tag) {
        Tag::List(self.clone())
    }
}

impl DecodeNbt for ListTag {
    type Error = ();

    open spec fn decodes(nbt: Tag) -> bool {
        nbt is List
    }

    open spec fn decoded(nbt: Tag) -> Self {
        nbt->List_0
    }

    fn decode_nbt(nbt: Tag) -> (r: Result<Self, ()>) {
        match nbt {
            Tag::List(inner) => Ok(inner),
            _ => Err(()),
        }
    }
}

impl NbtType for Compound {
    open spec fn kind() -> TagID {
        TagID::Compound
    }

    open spec fn tagged(self) -> Tag {
        Tag::Compound(self)
    }

    fn id() -> (id: TagID) {
        TagID::Compound
    }

    fn nbt(self) -> (tag: Tag) {
        Tag::Compound(self)
    }
}

impl EncodeNbt for &Compound {
    open spec fn encoded(self) -> crate::tag::TagValue {
        Tag::Compound(*self)@
    }

    fn encode_nbt(self) -> (tag: Tag) {
        Tag::Compound(self.clone())
    }
}

impl DecodeNbt for Compound {
    type Error = ();

    open spec fn decodes(nbt: Tag) -> bool {
        nbt is Compound
    }

    open spec fn decoded(nbt: Tag) -> Self {
        nbt->Compound_0
    }

    fn decode_nbt(nbt: Tag) -> (r: Result<Self, ()>) {
        match nbt {
            Tag::Compound(inner) => Ok(inner),
            _ => Err(()),
        }
    }
}

impl NbtType for Vec<i32> {
    open spec fn kind() -> TagID {
        TagID::IntArray
    }

    open spec fn tagged(self) -> Tag {
        Tag::IntArray(self)
    }

    fn id() -> (id: TagID) {
        TagID::IntArray
    }

    fn nbt(self) -> (tag: Tag) {
        Tag::IntArray(self)
    }
}

impl EncodeNbt for &Vec<i32> {
    open spec fn encoded(self) -> crate::tag::TagValue {
        Tag::IntArray(*self)@
    }

    fn encode_nbt(self) -> (tag: Tag) {
        Tag::IntArray(vstd::slice::slice_to_vec(self.as_slice()))
    }
}

impl DecodeNbt for Vec<i32> {
    type Error = ();

    open spec fn decodes(nbt: Tag) -> bool {
        nbt is IntArray
    }

    open spec fn decoded(nbt: Tag) -> Self {
        nbt->IntArray_0
    }

    fn decode_nbt(nbt: Tag) -> (r: Result<Self, ()>) {
        match nbt {
            Tag::IntArray(inner) => Ok(inner),
            _ => Err(()),
        }
    }
}

impl NbtType for Vec<i64> {
    open spec fn kind() -> TagID {
        TagID::LongArray
    }

    open spec fn tagged(self) -> Tag {
        Tag::LongArray(self)
    }

    fn id() -> (id: TagID) {
        TagID::LongArray
    }

    fn nbt(self) -> (tag: Tag) {
        Tag::LongArray(self)
    }
}

impl EncodeNbt for &Vec<i64> {
    open spec fn encoded(self) -> crate::tag::TagValue {
        Tag::LongArray(*self)@
    }

    fn encode_nbt(self) -> (tag: Tag) {
        Tag::LongArray(vstd::slice::slice_to_vec(self.as_slice()))
    }
}

impl DecodeNbt for Vec<i64> {
    type Error = ();

    open spec fn decodes(nbt: Tag) -> bool {
        nbt is LongArray
    }

    open spec fn decoded(nbt: Tag) -> Self {
        nbt->LongArray_0
    }

    fn decode_nbt(nbt: Tag) -> (r: Result<Self, ()>) {
        match nbt {
            Tag::LongArray(inner) => Ok(inner),
            _ => Err(()),
        }
    }
}

impl From<i8> for Tag {
    /// The tag of kind `Byte` that holds `value`.
    fn from(value: i8) -> (tag: Tag) {
        Tag::Byte(value)
    }
}

impl FromSpecImpl<i8> for Tag {
    open spec fn obeys_from_spec() -> bool {
        true
    }

    open spec fn from_spec(value: i8) -> Tag {
        Tag::Byte(value)
    }
}

impl From<Vec<i8>> for ListTag {
    /// The list of kind `Byte` that holds `items`.
    fn from(items: Vec<i8>) -> (list: ListTag) {
        ListTag::Byte(items)
    }
}

impl FromSpecImpl<Vec<i8>> for ListTag {
    open spec fn obeys_from_spec() -> bool {
        true
    }

    open spec fn from_spec(items: Vec<i8>) -> ListTag {
        ListTag::Byte(items)
    }
}

impl From<i16> for Tag {
    /// The tag of kind `Short` that holds `value`.
    fn from(value: i16) -> (tag: Tag) {
        Tag::Short(value)
    }
}

impl FromSpecImpl<i16> for Tag {
    open spec fn obeys_from_spec() -> bool {
        true
    }

    open spec fn from_spec(value: i16) -> Tag {
        Tag::Short(value)
    }
}

impl From<Vec<i16>> for ListTag {
    /// The list of kind `Short` that holds `items`.
    fn from(items: Vec<i16>) -> (list: ListTag) {
        ListTag::Short(items)
    }
}

impl FromSpecImpl<Vec<i16>> for ListTag {
    open spec fn obeys_from_spec() -> bool {
        true
    }

    open spec fn from_spec(items: Vec<i16>) -> ListTag {
        ListTag::Short(items)
    }
}

impl From<i32> for Tag {
    /// The tag of kind `Int` that holds `value`.
    fn from(value: i32) -> (tag: Tag) {
        Tag::Int(value)
    }
}

impl FromSpecImpl<i32> for Tag {
    open spec fn obeys_from_spec() -> bool {
        true
    }

    open spec fn from_spec(value: i32) -> Tag {
        Tag::Int(value)
    }
}

impl From<Vec<i32>> for ListTag {
    /// The list of kind `Int` that holds `items`.
    fn from(items: Vec<i32>) -> (list: ListTag) {
        ListTag::Int(items)
    }
}

impl FromSpecImpl<Vec<i32>> for ListTag {
    open spec fn obeys_from_spec() -> bool {
        true
    }

    open spec fn from_spec(items: Vec<i32>) -> ListTag {
        ListTag::Int(items)
    }
}

impl From<i64> for Tag {
    /// The tag of kind `Long` that holds `value`.
    fn from(value: i64) -> (tag: Tag) {
        Tag::Long(value)
    }
}

impl FromSpecImpl<i64> for Tag {
    open spec fn obeys_from_spec() -> bool {
        true
    }

    open spec fn from_spec(value: i64) -> Tag {
        Tag::Long(value)
    }
}

impl From<Vec<i64>> for ListTag {
    /// The list of kind `Long` that holds `items`.
    fn from(items: Vec<i64>) -> (list: ListTag) {
        ListTag::Long(items)
    }
}

impl FromSpecImpl<Vec<i64>> for ListTag {
    open spec fn obeys_from_spec() -> bool {
        true
    }

    open spec fn from_spec(items: Vec<i64>) -> ListTag {
        ListTag::Long(items)
    }
}

impl From<u32> for Tag {
    /// The tag of kind `Float` that holds `value`.
    fn from(value: u32) -> (tag: Tag) {
        Tag::Float(value)
    }
}

impl FromSpecImpl<u32> for Tag {
    open spec fn obeys_from_spec() -> bool {
        true
    }

    open spec fn from_spec(value: u32) -> Tag {
        Tag::Float(value)
    }
}

impl From<Vec<u32>> for ListTag {
    /// The list of kind `Float` that holds `items`.
    fn from(items: Vec<u32>) -> (list: ListTag) {
        ListTag::Float(items)
    }
}

impl FromSpecImpl<Vec<u32>> for ListTag {
    open spec fn obeys_from_spec() -> bool {
        true
    }

    open spec fn from_spec(items: Vec<u32>) -> ListTag {
        ListTag::Float(items)
    }
}

impl From<u64> for Tag {
    /// The tag of kind `Double` that holds `value`.
    fn from(value: u64) -> (tag: Tag) {
        Tag::Double(value)
    }
}

impl FromSpecImpl<u64> for Tag {
    open spec fn obeys_from_spec() -> bool {
        true
    }

    open spec fn from_spec(value: u64) -> Tag {
        Tag::Double(value)
    }
}

impl From<Vec<u64>> for ListTag {
    /// The list of kind `Double` that holds `items`.
    fn from(items: Vec<u64>) -> (list: ListTag) {
        ListTag::Double(items)
    }
}

impl FromSpecImpl<Vec<u64>> for ListTag {
    open spec fn obeys_from_spec() -> bool {
        true
    }

    open spec fn from_spec(items: Vec<u64>) -> ListTag {
        ListTag::Double(items)
    }
}

impl From<Vec<i8>> for Tag {
    /// The tag of kind `ByteArray` that holds `value`.
    fn from(value: Vec<i8>) -> (tag: Tag) {
        Tag::ByteArray(value)
    }
}

impl FromSpecImpl<Vec<i8>> for Tag {
    open spec fn obeys_from_spec() -> bool {
        true
    }

    open spec fn from_spec(value: Vec<i8>) -> Tag {
        Tag::ByteArray(value)
    }
}

impl From<Vec<Vec<i8>>> for ListTag {
    /// The list of kind `ByteArray` that holds `items`.
    fn from(items: Vec<Vec<i8>>) -> (list: ListTag) {
        ListTag::ByteArray(items)
    }
}

impl FromSpecImpl<Vec<Vec<i8>>> for ListTag {
    open spec fn obeys_from_spec() -> bool {
        true
    }

    open spec fn from_spec(items: Vec<Vec<i8>>) -> ListTag {
        ListTag::ByteArray(items)
    }
}

impl From<String> for Tag {
    /// The tag of kind `String` that holds `value`.
    fn from(value: String) -> (tag: Tag) {
        Tag::String(value)
    }
}

impl FromSpecImpl<String> for Tag {
    open spec fn obeys_from_spec() -> bool {
        true
    }

    open spec fn from_spec(value: String) -> Tag {
        Tag::String(value)
    }
}

impl From<Vec<String>> for ListTag {
    /// The list of kind `String` that holds `items`.
    fn from(items: Vec<String>) -> (list: ListTag) {
        ListTag::String(items)
    }
}

impl FromSpecImpl<Vec<String>> for ListTag {
    open spec fn obeys_from_spec() -> bool {
        true
    }

    open spec fn from_spec(items: Vec<String>) -> ListTag {
        ListTag::String(items)
    }
}

impl From<ListTag> for Tag {
    /// The tag of kind `List` that holds `value`.
    fn from(value: ListTag) -> (tag: Tag) {
        Tag::List(value)
    }
}

impl FromSpecImpl<ListTag> for Tag {
    open spec fn obeys_from_spec() -> bool {
        true
    }

    open spec fn from_spec(value: ListTag) -> Tag {
        Tag::List(value)
    }
}

impl From<Vec<ListTag>> for ListTag {
    /// The list of kind `List` that holds `items`.
    fn from(items: Vec<ListTag>) -> (list: ListTag) {
        ListTag::List(items)
    }
}

impl FromSpecImpl<Vec<ListTag>> for ListTag {
    open spec fn obeys_from_spec() -> bool {
        true
    }

    open spec fn from_spec(items: Vec<ListTag>) -> ListTag {
        ListTag::List(items)
    }
}

impl From<Compound> for Tag {
    /// The tag of kind `Compound` that holds `value`.
    fn from(value: Compound) -> (tag: Tag) {
        Tag::Compound(value)
    }
}

impl FromSpecImpl<Compound> for Tag {
    open spec fn obeys_from_spec() -> bool {
        true
    }

    open spec fn from_spec(value: Compound) -> Tag {
        Tag::Compound(value)
    }
}

impl From<Vec<Compound>> for ListTag {
    /// The list of kind `Compound` that holds `items`.
    fn from(items: Vec<Compound>) -> (list: ListTag) {
        ListTag::Compound(items)
    }
}

impl FromSpecImpl<Vec<Compound>> for ListTag {
    open spec fn obeys_from_spec() -> bool {
        true
    }

    open spec fn from_spec(items: Vec<Compound>) -> ListTag {
        ListTag::Compound(items)
    }
}

impl From<Vec<i32>> for Tag {
    /// The tag of kind `IntArray` that holds `value`.
    fn from(value: Vec<i32>) -> (tag: Tag) {
        Tag::IntArray(value)
    }
}

impl FromSpecImpl<Vec<i32>> for Tag {
    open spec fn obeys_from_spec() -> bool {
        true
    }

    open spec fn from_spec(value: Vec<i32>) -> Tag {
        Tag::IntArray(value)
    }
}

impl From<Vec<Vec<i32>>> for ListTag {
    /// The list of kind `IntArray` that holds `items`.
    fn from(items: Vec<Vec<i32>>) -> (list: ListTag) {
        ListTag::IntArray(items)
    }
}

impl FromSpecImpl<Vec<Vec<i32>>> for ListTag {
    open spec fn obeys_from_spec() -> bool {
        true
    }

    open spec fn from_spec(items: Vec<Vec<i32>>) -> ListTag {
        ListTag::IntArray(items)
    }
}

impl From<Vec<i64>> for Tag {
    /// The tag of kind `LongArray` that holds `value`.
    fn from(value: Vec<i64>) -> (tag: Tag) {
        Tag::LongArray(value)
    }
}

impl FromSpecImpl<Vec<i64>> for Tag {
    open spec fn obeys_from_spec() -> bool {
        true
    }

    open spec fn from_spec(value: Vec<i64>) -> Tag {
        Tag::LongArray(value)
    }
}

impl From<Vec<Vec<i64>>> for ListTag {
    /// The list of kind `LongArray` that holds `items`.
    fn from(items: Vec<Vec<i64>>) -> (list: ListTag) {
        ListTag::LongArray(items)
    }
}

impl FromSpecImpl<Vec<Vec<i64>>> for ListTag {
    open spec fn obeys_from_spec() -> bool {
        true
    }

    open spec fn from_spec(items: Vec<Vec<i64>>) -> ListTag {
        ListTag::LongArray(items)
    }
}

impl TryFrom<Tag> for i8 {
    type Error = ();

    /// The payload of a tag of kind `Byte`; fails for any other tag.
    fn try_from(tag: Tag) -> (r: Result<i8, ()>) {
        match tag {
            Tag::Byte(inner) => Ok(inner),
            _ => Err(()),
        }
    }
}

impl TryFromSpecImpl<Tag> for i8 {
    open spec fn obeys_try_from_spec() -> bool {
        true
    }

    open spec fn try_from_spec(tag: Tag) -> Result<i8, ()> {
        match tag {
            Tag::Byte(inner) => Ok(inner),
            _ => Err(()),
        }
    }
}

impl TryFrom<Tag> for i16 {
    type Error = ();

    /// The payload of a tag of kind `Short`; fails for any other tag.
    fn try_from(tag: Tag) -> (r: Result<i16, ()>) {
        match tag {
            Tag::Short(inner) => Ok(inner),
            _ => Err(()),
        }
    }
}

impl TryFromSpecImpl<Tag> for i16 {
    open spec fn obeys_try_from_spec() -> bool {
        true
    }

    open spec fn try_from_spec(tag: Tag) -> Result<i16, ()> {
        match tag {
            Tag::Short(inner) => Ok(inner),
            _ => Err(()),
        }
    }
}

impl TryFrom<Tag> for i32 {
    type Error = ();

    /// The payload of a tag of kind `Int`; fails for any other tag.
    fn try_from(tag: Tag) -> (r: Result<i32, ()>) {
        match tag {
            Tag::Int(inner) => Ok(inner),
            _ => Err(()),
        }
    }
}

impl TryFromSpecImpl<Tag> for i32 {
    open spec fn obeys_try_from_spec() -> bool {
        true
    }

    open spec fn try_from_spec(tag: Tag) -> Result<i32, ()> {
        match tag {
            Tag::Int(inner) => Ok(inner),
            _ => Err(()),
        }
    }
}

impl TryFrom<Tag> for i64 {
    type Error = ();

    /// The payload of a tag of kind `Long`; fails for any other tag.
    fn try_from(tag: Tag) -> (r: Result<i64, ()>) {
        match tag {
            Tag::Long(inner) => Ok(inner),
            _ => Err(()),
        }
    }
}

impl TryFromSpecImpl<Tag> for i64 {
    open spec fn obeys_try_from_spec() -> bool {
        true
    }

    open spec fn try_from_spec(tag: Tag) -> Result<i64, ()> {
        match tag {
            Tag::Long(inner) => Ok(inner),
            _ => Err(()),
        }
    }
}

impl TryFrom<Tag> for u32 {
    type Error = ();

    /// The payload of a tag of kind `Float`; fails for any other tag.
    fn try_from(tag: Tag) -> (r: Result<u32, ()>) {
        match tag {
            Tag::Float(inner) => Ok(inner),
            _ => Err(()),
        }
    }
}

impl TryFromSpecImpl<Tag> for u32 {
    open spec fn obeys_try_from_spec() -> bool {
        true
    }

    open spec fn try_from_spec(tag: Tag) -> Result<u32, ()> {
        match tag {
            Tag::Float(inner) => Ok(inner),
            _ => Err(()),
        }
    }
}

impl TryFrom<Tag> for u64 {
    type Error = ();

    /// The payload of a tag of kind `Double`; fails for any other tag.
    fn try_from(tag: Tag) -> (r: Result<u64, ()>) {
        match tag {
            Tag::Double(inner) => Ok(inner),
            _ => Err(()),
        }
    }
}

impl TryFromSpecImpl<Tag> for u64 {
    open spec fn obeys_try_from_spec() -> bool {
        true
    }

    open spec fn try_from_spec(tag: Tag) -> Result<u64, ()> {
        match tag {
            Tag::Double(inner) => Ok(inner),
            _ => Err(()),
        }
    }
}

impl TryFrom<Tag> for Vec<i8> {
    type Error = ();

    /// The payload of a tag of kind `ByteArray`; fails for any other tag.
    fn try_from(tag: Tag) -> (r: Result<Vec<i8>, ()>) {
        match tag {
            Tag::ByteArray(inner) => Ok(inner),
            _ => Err(()),
        }
    }
}

impl TryFromSpecImpl<Tag> for Vec<i8> {
    open spec fn obeys_try_from_spec() -> bool {
        true
    }

    open spec fn try_from_spec(tag: Tag) -> Result<Vec<i8>, ()> {
        match tag {
            Tag::ByteArray(inner) => Ok(inner),
            _ => Err(()),
        }
    }
}

impl TryFrom<Tag> for String {
    type Error = ();

    /// The payload of a tag of kind `String`; fails for any other tag.
    fn try_from(tag: Tag) -> (r: Result<String, ()>) {
        match tag {
            Tag::String(inner) => Ok(inner),
            _ => Err(()),
        }
    }
}

impl TryFromSpecImpl<Tag> for String {
    open spec fn obeys_try_from_spec() -> bool {
        true
    }

    open spec fn try_from_spec(tag: Tag) -> Result<String, ()> {
        match tag {
            Tag::String(inner) => Ok(inner),
            _ => Err(()),
        }
    }
}

impl TryFrom<Tag> for ListTag {
    type Error = ();

    /// The payload of a tag of kind `List`; fails for any other tag.
    fn try_from(tag: Tag) -> (r: Result<ListTag, ()>) {
        match tag {
            Tag::List(inner) => Ok(inner),
            _ => Err(()),
        }
    }
}

impl TryFromSpecImpl<Tag> for ListTag {
    open spec fn obeys_try_from_spec() -> bool {
        true
    }

    open spec fn try_from_spec(tag: Tag) -> Result<ListTag, ()> {
        match tag {
            Tag::List(inner) => Ok(inner),
            _ => Err(()),
        }
    }
}

impl TryFrom<Tag> for Compound {
    type Error = ();

    /// The payload of a tag of kind `Compound`; fails for any other tag.
    fn try_from(tag: Tag) -> (r: Result<Compound, ()>) {
        match tag {
            Tag::Compound(inner) => Ok(inner),
            _ => Err(()),
        }
    }
}

impl TryFromSpecImpl<Tag> for Compound {
    open spec fn obeys_try_from_spec() -> bool {
        true
    }

    open spec fn try_from_spec(tag: Tag) -> Result<Compound, ()> {
        match tag {
            Tag::Compound(inner) => Ok(inner),
            _ => Err(()),
        }
    }
}

impl TryFrom<Tag> for Vec<i32> {
    type Error = ();

    /// The payload of a tag of kind `IntArray`; fails for any other tag.
    fn try_from(tag: Tag) -> (r: Result<Vec<i32>, ()>) {
        match tag {
            Tag::IntArray(inner) => Ok(inner),
            _ => Err(()),
        }
    }
}

impl TryFromSpecImpl<Tag> for Vec<i32> {
    open spec fn obeys_try_from_spec() -> bool {
        true
    }

    open spec fn try_from_spec(tag: Tag) -> Result<Vec<i32>, ()> {
        match tag {
            Tag::IntArray(inner) => Ok(inner),
            _ => Err(()),
        }
    }
}

impl TryFrom<Tag> for Vec<i64> {
    type Error = ();

    /// The payload of a tag of kind `LongArray`; fails for any other tag.
    fn try_from(tag: Tag) -> (r: Result<Vec<i64>, ()>) {
        match tag {
            Tag::LongArray(inner) => Ok(inner),
            _ => Err(()),
        }
    }
}

impl TryFromSpecImpl<Tag> for Vec<i64> {
    open spec fn obeys_try_from_spec() -> bool {
        true
    }

    open spec fn try_from_spec(tag: Tag) -> Result<Vec<i64>, ()> {
        match tag {
            Tag::LongArray(inner) => Ok(inner),
            _ => Err(()),
        }
    }
}

impl From<bool> for Tag {
    /// 1 as a byte for `true`, 0 for `false`.
    fn from(on: bool) -> (tag: Tag) {
        Tag::from_bool(on)
    }
}

impl FromSpecImpl<bool> for Tag {
    open spec fn obeys_from_spec() -> bool {
        true
    }

    open spec fn from_spec(on: bool) -> Tag {
        Tag::Byte(
            if on {
                1
            } else {
                0
            },
        )
    }
}

impl TryFrom<Tag> for bool {
    type Error = ();

    /// Whether a number is not zero; fails for a tag that is no number.
    fn try_from(tag: Tag) -> (r: Result<bool, ()>) {
        tag.to_bool()
    }
}

impl TryFromSpecImpl<Tag> for bool {
    open spec fn obeys_try_from_spec() -> bool {
        true
    }

    open spec fn try_from_spec(tag: Tag) -> Result<bool, ()> {
        crate::tag::truth(tag@)
    }
}

impl From<(String, Tag)> for NamedTag {
    /// The tag under the name.
    fn from(pair: (String, Tag)) -> (named: NamedTag) {
        NamedTag::from_pair(pair.0, pair.1)
    }
}

impl FromSpecImpl<(String, Tag)> for NamedTag {
    open spec fn obeys_from_spec() -> bool {
        true
    }

    open spec fn from_spec(pair: (String, Tag)) -> NamedTag {
        NamedTag::named(pair.0, pair.1)
    }
}

impl From<NamedTag> for (String, Tag) {
    /// The name and the tag.
    fn from(named: NamedTag) -> (pair: (String, Tag)) {
        named.into_pair()
    }
}

impl FromSpecImpl<NamedTag> for (String, Tag) {
    open spec fn obeys_from_spec() -> bool {
        true
    }

    open spec fn from_spec(named: NamedTag) -> (String, Tag) {
        named.pair()
    }
}

} // verus!
