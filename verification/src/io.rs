//! Reading and writing the binary format.

use crate::NbtError;
use crate::endian::{
    be_bytes, be_value, get_i16, get_i32, get_i64, get_i8, get_u16, get_u32, get_u64,
    lemma_be_bytes_len, put_i16, put_i32, put_i64, put_i8, put_u16, put_u32, put_u64,
};
use crate::family::NonByte;
use crate::layout::{
    compound_wire, compounds_unwire, compounds_wire, entries_encodable, entries_unwire,
    entries_well_formed, entries_wire, entry_encodable, entry_unwire, lemma_compounds_encodable,
    lemma_compounds_unwire_error, lemma_compounds_well_formed, lemma_compounds_wire_prefix,
    lemma_entries_encodable, lemma_entries_wire_prefix, lemma_lists_encodable,
    lemma_lists_unwire_error, lemma_lists_well_formed, lemma_lists_wire_prefix,
    lemma_values_well_formed, list_encodable, list_unwire, list_well_formed, list_wire,
    lists_unwire, lists_wire, named_unwire, named_wire, shifted, tag_encodable, tag_unwire,
    tag_well_formed, tag_wire, tail,
};
use crate::tag::{
    compound_values, lemma_compound_values, lemma_list_values, list_values, Compound, Entries,
    ListTag, ListValue, NamedTag, Tag, TagID, TagValue,
};
use crate::wire::{
    concat_wire, lemma_concat_wire_bytes, lemma_concat_wire_prefix, lemma_unwire_items_error,
    unsigned_byte, unwire_array, unwire_items, unwire_string, Wire,
};
use vstd::prelude::*;
use vstd::slice::{slice_subrange, slice_to_vec};
use vstd::utf8::{decode_utf8, encode_utf8, valid_utf8};

verus! {

/// A type whose values have a binary encoding of a known size.
pub trait NbtSize {
    /// The mathematical value that the encoding is defined on.
    type Value: Wire;

    /// The mathematical value of `self`.
    spec fn value(&self) -> Self::Value;

    /// The number of bytes that writing `self` takes, computed without
    /// writing.
    fn nbt_size(&self) -> (size: usize)
        requires
            self.value().wire().len() <= usize::MAX,
        ensures
            size == self.value().wire().len(),
    ;

    /// Whether the format can hold `self`: every length fits its prefix.
    fn is_encodable(&self) -> (fits: bool)
        ensures
            fits == self.value().encodable(),
    ;
}

/// A type whose values can be written in the binary format.
pub trait NbtWrite: NbtSize {
    /// Appends the encoding of `self` and returns the number of bytes added.
    fn nbt_write(&self, writer: &mut Vec<u8>) -> (written: usize)
        requires
            self.value().encodable(),
        ensures
            final(writer)@ == old(writer)@ + self.value().wire(),
            written == self.value().wire().len(),
    ;
}

/// A type whose values can be read from the binary format.
pub trait NbtRead: NbtSize + Sized {
    /// Reads one value that starts at `pos`. Gives the value and the position
    /// behind it, or the error that the format names for these bytes.
    fn nbt_read(reader: &[u8], pos: usize) -> (r: Result<(Self, usize), NbtError>)
        requires
            pos <= reader@.len(),
        ensures
            match Self::Value::unwire(reader@.skip(pos as int)) {
                Ok((value, used)) => r is Ok && r->Ok_0.0.value() == value && r->Ok_0.1 == pos
                    + used,
                Err(e) => r is Err && r->Err_0 == e,
            },
            r is Ok ==> pos < r->Ok_0.1 <= reader@.len(),
    ;
}

impl NbtSize for i8 {
    type Value = i8;

    open spec fn value(&self) -> i8 {
        *self
    }

    fn nbt_size(&self) -> (size: usize) {
        proof {
            lemma_be_bytes_len(*self as int, 1);
        }
        1
    }

    fn is_encodable(&self) -> (fits: bool) {
        true
    }
}

impl NbtWrite for i8 {
    fn nbt_write(&self, writer: &mut Vec<u8>) -> (written: usize) {
        proof {
            lemma_be_bytes_len(*self as int, 1);
        }
        put_i8(writer, *self);
        1
    }
}

impl NbtRead for i8 {
    fn nbt_read(reader: &[u8], pos: usize) -> (r: Result<(Self, usize), NbtError>) {
        proof {
            if pos + 1 <= reader@.len() {
                assert(reader@.skip(pos as int).subrange(0, 1) =~= reader@.subrange(
                    pos as int,
                    pos + 1,
                ));
            }
        }
        match get_i8(reader, pos) {
            None => Err(NbtError::IoError),
            Some(v) => Ok((v, pos + 1)),
        }
    }
}

impl NbtSize for i16 {
    type Value = i16;

    open spec fn value(&self) -> i16 {
        *self
    }

    fn nbt_size(&self) -> (size: usize) {
        proof {
            lemma_be_bytes_len(*self as int, 2);
        }
        2
    }

    fn is_encodable(&self) -> (fits: bool) {
        true
    }
}

impl NbtWrite for i16 {
    fn nbt_write(&self, writer: &mut Vec<u8>) -> (written: usize) {
        proof {
            lemma_be_bytes_len(*self as int, 2);
        }
        put_i16(writer, *self);
        2
    }
}

impl NbtRead for i16 {
    fn nbt_read(reader: &[u8], pos: usize) -> (r: Result<(Self, usize), NbtError>) {
        proof {
            if pos + 2 <= reader@.len() {
                assert(reader@.skip(pos as int).subrange(0, 2) =~= reader@.subrange(
                    pos as int,
                    pos + 2,
                ));
            }
        }
        match get_i16(reader, pos) {
            None => Err(NbtError::IoError),
            Some(v) => Ok((v, pos + 2)),
        }
    }
}

impl NbtSize for i32 {
    type Value = i32;

    open spec fn value(&self) -> i32 {
        *self
    }

    fn nbt_size(&self) -> (size: usize) {
        proof {
            lemma_be_bytes_len(*self as int, 4);
        }
        4
    }

    fn is_encodable(&self) -> (fits: bool) {
        true
    }
}

impl NbtWrite for i32 {
    fn nbt_write(&self, writer: &mut Vec<u8>) -> (written: usize) {
        proof {
            lemma_be_bytes_len(*self as int, 4);
        }
        put_i32(writer, *self);
        4
    }
}

impl NbtRead for i32 {
    fn nbt_read(reader: &[u8], pos: usize) -> (r: Result<(Self, usize), NbtError>) {
        proof {
            if pos + 4 <= reader@.len() {
                assert(reader@.skip(pos as int).subrange(0, 4) =~= reader@.subrange(
                    pos as int,
                    pos + 4,
                ));
            }
        }
        match get_i32(reader, pos) {
            None => Err(NbtError::IoError),
            Some(v) => Ok((v, pos + 4)),
        }
    }
}

impl NbtSize for i64 {
    type Value = i64;

    open spec fn value(&self) -> i64 {
        *self
    }

    fn nbt_size(&self) -> (size: usize) {
        proof {
            lemma_be_bytes_len(*self as int, 8);
        }
        8
    }

    fn is_encodable(&self) -> (fits: bool) {
        true
    }
}

impl NbtWrite for i64 {
    fn nbt_write(&self, writer: &mut Vec<u8>) -> (written: usize) {
        proof {
            lemma_be_bytes_len(*self as int, 8);
        }
        put_i64(writer, *self);
        8
    }
}

impl NbtRead for i64 {
    fn nbt_read(reader: &[u8], pos: usize) -> (r: Result<(Self, usize), NbtError>) {
        proof {
            if pos + 8 <= reader@.len() {
                assert(reader@.skip(pos as int).subrange(0, 8) =~= reader@.subrange(
                    pos as int,
                    pos + 8,
                ));
            }
        }
        match get_i64(reader, pos) {
            None => Err(NbtError::IoError),
            Some(v) => Ok((v, pos + 8)),
        }
    }
}

impl NbtSize for u32 {
    type Value = u32;

    open spec fn value(&self) -> u32 {
        *self
    }

    fn nbt_size(&self) -> (size: usize) {
        proof {
            lemma_be_bytes_len(*self as int, 4);
        }
        4
    }

    fn is_encodable(&self) -> (fits: bool) {
        true
    }
}

impl NbtWrite for u32 {
    fn nbt_write(&self, writer: &mut Vec<u8>) -> (written: usize) {
        proof {
            lemma_be_bytes_len(*self as int, 4);
        }
        put_u32(writer, *self);
        4
    }
}

impl NbtRead for u32 {
    fn nbt_read(reader: &[u8], pos: usize) -> (r: Result<(Self, usize), NbtError>) {
        proof {
            if pos + 4 <= reader@.len() {
                assert(reader@.skip(pos as int).subrange(0, 4) =~= reader@.subrange(
                    pos as int,
                    pos + 4,
                ));
            }
        }
        match get_u32(reader, pos) {
            None => Err(NbtError::IoError),
            Some(v) => Ok((v, pos + 4)),
        }
    }
}

impl NbtSize for u64 {
    type Value = u64;

    open spec fn value(&self) -> u64 {
        *self
    }

    fn nbt_size(&self) -> (size: usize) {
        proof {
            lemma_be_bytes_len(*self as int, 8);
        }
        8
    }

    fn is_encodable(&self) -> (fits: bool) {
        true
    }
}

impl NbtWrite for u64 {
    fn nbt_write(&self, writer: &mut Vec<u8>) -> (written: usize) {
        proof {
            lemma_be_bytes_len(*self as int, 8);
        }
        put_u64(writer, *self);
        8
    }
}

impl NbtRead for u64 {
    fn nbt_read(reader: &[u8], pos: usize) -> (r: Result<(Self, usize), NbtError>) {
        proof {
            if pos + 8 <= reader@.len() {
                assert(reader@.skip(pos as int).subrange(0, 8) =~= reader@.subrange(
                    pos as int,
                    pos + 8,
                ));
            }
        }
        match get_u64(reader, pos) {
            None => Err(NbtError::IoError),
            Some(v) => Ok((v, pos + 8)),
        }
    }
}

/// The mathematical values of the items of a slice.
pub open spec fn values<T: NbtSize>(data: Seq<T>) -> Seq<T::Value> {
    Seq::new(data.len(), |i: int| data[i].value())
}

/// The bytes behind `bytemuck::cast_slice` from signed to unsigned bytes: the
/// same number of items, each with the bits of the signed byte in its place.
#[verifier::external_body]
fn cast_bytes(data: &[i8]) -> (bytes: &[u8])
    ensures
        bytes@ == data@.map_values(|v: i8| unsigned_byte(v)),
{
    bytemuck::cast_slice(data)
}

/// `String::from_utf8`: the text that `bytes` encode, and nothing exactly
/// where `bytes` are not UTF-8.
#[verifier::external_body]
fn string_from_utf8(bytes: Vec<u8>) -> (text: Option<String>)
    ensures
        text is Some <==> valid_utf8(bytes@),
        text is Some ==> text->0@ == decode_utf8(bytes@),
{
    String::from_utf8(bytes).ok()
}

/// Copies `length` bytes that start at `pos`, or fails with
/// [`NbtError::IoError`] where fewer are left.
pub fn read_bytes(reader: &[u8], pos: usize, length: usize) -> (r: Result<Vec<u8>, NbtError>)
    ensures
        pos + length <= reader@.len() ==> r is Ok && r->Ok_0@ == reader@.subrange(
            pos as int,
            pos + length,
        ),
        pos + length > reader@.len() ==> r == Err::<Vec<u8>, NbtError>(NbtError::IoError),
{
    if pos > reader.len() || reader.len() - pos < length {
        return Err(NbtError::IoError);
    }
    Ok(slice_to_vec(slice_subrange(reader, pos, pos + length)))
}

/// Appends `data` and returns the number of bytes added.
pub fn write_bytes(writer: &mut Vec<u8>, data: &[u8]) -> (written: usize)
    ensures
        final(writer)@ == old(writer)@ + data@,
        written == data@.len(),
{
    writer.extend_from_slice(data);
    assert(writer@ =~= old(writer)@ + data@);
    data.len()
}

/// Reads `length` items one after the other, the first at `pos`. Gives the
/// items and the position behind the last, or the error of the first item
/// that cannot be read.
pub fn read_array<T: NbtRead>(reader: &[u8], pos: usize, length: usize) -> (r: Result<
    (Vec<T>, usize),
    NbtError,
>)
    requires
        pos <= reader@.len(),
    ensures
        match unwire_items::<T::Value>(reader@.skip(pos as int), length as nat) {
            Ok((items, used)) => r is Ok && values(r->Ok_0.0@) == items && r->Ok_0.1 == pos + used,
            Err(e) => r is Err && r->Err_0 == e,
        },
        r is Ok ==> pos <= r->Ok_0.1 <= reader@.len(),
{
    let ghost bytes = reader@.skip(pos as int);
    let mut list: Vec<T> = Vec::new();
    let mut at: usize = pos;
    let mut i: usize = 0;
    proof {
        assert(values(list@) =~= Seq::empty());
    }
    while i < length
        invariant
            i <= length,
            pos <= at <= reader@.len(),
            bytes == reader@.skip(pos as int),
            unwire_items::<T::Value>(bytes, i as nat) == Ok::<(Seq<T::Value>, int), NbtError>(
                (values(list@), at - pos),
            ),
        decreases length - i,
    {
        proof {
            assert(bytes.skip(at - pos) =~= reader@.skip(at as int));
        }
        match T::nbt_read(reader, at) {
            Err(e) => {
                proof {
                    assert(unwire_items::<T::Value>(bytes, (i + 1) as nat) == Err::<
                        (Seq<T::Value>, int),
                        NbtError,
                    >(e));
                    lemma_unwire_items_error::<T::Value>(bytes, (i + 1) as nat, length as nat);
                }
                return Err(e);
            },
            Ok((item, next)) => {
                let ghost before = values(list@);
                list.push(item);
                proof {
                    assert(values(list@) =~= before.push(item.value()));
                }
                at = next;
                i = i + 1;
            },
        }
    }
    Ok((list, at))
}

/// Writes the items of `data` one after the other and returns the number of
/// bytes added.
pub fn write_array<T: NbtWrite>(writer: &mut Vec<u8>, data: &[T]) -> (written: usize)
    requires
        forall|i: int| 0 <= i < data@.len() ==> (#[trigger] data@[i]).value().encodable(),
    ensures
        final(writer)@ == old(writer)@ + concat_wire(values(data@)),
        written == concat_wire(values(data@)).len(),
{
    let start: usize = writer.len();
    let mut i: usize = 0;
    proof {
        assert(values(data@).take(0) =~= Seq::empty());
        assert(writer@ =~= old(writer)@ + concat_wire(values(data@).take(0)));
    }
    while i < data.len()
        invariant
            i <= data@.len(),
            start == old(writer)@.len(),
            forall|i: int| 0 <= i < data@.len() ==> (#[trigger] data@[i]).value().encodable(),
            writer@ == old(writer)@ + concat_wire(values(data@).take(i as int)),
        decreases data@.len() - i,
    {
        proof {
            lemma_concat_wire_prefix(values(data@), i as int);
        }
        data[i].nbt_write(writer);
        i = i + 1;
    }
    proof {
        assert(values(data@).take(i as int) =~= values(data@));
    }
    writer.len() - start
}

/// Adds up the sizes of the items of `data`.
pub fn array_size<T: NbtSize>(data: &[T]) -> (size: usize)
    requires
        concat_wire(values(data@)).len() <= usize::MAX,
    ensures
        size == concat_wire(values(data@)).len(),
{
    let mut size: usize = 0;
    let mut i: usize = 0;
    proof {
        assert(values(data@).take(0) =~= Seq::empty());
    }
    while i < data.len()
        invariant
            i <= data@.len(),
            concat_wire(values(data@)).len() <= usize::MAX,
            size == concat_wire(values(data@).take(i as int)).len(),
        decreases data@.len() - i,
    {
        proof {
            lemma_concat_wire_prefix(values(data@), i as int);
            lemma_concat_wire_prefix(values(data@), i + 1);
        }
        size = size + data[i].nbt_size();
        i = i + 1;
    }
    proof {
        assert(values(data@).take(i as int) =~= values(data@));
    }
    size
}

impl<T: NbtSize + NonByte> NbtSize for Vec<T> {
    type Value = Seq<T::Value>;

    open spec fn value(&self) -> Seq<T::Value> {
        values(self@)
    }

    fn nbt_size(&self) -> (size: usize) {
        proof {
            lemma_be_bytes_len(self@.len() as int, 4);
        }
        array_size(self.as_slice()) + 4
    }

    fn is_encodable(&self) -> (fits: bool) {
        if self.len() > 0xFFFF_FFFF {
            return false;
        }
        let mut i: usize = 0;
        while i < self.len()
            invariant
                i <= self@.len(),
                forall|k: int| 0 <= k < i ==> (#[trigger] values(self@)[k]).encodable(),
            decreases self@.len() - i,
        {
            if !self[i].is_encodable() {
                assert(!values(self@)[i as int].encodable());
                return false;
            }
            i = i + 1;
        }
        true
    }
}

impl<T: NbtWrite + NonByte> NbtWrite for Vec<T> {
    fn nbt_write(&self, writer: &mut Vec<u8>) -> (written: usize) {
        proof {
            assert forall|i: int| 0 <= i < self@.len() implies (#[trigger] self@[i])
                .value().encodable() by {
                assert(values(self@)[i].encodable());
            }
        }
        let start: usize = writer.len();
        put_u32(writer, self.len() as u32);
        write_array(writer, self.as_slice());
        writer.len() - start
    }
}

impl<T: NbtRead + NonByte> NbtRead for Vec<T> {
    fn nbt_read(reader: &[u8], pos: usize) -> (r: Result<(Self, usize), NbtError>) {
        reveal(unwire_array);
        proof {
            if pos + 4 <= reader@.len() {
                assert(reader@.skip(pos as int).subrange(0, 4) =~= reader@.subrange(
                    pos as int,
                    pos + 4,
                ));
                assert(reader@.skip(pos as int).skip(4) =~= reader@.skip(pos + 4));
            }
        }
        match get_u32(reader, pos) {
            None => Err(NbtError::IoError),
            Some(length) => read_array(reader, pos + 4, length as usize),
        }
    }
}

impl NbtSize for Vec<i8> {
    type Value = Seq<i8>;

    open spec fn value(&self) -> Seq<i8> {
        self@
    }

    fn nbt_size(&self) -> (size: usize) {
        proof {
            lemma_be_bytes_len(self@.len() as int, 4);
            lemma_concat_wire_bytes(self@);
        }
        self.len() + 4
    }

    fn is_encodable(&self) -> (fits: bool) {
        self.len() <= 0xFFFF_FFFF
    }
}

impl NbtWrite for Vec<i8> {
    fn nbt_write(&self, writer: &mut Vec<u8>) -> (written: usize) {
        proof {
            lemma_be_bytes_len(self@.len() as int, 4);
            lemma_concat_wire_bytes(self@);
        }
        let start: usize = writer.len();
        put_u32(writer, self.len() as u32);
        write_bytes(writer, cast_bytes(self.as_slice()));
        writer.len() - start
    }
}

impl NbtRead for Vec<i8> {
    fn nbt_read(reader: &[u8], pos: usize) -> (r: Result<(Self, usize), NbtError>) {
        reveal(unwire_array);
        proof {
            if pos + 4 <= reader@.len() {
                assert(reader@.skip(pos as int).subrange(0, 4) =~= reader@.subrange(
                    pos as int,
                    pos + 4,
                ));
                assert(reader@.skip(pos as int).skip(4) =~= reader@.skip(pos + 4));
            }
        }
        match get_u32(reader, pos) {
            None => Err(NbtError::IoError),
            Some(length) => match read_array::<i8>(reader, pos + 4, length as usize) {
                Err(e) => Err(e),
                Ok((list, next)) => {
                    proof {
                        assert(values(list@) =~= list@);
                    }
                    Ok((list, next))
                },
            },
        }
    }
}

impl NbtSize for String {
    type Value = Seq<char>;

    open spec fn value(&self) -> Seq<char> {
        self@
    }

    fn nbt_size(&self) -> (size: usize) {
        proof {
            lemma_be_bytes_len(encode_utf8(self@).len() as int, 2);
        }
        self.as_str().len() + 2
    }

    fn is_encodable(&self) -> (fits: bool) {
        str_fits(self.as_str())
    }
}

impl NbtWrite for String {
    fn nbt_write(&self, writer: &mut Vec<u8>) -> (written: usize) {
        proof {
            lemma_be_bytes_len(encode_utf8(self@).len() as int, 2);
        }
        let start: usize = writer.len();
        let text: &str = self.as_str();
        put_u16(writer, text.len() as u16);
        write_bytes(writer, text.as_bytes());
        writer.len() - start
    }
}

impl NbtRead for String {
    fn nbt_read(reader: &[u8], pos: usize) -> (r: Result<(Self, usize), NbtError>) {
        reveal(unwire_string);
        proof {
            if pos + 2 <= reader@.len() {
                assert(reader@.skip(pos as int).subrange(0, 2) =~= reader@.subrange(
                    pos as int,
                    pos + 2,
                ));
            }
        }
        let length: u16 = match get_u16(reader, pos) {
            None => {
                return Err(NbtError::IoError);
            },
            Some(length) => length,
        };
        proof {
            if pos + 2 + length <= reader@.len() {
                assert(reader@.skip(pos as int).subrange(2, 2 + length) =~= reader@.subrange(
                    pos + 2,
                    pos + 2 + length,
                ));
            }
        }
        match read_bytes(reader, pos + 2, length as usize) {
            Err(e) => Err(e),
            Ok(bytes) => match string_from_utf8(bytes) {
                None => Err(NbtError::FromUtf8Error),
                Some(text) => Ok((text, pos + 2 + length as usize)),
            },
        }
    }
}

/// Writes a string: the number of its UTF-8 bytes in two bytes, then the
/// bytes.
pub fn write_str(writer: &mut Vec<u8>, text: &str) -> (written: usize)
    requires
        text@.encodable(),
    ensures
        final(writer)@ == old(writer)@ + text@.wire(),
        written == text@.wire().len(),
{
    proof {
        lemma_be_bytes_len(encode_utf8(text@).len() as int, 2);
    }
    let start: usize = writer.len();
    put_u16(writer, text.len() as u16);
    write_bytes(writer, text.as_bytes());
    writer.len() - start
}

/// Writes a tag under a name: the kind byte, the name and the payload. This
/// is how the root of a file and each entry of a dictionary are written.
/// Returns the number of bytes added.
pub fn write_named_tag(writer: &mut Vec<u8>, tag: &Tag, name: &str) -> (written: usize)
    requires
        name@.encodable(),
        tag_encodable(tag@),
    ensures
        final(writer)@ == old(writer)@ + named_wire(name@, tag@),
        written == named_wire(name@, tag@).len(),
    decreases tag@, 1nat,
{
    let start: usize = writer.len();
    writer.push(tag.id().value() as u8);
    write_str(writer, name);
    tag.nbt_write(writer);
    assert(writer@ =~= old(writer)@ + named_wire(name@, tag@));
    writer.len() - start
}

impl Tag {
    /// Appends the payload of `self` and returns the number of bytes added.
    pub fn nbt_write(&self, writer: &mut Vec<u8>) -> (written: usize)
        requires
            tag_encodable(self@),
        ensures
            final(writer)@ == old(writer)@ + tag_wire(self@),
            written == tag_wire(self@).len(),
        decreases self@, 0nat,
    {
        match self {
            Tag::Byte(v) => v.nbt_write(writer),
            Tag::Short(v) => v.nbt_write(writer),
            Tag::Int(v) => v.nbt_write(writer),
            Tag::Long(v) => v.nbt_write(writer),
            Tag::Float(v) => v.nbt_write(writer),
            Tag::Double(v) => v.nbt_write(writer),
            Tag::ByteArray(v) => v.nbt_write(writer),
            Tag::String(v) => v.nbt_write(writer),
            Tag::List(v) => v.nbt_write(writer),
            Tag::Compound(v) => v.nbt_write(writer),
            Tag::IntArray(v) => {
                assert(values(v@) =~= v@);
                v.nbt_write(writer)
            },
            Tag::LongArray(v) => {
                assert(values(v@) =~= v@);
                v.nbt_write(writer)
            },
        }
    }
}

impl ListTag {
    /// Appends the list: the kind byte of the items, their number and the
    /// items. Returns the number of bytes added.
    pub fn nbt_write(&self, writer: &mut Vec<u8>) -> (written: usize)
        requires
            list_encodable(self@),
        ensures
            final(writer)@ == old(writer)@ + list_wire(self@),
            written == list_wire(self@).len(),
        decreases self@, 0nat,
    {
        let start: usize = writer.len();
        match self {
            ListTag::Empty => {
                writer.push(0);
                put_u32(writer, 0);
            },
            ListTag::Byte(list) => {
                assert(values(list@) =~~= self@->Byte_0);
                writer.push(1);
                list.nbt_write(writer);
            },
            ListTag::Short(list) => {
                assert(values(list@) =~~= self@->Short_0);
                writer.push(2);
                list.nbt_write(writer);
            },
            ListTag::Int(list) => {
                assert(values(list@) =~~= self@->Int_0);
                writer.push(3);
                list.nbt_write(writer);
            },
            ListTag::Long(list) => {
                assert(values(list@) =~~= self@->Long_0);
                writer.push(4);
                list.nbt_write(writer);
            },
            ListTag::Float(list) => {
                assert(values(list@) =~~= self@->Float_0);
                writer.push(5);
                list.nbt_write(writer);
            },
            ListTag::Double(list) => {
                assert(values(list@) =~~= self@->Double_0);
                writer.push(6);
                list.nbt_write(writer);
            },
            ListTag::ByteArray(list) => {
                assert(values(list@) =~~= self@->ByteArray_0);
                writer.push(7);
                list.nbt_write(writer);
            },
            ListTag::String(list) => {
                assert(values(list@) =~~= self@->String_0);
                writer.push(8);
                list.nbt_write(writer);
            },
            ListTag::List(list) => {
                proof {
                    lemma_list_values(list@);
                    lemma_lists_encodable(list_values(list@));
                    assert(list_values(list@).take(0) =~= Seq::empty());
                }
                writer.push(9);
                put_u32(writer, list.len() as u32);
                let mut i: usize = 0;
                while i < list.len()
                    invariant
                        i <= list@.len() == list_values(list@).len(),
                        self@ == ListValue::List(list_values(list@)),
                        forall|k: int|
                            0 <= k < list@.len() ==> list_values(list@)[k] == (#[trigger] list@[k])@
                                && list_encodable(list_values(list@)[k]),
                        writer@ == old(writer)@ + seq![9u8] + be_bytes(list@.len() as int, 4)
                            + lists_wire(list_values(list@).take(i as int)),
                    decreases list@.len() - i,
                {
                    proof {
                        lemma_lists_wire_prefix(list_values(list@), i as int);
                        assert(list_values(list@)[i as int] == list@[i as int]@);
                        assert(decreases_to!(self@ => self@->List_0));
                        assert(decreases_to!(list_values(list@) => list_values(list@)[i as int]));
                    }
                    list[i].nbt_write(writer);
                    i = i + 1;
                }
                proof {
                    assert(list_values(list@).take(i as int) =~= list_values(list@));
                }
            },
            ListTag::Compound(list) => {
                proof {
                    lemma_compound_values(list@);
                    lemma_compounds_encodable(compound_values(list@));
                    assert(compound_values(list@).take(0) =~= Seq::empty());
                }
                writer.push(10);
                put_u32(writer, list.len() as u32);
                let mut i: usize = 0;
                while i < list.len()
                    invariant
                        i <= list@.len() == compound_values(list@).len(),
                        self@ == ListValue::Compound(compound_values(list@)),
                        forall|k: int|
                            0 <= k < list@.len() ==> compound_values(list@)[k] == (
                            #[trigger] list@[k])@ && entries_encodable(compound_values(list@)[k]),
                        writer@ == old(writer)@ + seq![10u8] + be_bytes(list@.len() as int, 4)
                            + compounds_wire(compound_values(list@).take(i as int)),
                    decreases list@.len() - i,
                {
                    proof {
                        lemma_compounds_wire_prefix(compound_values(list@), i as int);
                        assert(compound_values(list@)[i as int] == list@[i as int]@);
                        assert(decreases_to!(self@ => self@->Compound_0));
                        assert(decreases_to!(compound_values(list@)
                            => compound_values(list@)[i as int]));
                    }
                    list[i].nbt_write(writer);
                    i = i + 1;
                }
                proof {
                    assert(compound_values(list@).take(i as int) =~= compound_values(list@));
                }
            },
            ListTag::IntArray(list) => {
                assert(values(list@) =~~= self@->IntArray_0);
                writer.push(11);
                list.nbt_write(writer);
            },
            ListTag::LongArray(list) => {
                assert(values(list@) =~~= self@->LongArray_0);
                writer.push(12);
                list.nbt_write(writer);
            },
        }
        assert(writer@ =~= old(writer)@ + list_wire(self@));
        writer.len() - start
    }
}

impl Compound {
    /// Appends the dictionary: each entry as a named tag, in order, then the
    /// end marker. Returns the number of bytes added.
    pub fn nbt_write(&self, writer: &mut Vec<u8>) -> (written: usize)
        requires
            entries_encodable(self@),
        ensures
            final(writer)@ == old(writer)@ + compound_wire(self@),
            written == compound_wire(self@).len(),
        decreases self@, 0nat,
    {
        let start: usize = writer.len();
        let mut i: usize = 0;
        proof {
            lemma_entries_encodable(self@);
            assert(self@.take(0) =~= Seq::empty());
        }
        while i < self.len()
            invariant
                i <= self@.len(),
                forall|k: int| 0 <= k < self@.len() ==> entry_encodable(#[trigger] self@[k]),
                writer@ == old(writer)@ + entries_wire(self@.take(i as int)),
            decreases self@.len() - i,
        {
            proof {
                lemma_entries_wire_prefix(self@, i as int);
                assert(entry_encodable(self@[i as int]));
            }
            write_named_tag(writer, self.tag_at(i), self.name_at(i).as_str());
            i = i + 1;
        }
        proof {
            assert(self@.take(i as int) =~= self@);
        }
        writer.push(0);
        assert(writer@ =~= old(writer)@ + compound_wire(self@));
        writer.len() - start
    }
}

/// Whether the format can hold a string: it has at most 65,535 bytes of
/// UTF-8.
pub fn str_fits(text: &str) -> (fits: bool)
    ensures
        fits == text@.encodable(),
{
    text.as_bytes().len() <= 0xFFFF
}

/// The number of bytes that a string takes: two for the length and its UTF-8
/// bytes.
pub fn str_size(text: &str) -> (size: usize)
    requires
        text@.wire().len() <= usize::MAX,
    ensures
        size == text@.wire().len(),
{
    proof {
        lemma_be_bytes_len(encode_utf8(text@).len() as int, 2);
    }
    text.len() + 2
}

impl Tag {
    /// The number of bytes that the payload of `self` takes, computed without
    /// writing.
    pub fn nbt_size(&self) -> (size: usize)
        requires
            tag_wire(self@).len() <= usize::MAX,
        ensures
            size == tag_wire(self@).len(),
        decreases self@, 0nat,
    {
        match self {
            Tag::Byte(v) => v.nbt_size(),
            Tag::Short(v) => v.nbt_size(),
            Tag::Int(v) => v.nbt_size(),
            Tag::Long(v) => v.nbt_size(),
            Tag::Float(v) => v.nbt_size(),
            Tag::Double(v) => v.nbt_size(),
            Tag::ByteArray(v) => v.nbt_size(),
            Tag::String(v) => v.nbt_size(),
            Tag::List(v) => v.nbt_size(),
            Tag::Compound(v) => v.nbt_size(),
            Tag::IntArray(v) => {
                assert(values(v@) =~= v@);
                v.nbt_size()
            },
            Tag::LongArray(v) => {
                assert(values(v@) =~= v@);
                v.nbt_size()
            },
        }
    }
}

impl ListTag {
    /// The number of bytes that the list takes: the sizes of the items and 5
    /// for the kind byte and the count. The empty list of no kind takes 5.
    pub fn nbt_size(&self) -> (size: usize)
        requires
            list_wire(self@).len() <= usize::MAX,
        ensures
            size == list_wire(self@).len(),
        decreases self@, 0nat,
    {
        match self {
            ListTag::Empty => {
                proof {
                    lemma_be_bytes_len(0, 4);
                }
                5
            },
            ListTag::Byte(list) => {
                assert(values(list@) =~~= self@->Byte_0);
                list.nbt_size() + 1
            },
            ListTag::Short(list) => {
                assert(values(list@) =~~= self@->Short_0);
                list.nbt_size() + 1
            },
            ListTag::Int(list) => {
                assert(values(list@) =~~= self@->Int_0);
                list.nbt_size() + 1
            },
            ListTag::Long(list) => {
                assert(values(list@) =~~= self@->Long_0);
                list.nbt_size() + 1
            },
            ListTag::Float(list) => {
                assert(values(list@) =~~= self@->Float_0);
                list.nbt_size() + 1
            },
            ListTag::Double(list) => {
                assert(values(list@) =~~= self@->Double_0);
                list.nbt_size() + 1
            },
            ListTag::ByteArray(list) => {
                assert(values(list@) =~~= self@->ByteArray_0);
                list.nbt_size() + 1
            },
            ListTag::String(list) => {
                assert(values(list@) =~~= self@->String_0);
                list.nbt_size() + 1
            },
            ListTag::List(list) => {
                proof {
                    lemma_list_values(list@);
                    lemma_be_bytes_len(list@.len() as int, 4);
                    assert(list_values(list@).take(0) =~= Seq::empty());
                }
                let mut size: usize = 5;
                let mut i: usize = 0;
                while i < list.len()
                    invariant
                        i <= list@.len() == list_values(list@).len(),
                        self@ == ListValue::List(list_values(list@)),
                        forall|k: int|
                            0 <= k < list@.len() ==> list_values(list@)[k]
                                == (#[trigger] list@[k])@,
                        5 + lists_wire(list_values(list@)).len() <= usize::MAX,
                        size == 5 + lists_wire(list_values(list@).take(i as int)).len(),
                    decreases list@.len() - i,
                {
                    proof {
                        lemma_lists_wire_prefix(list_values(list@), i as int);
                        lemma_lists_wire_prefix(list_values(list@), i + 1);
                        assert(list_values(list@)[i as int] == list@[i as int]@);
                        assert(decreases_to!(self@ => self@->List_0));
                        assert(decreases_to!(list_values(list@) => list_values(list@)[i as int]));
                    }
                    size = size + list[i].nbt_size();
                    i = i + 1;
                }
                proof {
                    assert(list_values(list@).take(i as int) =~= list_values(list@));
                }
                size
            },
            ListTag::Compound(list) => {
                proof {
                    lemma_compound_values(list@);
                    lemma_be_bytes_len(list@.len() as int, 4);
                    assert(compound_values(list@).take(0) =~= Seq::empty());
                }
                let mut size: usize = 5;
                let mut i: usize = 0;
                while i < list.len()
                    invariant
                        i <= list@.len() == compound_values(list@).len(),
                        self@ == ListValue::Compound(compound_values(list@)),
                        forall|k: int|
                            0 <= k < list@.len() ==> compound_values(list@)[k]
                                == (#[trigger] list@[k])@,
                        5 + compounds_wire(compound_values(list@)).len() <= usize::MAX,
                        size == 5 + compounds_wire(compound_values(list@).take(i as int)).len(),
                    decreases list@.len() - i,
                {
                    proof {
                        lemma_compounds_wire_prefix(compound_values(list@), i as int);
                        lemma_compounds_wire_prefix(compound_values(list@), i + 1);
                        assert(compound_values(list@)[i as int] == list@[i as int]@);
                        assert(decreases_to!(self@ => self@->Compound_0));
                        assert(decreases_to!(compound_values(list@)
                            => compound_values(list@)[i as int]));
                    }
                    size = size + list[i].nbt_size();
                    i = i + 1;
                }
                proof {
                    assert(compound_values(list@).take(i as int) =~= compound_values(list@));
                }
                size
            },
            ListTag::IntArray(list) => {
                assert(values(list@) =~~= self@->IntArray_0);
                list.nbt_size() + 1
            },
            ListTag::LongArray(list) => {
                assert(values(list@) =~~= self@->LongArray_0);
                list.nbt_size() + 1
            },
        }
    }
}

impl Compound {
    /// The number of bytes that the dictionary takes: for each entry 1 for the
    /// kind byte, the size of the name and the size of the value, and 1 for
    /// the end marker.
    pub fn nbt_size(&self) -> (size: usize)
        requires
            compound_wire(self@).len() <= usize::MAX,
        ensures
            size == compound_wire(self@).len(),
        decreases self@, 0nat,
    {
        let mut size: usize = 1;
        let mut i: usize = 0;
        proof {
            assert(self@.take(0) =~= Seq::empty());
        }
        while i < self.len()
            invariant
                i <= self@.len(),
                1 + entries_wire(self@).len() <= usize::MAX,
                size == 1 + entries_wire(self@.take(i as int)).len(),
            decreases self@.len() - i,
        {
            proof {
                lemma_entries_wire_prefix(self@, i as int);
                lemma_entries_wire_prefix(self@, i + 1);
            }
            size = size + named_size(self.tag_at(i), self.name_at(i).as_str());
            i = i + 1;
        }
        proof {
            assert(self@.take(i as int) =~= self@);
        }
        size
    }
}

/// The number of bytes that a tag takes under a name: 1 for the kind byte,
/// the size of the name and the size of the payload.
pub fn named_size(tag: &Tag, name: &str) -> (size: usize)
    requires
        named_wire(name@, tag@).len() <= usize::MAX,
    ensures
        size == named_wire(name@, tag@).len(),
    decreases tag@, 1nat,
{
    str_size(name) + tag.nbt_size() + 1
}

impl Tag {
    /// Reads the payload of a tag of kind `id` that starts at `pos`, going no
    /// more than `limit` lists and dictionaries deep. Gives the tag and the
    /// position behind it, or the error that the format names for these
    /// bytes.
    pub fn nbt_read_within(id: TagID, reader: &[u8], pos: usize, limit: usize) -> (r: Result<
        (Tag, usize),
        NbtError,
    >)
        requires
            pos <= reader@.len(),
        ensures
            match tag_unwire(id, reader@.skip(pos as int), limit as nat) {
                Ok((value, used)) => r is Ok && r->Ok_0.0@ == value && r->Ok_0.1 == pos + used,
                Err(e) => r is Err && r->Err_0 == e,
            },
            r is Ok ==> pos < r->Ok_0.1 <= reader@.len(),
        decreases reader@.len() - pos, 2nat,
    {
        match id {
            TagID::Byte => match i8::nbt_read(reader, pos) {
                Err(e) => Err(e),
                Ok((v, next)) => {
                    Ok((Tag::Byte(v), next))
                },
            },
            TagID::Short => match i16::nbt_read(reader, pos) {
                Err(e) => Err(e),
                Ok((v, next)) => {
                    Ok((Tag::Short(v), next))
                },
            },
            TagID::Int => match i32::nbt_read(reader, pos) {
                Err(e) => Err(e),
                Ok((v, next)) => {
                    Ok((Tag::Int(v), next))
                },
            },
            TagID::Long => match i64::nbt_read(reader, pos) {
                Err(e) => Err(e),
                Ok((v, next)) => {
                    Ok((Tag::Long(v), next))
                },
            },
            TagID::Float => match u32::nbt_read(reader, pos) {
                Err(e) => Err(e),
                Ok((v, next)) => {
                    Ok((Tag::Float(v), next))
                },
            },
            TagID::Double => match u64::nbt_read(reader, pos) {
                Err(e) => Err(e),
                Ok((v, next)) => {
                    Ok((Tag::Double(v), next))
                },
            },
            TagID::ByteArray => match Vec::<i8>::nbt_read(reader, pos) {
                Err(e) => Err(e),
                Ok((v, next)) => {
                    Ok((Tag::ByteArray(v), next))
                },
            },
            TagID::String => match String::nbt_read(reader, pos) {
                Err(e) => Err(e),
                Ok((v, next)) => {
                    Ok((Tag::String(v), next))
                },
            },
            TagID::List => match ListTag::nbt_read_within(reader, pos, limit) {
                Err(e) => Err(e),
                Ok((list, next)) => Ok((Tag::List(list), next)),
            },
            TagID::Compound => match Compound::nbt_read_within(reader, pos, limit) {
                Err(e) => Err(e),
                Ok((map, next)) => Ok((Tag::Compound(map), next)),
            },
            TagID::IntArray => match Vec::<i32>::nbt_read(reader, pos) {
                Err(e) => Err(e),
                Ok((v, next)) => {
                    assert(values(v@) =~= v@);
                    Ok((Tag::IntArray(v), next))
                },
            },
            TagID::LongArray => match Vec::<i64>::nbt_read(reader, pos) {
                Err(e) => Err(e),
                Ok((v, next)) => {
                    assert(values(v@) =~= v@);
                    Ok((Tag::LongArray(v), next))
                },
            },
        }
    }

    /// Reads the payload of a tag of kind `id` that starts at `pos`, as deep
    /// as the bytes go.
    pub fn nbt_read(id: TagID, reader: &[u8], pos: usize) -> (r: Result<(Tag, usize), NbtError>)
        requires
            pos <= reader@.len(),
        ensures
            match tag_unwire(id, reader@.skip(pos as int), (reader@.len() - pos) as nat) {
                Ok((value, used)) => r is Ok && r->Ok_0.0@ == value && r->Ok_0.1 == pos + used,
                Err(e) => r is Err && r->Err_0 == e,
            },
            r is Ok ==> pos < r->Ok_0.1 <= reader@.len(),
    {
        Tag::nbt_read_within(id, reader, pos, reader.len() - pos)
    }
}

impl ListTag {
    /// Reads a list that starts at `pos`, going no more than `limit` lists
    /// and dictionaries deep, the list counted: the kind byte of the items,
    /// their number and the items. The kind byte 0 gives [`ListTag::Empty`].
    pub fn nbt_read_within(reader: &[u8], pos: usize, limit: usize) -> (r: Result<
        (ListTag, usize),
        NbtError,
    >)
        requires
            pos <= reader@.len(),
        ensures
            match list_unwire(reader@.skip(pos as int), limit as nat) {
                Ok((value, used)) => r is Ok && r->Ok_0.0@ == value && r->Ok_0.1 == pos + used,
                Err(e) => r is Err && r->Err_0 == e,
            },
            r is Ok ==> pos < r->Ok_0.1 <= reader@.len(),
        decreases reader@.len() - pos, 0nat,
    {
        if pos >= reader.len() {
            return Err(NbtError::IoError);
        }
        if limit == 0 {
            return Err(NbtError::TooDeep);
        }
        let ghost bytes = reader@.skip(pos as int);
        proof {
            assert(bytes.skip(1) =~= reader@.skip(pos + 1));
            if pos + 5 <= reader@.len() {
                assert(bytes.subrange(1, 5) =~= reader@.subrange(pos + 1, pos + 5));
                assert(bytes.skip(5) =~= reader@.skip(pos + 5));
            }
        }
        match TagID::try_from(reader[pos]) {
            Err(NbtError::End) => match get_u32(reader, pos + 1) {
                None => Err(NbtError::IoError),
                Some(_) => Ok((ListTag::Empty, pos + 5)),
            },
            Err(e) => Err(e),
            Ok(TagID::Byte) => match Vec::<i8>::nbt_read(reader, pos + 1) {
                Err(e) => Err(e),
                Ok((list, next)) => {
                    assert(values(list@) =~~= ListTag::Byte(list)@->Byte_0);
                    Ok((ListTag::Byte(list), next))
                },
            },
            Ok(TagID::Short) => match Vec::<i16>::nbt_read(reader, pos + 1) {
                Err(e) => Err(e),
                Ok((list, next)) => {
                    assert(values(list@) =~~= ListTag::Short(list)@->Short_0);
                    Ok((ListTag::Short(list), next))
                },
            },
            Ok(TagID::Int) => match Vec::<i32>::nbt_read(reader, pos + 1) {
                Err(e) => Err(e),
                Ok((list, next)) => {
                    assert(values(list@) =~~= ListTag::Int(list)@->Int_0);
                    Ok((ListTag::Int(list), next))
                },
            },
            Ok(TagID::Long) => match Vec::<i64>::nbt_read(reader, pos + 1) {
                Err(e) => Err(e),
                Ok((list, next)) => {
                    assert(values(list@) =~~= ListTag::Long(list)@->Long_0);
                    Ok((ListTag::Long(list), next))
                },
            },
            Ok(TagID::Float) => match Vec::<u32>::nbt_read(reader, pos + 1) {
                Err(e) => Err(e),
                Ok((list, next)) => {
                    assert(values(list@) =~~= ListTag::Float(list)@->Float_0);
                    Ok((ListTag::Float(list), next))
                },
            },
            Ok(TagID::Double) => match Vec::<u64>::nbt_read(reader, pos + 1) {
                Err(e) => Err(e),
                Ok((list, next)) => {
                    assert(values(list@) =~~= ListTag::Double(list)@->Double_0);
                    Ok((ListTag::Double(list), next))
                },
            },
            Ok(TagID::ByteArray) => match Vec::<Vec<i8>>::nbt_read(reader, pos + 1) {
                Err(e) => Err(e),
                Ok((list, next)) => {
                    assert(values(list@) =~~= ListTag::ByteArray(list)@->ByteArray_0);
                    Ok((ListTag::ByteArray(list), next))
                },
            },
            Ok(TagID::String) => match Vec::<String>::nbt_read(reader, pos + 1) {
                Err(e) => Err(e),
                Ok((list, next)) => {
                    assert(values(list@) =~~= ListTag::String(list)@->String_0);
                    Ok((ListTag::String(list), next))
                },
            },
            Ok(TagID::List) => {
                let count: u32 = match get_u32(reader, pos + 1) {
                    None => {
                        return Err(NbtError::IoError);
                    },
                    Some(count) => count,
                };
                let ghost items = reader@.skip(pos + 5);
                let mut list: Vec<ListTag> = Vec::new();
                let mut at: usize = pos + 5;
                let mut i: u32 = 0;
                while i < count
                    invariant
                        i <= count,
                        limit > 0,
                        pos + 5 <= at <= reader@.len(),
                        items == reader@.skip(pos + 5),
                        bytes == reader@.skip(pos as int),
                        bytes.skip(5) == items,
                        TagID::spec_try_from(bytes[0]) is Ok,
                        TagID::spec_try_from(bytes[0])->Ok_0 == TagID::List,
                        count == be_value(bytes.subrange(1, 5)),
                        lists_unwire(items, i as nat, (limit - 1) as nat)
                            == Ok::<(Seq<ListValue>, int), NbtError>(
                            (list_values(list@), at - (pos + 5)),
                        ),
                    decreases count - i,
                {
                    proof {
                        assert(tail(items, at - (pos + 5)) =~= reader@.skip(at as int));
                    }
                    match ListTag::nbt_read_within(reader, at, limit - 1) {
                        Err(e) => {
                            proof {
                                assert(lists_unwire(items, (i + 1) as nat, (limit - 1) as nat)
                                    == Err::<
                                    (Seq<ListValue>, int),
                                    NbtError,
                                >(e));
                                lemma_lists_unwire_error(
                                    items,
                                    (i + 1) as nat,
                                    count as nat,
                                    (limit - 1) as nat,
                                );
                            }
                            return Err(e);
                        },
                        Ok((item, next)) => {
                            let ghost before = list@;
                            list.push(item);
                            proof {
                                assert(list@.drop_last() =~= before);
                            }
                            at = next;
                            i = i + 1;
                        },
                    }
                }
                Ok((ListTag::List(list), at))
            },
            Ok(TagID::Compound) => {
                let count: u32 = match get_u32(reader, pos + 1) {
                    None => {
                        return Err(NbtError::IoError);
                    },
                    Some(count) => count,
                };
                let ghost items = reader@.skip(pos + 5);
                let mut list: Vec<Compound> = Vec::new();
                let mut at: usize = pos + 5;
                let mut i: u32 = 0;
                while i < count
                    invariant
                        i <= count,
                        limit > 0,
                        pos + 5 <= at <= reader@.len(),
                        items == reader@.skip(pos + 5),
                        bytes == reader@.skip(pos as int),
                        bytes.skip(5) == items,
                        TagID::spec_try_from(bytes[0]) is Ok,
                        TagID::spec_try_from(bytes[0])->Ok_0 == TagID::Compound,
                        count == be_value(bytes.subrange(1, 5)),
                        compounds_unwire(items, i as nat, (limit - 1) as nat)
                            == Ok::<(Seq<Entries>, int), NbtError>(
                            (compound_values(list@), at - (pos + 5)),
                        ),
                    decreases count - i,
                {
                    proof {
                        assert(tail(items, at - (pos + 5)) =~= reader@.skip(at as int));
                    }
                    match Compound::nbt_read_within(reader, at, limit - 1) {
                        Err(e) => {
                            proof {
                                assert(compounds_unwire(items, (i
                                    + 1) as nat, (limit - 1) as nat) == Err::<
                                    (Seq<Entries>, int),
                                    NbtError,
                                >(e));
                                lemma_compounds_unwire_error(
                                    items,
                                    (i + 1) as nat,
                                    count as nat,
                                    (limit - 1) as nat,
                                );
                            }
                            return Err(e);
                        },
                        Ok((item, next)) => {
                            let ghost before = list@;
                            list.push(item);
                            proof {
                                assert(list@.drop_last() =~= before);
                            }
                            at = next;
                            i = i + 1;
                        },
                    }
                }
                Ok((ListTag::Compound(list), at))
            },
            Ok(TagID::IntArray) => match Vec::<Vec<i32>>::nbt_read(reader, pos + 1) {
                Err(e) => Err(e),
                Ok((list, next)) => {
                    assert(values(list@) =~~= ListTag::IntArray(list)@->IntArray_0);
                    Ok((ListTag::IntArray(list), next))
                },
            },
            Ok(TagID::LongArray) => match Vec::<Vec<i64>>::nbt_read(reader, pos + 1) {
                Err(e) => Err(e),
                Ok((list, next)) => {
                    assert(values(list@) =~~= ListTag::LongArray(list)@->LongArray_0);
                    Ok((ListTag::LongArray(list), next))
                },
            },
        }
    }

    /// Reads a list that starts at `pos`, as deep as the bytes go.
    pub fn nbt_read(reader: &[u8], pos: usize) -> (r: Result<(ListTag, usize), NbtError>)
        requires
            pos <= reader@.len(),
        ensures
            match list_unwire(reader@.skip(pos as int), (reader@.len() - pos) as nat) {
                Ok((value, used)) => r is Ok && r->Ok_0.0@ == value && r->Ok_0.1 == pos + used,
                Err(e) => r is Err && r->Err_0 == e,
            },
            r is Ok ==> pos < r->Ok_0.1 <= reader@.len(),
    {
        ListTag::nbt_read_within(reader, pos, reader.len() - pos)
    }
}

/// Reads one step in a dictionary at `pos`: nothing at the end marker, else an
/// entry, whose value may go `inner` levels deep, and the position behind it.
pub fn read_entry(reader: &[u8], pos: usize, inner: usize) -> (r: Result<
    Option<(String, Tag, usize)>,
    NbtError,
>)
    requires
        pos <= reader@.len(),
    ensures
        match (entry_unwire(reader@.skip(pos as int), inner as nat), r) {
            (Ok(Some((value, used))), Ok(Some((name, tag, next)))) => name@ == value.0 && tag@
                == value.1 && next == pos + used && pos < next <= reader@.len(),
            (Ok(None), Ok(None)) => pos < reader@.len(),
            (Err(e), Err(failure)) => failure == e,
            _ => false,
        },
    decreases reader@.len() - pos, 0nat,
{
    if pos >= reader.len() {
        return Err(NbtError::IoError);
    }
    let ghost bytes = reader@.skip(pos as int);
    proof {
        assert(bytes.skip(1) =~= reader@.skip(pos + 1));
    }
    let kind: u8 = reader[pos];
    if kind == 0 {
        return Ok(None);
    }
    let (name, behind_name) = match String::nbt_read(reader, pos + 1) {
        Err(e) => {
            return Err(e);
        },
        Ok(read) => read,
    };
    let id = match TagID::try_from(kind) {
        Err(e) => {
            return Err(e);
        },
        Ok(id) => id,
    };
    proof {
        assert(tail(bytes.skip(1), behind_name - (pos + 1)) =~= reader@.skip(behind_name as int));
    }
    match Tag::nbt_read_within(id, reader, behind_name, inner) {
        Err(e) => Err(e),
        Ok((tag, next)) => Ok(Some((name, tag, next))),
    }
}

impl Compound {
    /// Reads a dictionary that starts at `pos`, going no more than `limit`
    /// lists and dictionaries deep, the dictionary counted: entries up to
    /// the end marker. An entry whose name was read before takes the place
    /// of the earlier one.
    pub fn nbt_read_within(reader: &[u8], pos: usize, limit: usize) -> (r: Result<
        (Compound, usize),
        NbtError,
    >)
        requires
            pos <= reader@.len(),
        ensures
            match entries_unwire(reader@.skip(pos as int), Seq::empty(), limit as nat) {
                Ok((value, used)) => r is Ok && r->Ok_0.0@ == value && r->Ok_0.1 == pos + used,
                Err(e) => r is Err && r->Err_0 == e,
            },
            r is Ok ==> pos < r->Ok_0.1 <= reader@.len(),
        decreases reader@.len() - pos, 1nat,
    {
        let mut map = Compound::new();
        let mut at: usize = pos;
        let size: usize = reader.len();
        loop
            invariant
                pos <= at <= reader@.len() == size,
                entries_unwire(reader@.skip(pos as int), Seq::empty(), limit as nat) == shifted(
                    entries_unwire(reader@.skip(at as int), map@, limit as nat),
                    at - pos,
                ),
            decreases reader@.len() - at,
        {
            if at >= size {
                return Err(NbtError::IoError);
            }
            if limit == 0 {
                return Err(NbtError::TooDeep);
            }
            match read_entry(reader, at, limit - 1) {
                Err(e) => {
                    return Err(e);
                },
                Ok(None) => {
                    return Ok((map, at + 1));
                },
                Ok(Some((name, tag, next))) => {
                    proof {
                        assert(tail(reader@.skip(at as int).skip(1), next - at - 1)
                            =~= reader@.skip(next as int));
                    }
                    map.insert(name, tag);
                    at = next;
                },
            }
        }
    }

    /// Reads a dictionary that starts at `pos`, as deep as the bytes go.
    pub fn nbt_read(reader: &[u8], pos: usize) -> (r: Result<(Compound, usize), NbtError>)
        requires
            pos <= reader@.len(),
        ensures
            match entries_unwire(
                reader@.skip(pos as int),
                Seq::empty(),
                (reader@.len() - pos) as nat,
            ) {
                Ok((value, used)) => r is Ok && r->Ok_0.0@ == value && r->Ok_0.1 == pos + used,
                Err(e) => r is Err && r->Err_0 == e,
            },
            r is Ok ==> pos < r->Ok_0.1 <= reader@.len(),
    {
        Compound::nbt_read_within(reader, pos, reader.len() - pos)
    }
}

/// Reads a tag under a name that starts at `pos`, going no more than `limit`
/// lists and dictionaries deep: the kind byte, the name and the payload of
/// that kind. The end marker and a kind byte above 12 are refused before the
/// name is read. Gives the name, the tag and the position behind them.
pub fn read_named_tag_within(reader: &[u8], pos: usize, limit: usize) -> (r: Result<
    ((String, Tag), usize),
    NbtError,
>)
    requires
        pos <= reader@.len(),
    ensures
        match named_unwire(reader@.skip(pos as int), limit as nat) {
            Ok((value, used)) => r is Ok && r->Ok_0.0.0@ == value.0 && r->Ok_0.0.1@ == value.1
                && r->Ok_0.1 == pos + used,
            Err(e) => r is Err && r->Err_0 == e,
        },
        r is Ok ==> pos < r->Ok_0.1 <= reader@.len(),
{
    if pos >= reader.len() {
        return Err(NbtError::IoError);
    }
    let ghost bytes = reader@.skip(pos as int);
    proof {
        assert(bytes.skip(1) =~= reader@.skip(pos + 1));
    }
    let id = match TagID::try_from(reader[pos]) {
        Err(e) => {
            return Err(e);
        },
        Ok(id) => id,
    };
    let (name, behind_name) = match String::nbt_read(reader, pos + 1) {
        Err(e) => {
            return Err(e);
        },
        Ok(read) => read,
    };
    proof {
        assert(tail(bytes.skip(1), behind_name - (pos + 1)) =~= reader@.skip(behind_name as int));
    }
    match Tag::nbt_read_within(id, reader, behind_name, limit) {
        Err(e) => Err(e),
        Ok((tag, next)) => Ok(((name, tag), next)),
    }
}

/// Reads a tag under a name that starts at `pos`, as deep as the bytes go.
pub fn read_named_tag(reader: &[u8], pos: usize) -> (r: Result<((String, Tag), usize), NbtError>)
    requires
        pos <= reader@.len(),
    ensures
        match named_unwire(reader@.skip(pos as int), (reader@.len() - pos) as nat) {
            Ok((value, used)) => r is Ok && r->Ok_0.0.0@ == value.0 && r->Ok_0.0.1@ == value.1
                && r->Ok_0.1 == pos + used,
            Err(e) => r is Err && r->Err_0 == e,
        },
        r is Ok ==> pos < r->Ok_0.1 <= reader@.len(),
{
    read_named_tag_within(reader, pos, reader.len() - pos)
}

impl NamedTag {
    /// The number of bytes that the named tag takes: 1 for the kind byte, the
    /// size of the name and the size of the payload.
    pub fn nbt_size(&self) -> (size: usize)
        requires
            named_wire(self@.0, self@.1).len() <= usize::MAX,
        ensures
            size == named_wire(self@.0, self@.1).len(),
    {
        named_size(self.tag(), self.name())
    }

    /// Appends the named tag: the kind byte, the name and the payload.
    /// Returns the number of bytes added.
    pub fn nbt_write(&self, writer: &mut Vec<u8>) -> (written: usize)
        requires
            self@.0.encodable(),
            tag_encodable(self@.1),
        ensures
            final(writer)@ == old(writer)@ + named_wire(self@.0, self@.1),
            written == named_wire(self@.0, self@.1).len(),
    {
        write_named_tag(writer, self.tag(), self.name())
    }

    /// Reads a named tag that starts at `pos`, going no more than `limit`
    /// lists and dictionaries deep. Gives the named tag and the position
    /// behind it, or the error that the format names for these bytes.
    pub fn nbt_read_within(reader: &[u8], pos: usize, limit: usize) -> (r: Result<
        (NamedTag, usize),
        NbtError,
    >)
        requires
            pos <= reader@.len(),
        ensures
            match named_unwire(reader@.skip(pos as int), limit as nat) {
                Ok((value, used)) => r is Ok && r->Ok_0.0@ == value && r->Ok_0.1 == pos + used,
                Err(e) => r is Err && r->Err_0 == e,
            },
            r is Ok ==> pos < r->Ok_0.1 <= reader@.len(),
    {
        match read_named_tag_within(reader, pos, limit) {
            Err(e) => Err(e),
            Ok(((name, tag), next)) => Ok((NamedTag::from_pair(name, tag), next)),
        }
    }

    /// Reads a named tag that starts at `pos`, as deep as the bytes go.
    pub fn nbt_read(reader: &[u8], pos: usize) -> (r: Result<(NamedTag, usize), NbtError>)
        requires
            pos <= reader@.len(),
        ensures
            match named_unwire(reader@.skip(pos as int), (reader@.len() - pos) as nat) {
                Ok((value, used)) => r is Ok && r->Ok_0.0@ == value && r->Ok_0.1 == pos + used,
                Err(e) => r is Err && r->Err_0 == e,
            },
            r is Ok ==> pos < r->Ok_0.1 <= reader@.len(),
    {
        match read_named_tag(reader, pos) {
            Err(e) => Err(e),
            Ok(((name, tag), next)) => Ok((NamedTag::from_pair(name, tag), next)),
        }
    }
}

impl Tag {
    /// Whether the format can hold the tag: every string in it has at most
    /// 65,535 bytes of UTF-8 and every array and list at most 4,294,967,295
    /// items. No dictionary in a tag has two entries of one name.
    pub fn is_encodable(&self) -> (fits: bool)
        ensures
            fits == tag_encodable(self@),
            tag_well_formed(self@),
        decreases self@, 0nat,
    {
        match self {
            Tag::Byte(v) => v.is_encodable(),
            Tag::Short(v) => v.is_encodable(),
            Tag::Int(v) => v.is_encodable(),
            Tag::Long(v) => v.is_encodable(),
            Tag::Float(v) => v.is_encodable(),
            Tag::Double(v) => v.is_encodable(),
            Tag::ByteArray(v) => v.is_encodable(),
            Tag::String(v) => v.is_encodable(),
            Tag::List(v) => {
                assert(self@ == TagValue::List(v@));
                assert(decreases_to!(self@ => self@->List_0));
                v.is_encodable()
            },
            Tag::Compound(v) => {
                assert(self@ == TagValue::Compound(v@));
                assert(decreases_to!(self@ => self@->Compound_0));
                v.is_encodable()
            },
            Tag::IntArray(v) => {
                assert(values(v@) =~= v@);
                v.is_encodable()
            },
            Tag::LongArray(v) => {
                assert(values(v@) =~= v@);
                v.is_encodable()
            },
        }
    }
}

impl ListTag {
    /// Whether the format can hold the list. No dictionary in a list has two
    /// entries of one name.
    pub fn is_encodable(&self) -> (fits: bool)
        ensures
            fits == list_encodable(self@),
            list_well_formed(self@),
        decreases self@, 0nat,
    {
        match self {
            ListTag::Empty => true,
            ListTag::Byte(list) => {
                assert(values(list@) =~~= self@->Byte_0);
                list.is_encodable()
            },
            ListTag::Short(list) => {
                assert(values(list@) =~~= self@->Short_0);
                list.is_encodable()
            },
            ListTag::Int(list) => {
                assert(values(list@) =~~= self@->Int_0);
                list.is_encodable()
            },
            ListTag::Long(list) => {
                assert(values(list@) =~~= self@->Long_0);
                list.is_encodable()
            },
            ListTag::Float(list) => {
                assert(values(list@) =~~= self@->Float_0);
                list.is_encodable()
            },
            ListTag::Double(list) => {
                assert(values(list@) =~~= self@->Double_0);
                list.is_encodable()
            },
            ListTag::ByteArray(list) => {
                assert(values(list@) =~~= self@->ByteArray_0);
                list.is_encodable()
            },
            ListTag::String(list) => {
                assert(values(list@) =~~= self@->String_0);
                list.is_encodable()
            },
            ListTag::List(list) => {
                proof {
                    lemma_list_values(list@);
                    lemma_lists_encodable(list_values(list@));
                    lemma_lists_well_formed(list_values(list@));
                }
                let mut fits = list.len() <= 0xFFFF_FFFF;
                let mut i: usize = 0;
                while i < list.len()
                    invariant
                        i <= list@.len() == list_values(list@).len(),
                        self@ == ListValue::List(list_values(list@)),
                        forall|k: int|
                            0 <= k < list@.len() ==> list_values(list@)[k]
                                == (#[trigger] list@[k])@,
                        fits == (list@.len() <= u32::MAX && forall|k: int|
                            0 <= k < i ==> list_encodable(#[trigger] list_values(list@)[k])),
                        forall|k: int| 0 <= k < i
                            ==> list_well_formed(#[trigger] list_values(list@)[k]),
                    decreases list@.len() - i,
                {
                    proof {
                        assert(list_values(list@)[i as int] == list@[i as int]@);
                        assert(decreases_to!(self@ => self@->List_0));
                        assert(decreases_to!(list_values(list@) => list_values(list@)[i as int]));
                    }
                    let item_fits = list[i].is_encodable();
                    fits = fits && item_fits;
                    i = i + 1;
                }
                fits
            },
            ListTag::Compound(list) => {
                proof {
                    lemma_compound_values(list@);
                    lemma_compounds_encodable(compound_values(list@));
                    lemma_compounds_well_formed(compound_values(list@));
                }
                let mut fits = list.len() <= 0xFFFF_FFFF;
                let mut i: usize = 0;
                while i < list.len()
                    invariant
                        i <= list@.len() == compound_values(list@).len(),
                        self@ == ListValue::Compound(compound_values(list@)),
                        forall|k: int|
                            0 <= k < list@.len() ==> compound_values(list@)[k]
                                == (#[trigger] list@[k])@,
                        fits == (list@.len() <= u32::MAX && forall|k: int|
                            0 <= k < i ==> entries_encodable(#[trigger] compound_values(list@)[k])),
                        forall|k: int| 0 <= k < i
                            ==> entries_well_formed(#[trigger] compound_values(list@)[k]),
                    decreases list@.len() - i,
                {
                    proof {
                        assert(compound_values(list@)[i as int] == list@[i as int]@);
                        assert(decreases_to!(self@ => self@->Compound_0));
                        assert(decreases_to!(compound_values(list@)
                            => compound_values(list@)[i as int]));
                    }
                    let item_fits = list[i].is_encodable();
                    fits = fits && item_fits;
                    i = i + 1;
                }
                fits
            },
            ListTag::IntArray(list) => {
                assert(values(list@) =~~= self@->IntArray_0);
                list.is_encodable()
            },
            ListTag::LongArray(list) => {
                assert(values(list@) =~~= self@->LongArray_0);
                list.is_encodable()
            },
        }
    }
}

impl Compound {
    /// Whether the format can hold each name and each value of the
    /// dictionary. No two entries have the same name, nor do two entries of
    /// a dictionary inside it.
    pub fn is_encodable(&self) -> (fits: bool)
        ensures
            fits == entries_encodable(self@),
            entries_well_formed(self@),
        decreases self@, 0nat,
    {
        self.keys_are_distinct();
        proof {
            lemma_entries_encodable(self@);
            lemma_values_well_formed(self@);
        }
        let mut fits = true;
        let mut i: usize = 0;
        while i < self.len()
            invariant
                i <= self@.len(),
                fits == (forall|k: int| 0 <= k < i ==> entry_encodable(#[trigger] self@[k])),
                forall|k: int| 0 <= k < i ==> tag_well_formed((#[trigger] self@[k]).1),
            decreases self@.len() - i,
        {
            let name_fits = str_fits(self.name_at(i).as_str());
            let tag_fits = self.tag_at(i).is_encodable();
            fits = fits && name_fits && tag_fits;
            i = i + 1;
        }
        fits
    }
}

impl NamedTag {
    /// Whether the format can hold the name and the tag. No dictionary in
    /// the tag has two entries of one name.
    pub fn is_encodable(&self) -> (fits: bool)
        ensures
            fits == (self@.0.encodable() && tag_encodable(self@.1)),
            tag_well_formed(self@.1),
    {
        let name_fits = str_fits(self.name());
        let tag_fits = self.tag().is_encodable();
        name_fits && tag_fits
    }
}

} // verus!
