//! The binary layout of leaf values: what each one looks like on the wire.

use crate::NbtError;
use crate::endian::{
    be_bytes, be_signed_value, be_value, lemma_be_bytes_len, lemma_be_signed_value_of_bytes,
    lemma_be_value_bound, lemma_be_value_of_bytes, radix_pow,
};
use vstd::prelude::*;
use vstd::utf8::*;

verus! {

/// A mathematical value with a fixed binary encoding.
pub trait Wire: Sized {
    /// Whether the encoding can hold the value: every length fits its prefix.
    spec fn encodable(self) -> bool;

    /// The bytes of the value.
    spec fn wire(self) -> Seq<u8>;

    /// Reads one value from the front of `bytes`: the value and the number of
    /// bytes it took, or the reason why the bytes do not hold one.
    spec fn unwire(bytes: Seq<u8>) -> Result<(Self, int), NbtError>;

    /// A read fails only because the bytes end too early or are not UTF-8.
    proof fn lemma_unwire_error(bytes: Seq<u8>)
        ensures
            Self::unwire(bytes) is Err ==> Self::unwire(bytes)->Err_0 == NbtError::IoError
                || Self::unwire(bytes)->Err_0 == NbtError::FromUtf8Error,
    ;

    /// A successful read takes at least one byte and no more than there are.
    proof fn lemma_unwire_used(bytes: Seq<u8>)
        ensures
            Self::unwire(bytes) is Ok ==> 0 < Self::unwire(bytes)->Ok_0.1 <= bytes.len(),
    ;

    /// Reading what was written gives the value back, whatever follows it.
    proof fn lemma_unwire_wire(self, rest: Seq<u8>)
        requires
            self.encodable(),
        ensures
            Self::unwire(self.wire() + rest)
                == Ok::<(Self, int), NbtError>((self, self.wire().len() as int)),
    ;
}

impl Wire for i8 {
    open spec fn encodable(self) -> bool {
        true
    }

    open spec fn wire(self) -> Seq<u8> {
        be_bytes(self as int, 1)
    }

    open spec fn unwire(bytes: Seq<u8>) -> Result<(Self, int), NbtError> {
        if bytes.len() < 1 {
            Err(NbtError::IoError)
        } else {
            Ok((be_signed_value(bytes.subrange(0, 1)) as i8, 1))
        }
    }

    proof fn lemma_unwire_error(bytes: Seq<u8>) {
    }

    proof fn lemma_unwire_used(bytes: Seq<u8>) {
    }

    proof fn lemma_unwire_wire(self, rest: Seq<u8>) {
        reveal_with_fuel(radix_pow, 9);
        lemma_be_bytes_len(self as int, 1);
        lemma_be_signed_value_of_bytes(self as int, 1);
        assert((self.wire() + rest).subrange(0, 1) =~= self.wire());
    }
}

impl Wire for i16 {
    open spec fn encodable(self) -> bool {
        true
    }

    open spec fn wire(self) -> Seq<u8> {
        be_bytes(self as int, 2)
    }

    open spec fn unwire(bytes: Seq<u8>) -> Result<(Self, int), NbtError> {
        if bytes.len() < 2 {
            Err(NbtError::IoError)
        } else {
            Ok((be_signed_value(bytes.subrange(0, 2)) as i16, 2))
        }
    }

    proof fn lemma_unwire_error(bytes: Seq<u8>) {
    }

    proof fn lemma_unwire_used(bytes: Seq<u8>) {
    }

    proof fn lemma_unwire_wire(self, rest: Seq<u8>) {
        reveal_with_fuel(radix_pow, 9);
        lemma_be_bytes_len(self as int, 2);
        lemma_be_signed_value_of_bytes(self as int, 2);
        assert((self.wire() + rest).subrange(0, 2) =~= self.wire());
    }
}

impl Wire for i32 {
    open spec fn encodable(self) -> bool {
        true
    }

    open spec fn wire(self) -> Seq<u8> {
        be_bytes(self as int, 4)
    }

    open spec fn unwire(bytes: Seq<u8>) -> Result<(Self, int), NbtError> {
        if bytes.len() < 4 {
            Err(NbtError::IoError)
        } else {
            Ok((be_signed_value(bytes.subrange(0, 4)) as i32, 4))
        }
    }

    proof fn lemma_unwire_error(bytes: Seq<u8>) {
    }

    proof fn lemma_unwire_used(bytes: Seq<u8>) {
    }

    proof fn lemma_unwire_wire(self, rest: Seq<u8>) {
        reveal_with_fuel(radix_pow, 9);
        lemma_be_bytes_len(self as int, 4);
        lemma_be_signed_value_of_bytes(self as int, 4);
        assert((self.wire() + rest).subrange(0, 4) =~= self.wire());
    }
}

impl Wire for i64 {
    open spec fn encodable(self) -> bool {
        true
    }

    open spec fn wire(self) -> Seq<u8> {
        be_bytes(self as int, 8)
    }

    open spec fn unwire(bytes: Seq<u8>) -> Result<(Self, int), NbtError> {
        if bytes.len() < 8 {
            Err(NbtError::IoError)
        } else {
            Ok((be_signed_value(bytes.subrange(0, 8)) as i64, 8))
        }
    }

    proof fn lemma_unwire_error(bytes: Seq<u8>) {
    }

    proof fn lemma_unwire_used(bytes: Seq<u8>) {
    }

    proof fn lemma_unwire_wire(self, rest: Seq<u8>) {
        reveal_with_fuel(radix_pow, 9);
        lemma_be_bytes_len(self as int, 8);
        lemma_be_signed_value_of_bytes(self as int, 8);
        assert((self.wire() + rest).subrange(0, 8) =~= self.wire());
    }
}

impl Wire for u32 {
    open spec fn encodable(self) -> bool {
        true
    }

    open spec fn wire(self) -> Seq<u8> {
        be_bytes(self as int, 4)
    }

    open spec fn unwire(bytes: Seq<u8>) -> Result<(Self, int), NbtError> {
        if bytes.len() < 4 {
            Err(NbtError::IoError)
        } else {
            Ok((be_value(bytes.subrange(0, 4)) as u32, 4))
        }
    }

    proof fn lemma_unwire_error(bytes: Seq<u8>) {
    }

    proof fn lemma_unwire_used(bytes: Seq<u8>) {
    }

    proof fn lemma_unwire_wire(self, rest: Seq<u8>) {
        reveal_with_fuel(radix_pow, 9);
        lemma_be_bytes_len(self as int, 4);
        lemma_be_value_of_bytes(self as int, 4);
        assert((self.wire() + rest).subrange(0, 4) =~= self.wire());
    }
}

impl Wire for u64 {
    open spec fn encodable(self) -> bool {
        true
    }

    open spec fn wire(self) -> Seq<u8> {
        be_bytes(self as int, 8)
    }

    open spec fn unwire(bytes: Seq<u8>) -> Result<(Self, int), NbtError> {
        if bytes.len() < 8 {
            Err(NbtError::IoError)
        } else {
            Ok((be_value(bytes.subrange(0, 8)) as u64, 8))
        }
    }

    proof fn lemma_unwire_error(bytes: Seq<u8>) {
    }

    proof fn lemma_unwire_used(bytes: Seq<u8>) {
    }

    proof fn lemma_unwire_wire(self, rest: Seq<u8>) {
        reveal_with_fuel(radix_pow, 9);
        lemma_be_bytes_len(self as int, 8);
        lemma_be_value_of_bytes(self as int, 8);
        assert((self.wire() + rest).subrange(0, 8) =~= self.wire());
    }
}

/// The encodings of `items`, one after the other.
pub open spec fn concat_wire<T: Wire>(items: Seq<T>) -> Seq<u8>
    decreases items.len(),
{
    if items.len() == 0 {
        Seq::empty()
    } else {
        concat_wire(items.drop_last()) + items.last().wire()
    }
}

/// Reads `count` values from the front of `bytes`: the first `count - 1`,
/// then one more behind them.
pub open spec fn unwire_items<T: Wire>(bytes: Seq<u8>, count: nat)
    -> Result<(Seq<T>, int), NbtError>
    decreases count,
{
    if count == 0 {
        Ok((Seq::empty(), 0))
    } else {
        match unwire_items::<T>(bytes, (count - 1) as nat) {
            Err(e) => Err(e),
            Ok((init, used)) => match T::unwire(bytes.skip(used)) {
                Err(e) => Err(e),
                Ok((item, more)) => Ok((init.push(item), used + more)),
            },
        }
    }
}

/// Whether every item of `items` can be encoded.
pub open spec fn all_encodable<T: Wire>(items: Seq<T>) -> bool {
    forall|i: int| 0 <= i < items.len() ==> (#[trigger] items[i]).encodable()
}

/// The encoding of a prefix of `items` is no longer than that of all of them,
/// and one more item adds its own length.
pub proof fn lemma_concat_wire_prefix<T: Wire>(items: Seq<T>, n: int)
    requires
        0 <= n <= items.len(),
    ensures
        concat_wire(items.take(n)).len() <= concat_wire(items).len(),
        n < items.len() ==> concat_wire(items.take(n + 1)) == concat_wire(items.take(n))
            + items[n].wire(),
    decreases items.len() - n,
{
    if n < items.len() {
        assert(items.take(n + 1).drop_last() =~= items.take(n));
        lemma_concat_wire_prefix(items, n + 1);
    } else {
        assert(items.take(n) =~= items);
    }
}

/// The unsigned byte with the same bits as a signed byte.
pub open spec fn unsigned_byte(v: i8) -> u8 {
    (v as int % 256) as u8
}

/// Signed bytes are encoded as the unsigned bytes with the same bits.
pub proof fn lemma_concat_wire_bytes(items: Seq<i8>)
    ensures
        concat_wire(items) == items.map_values(|v: i8| unsigned_byte(v)),
    decreases items.len(),
{
    let mapped = items.map_values(|v: i8| unsigned_byte(v));
    if items.len() > 0 {
        lemma_concat_wire_bytes(items.drop_last());
        reveal_with_fuel(be_bytes, 2);
        assert(items.last().wire() =~= seq![unsigned_byte(items.last())]);
        assert(concat_wire(items) =~= mapped);
    } else {
        assert(concat_wire(items) =~= mapped);
    }
}

/// Reading items fails only because the bytes end too early or are not
/// UTF-8.
pub proof fn lemma_unwire_items_failure<T: Wire>(bytes: Seq<u8>, count: nat)
    ensures
        unwire_items::<T>(bytes, count) is Err ==> unwire_items::<T>(bytes, count)->Err_0
            == NbtError::IoError || unwire_items::<T>(bytes, count)->Err_0
            == NbtError::FromUtf8Error,
    decreases count,
{
    if count > 0 {
        lemma_unwire_items_failure::<T>(bytes, (count - 1) as nat);
        if unwire_items::<T>(bytes, (count - 1) as nat) is Ok {
            let used = unwire_items::<T>(bytes, (count - 1) as nat)->Ok_0.1;
            T::lemma_unwire_error(bytes.skip(used));
        }
    }
}

/// Reading items takes no more bytes than there are.
pub proof fn lemma_unwire_items_used<T: Wire>(bytes: Seq<u8>, count: nat)
    ensures
        unwire_items::<T>(bytes, count) is Ok ==> 0 <= unwire_items::<T>(bytes, count)->Ok_0.1
            <= bytes.len() && unwire_items::<T>(bytes, count)->Ok_0.0.len() == count,
    decreases count,
{
    if count > 0 {
        lemma_unwire_items_used::<T>(bytes, (count - 1) as nat);
        if unwire_items::<T>(bytes, (count - 1) as nat) is Ok {
            let used = unwire_items::<T>(bytes, (count - 1) as nat)->Ok_0.1;
            T::lemma_unwire_used(bytes.skip(used));
        }
    }
}

/// Once reading fails, asking for more items fails in the same way.
pub proof fn lemma_unwire_items_error<T: Wire>(bytes: Seq<u8>, count: nat, more: nat)
    requires
        unwire_items::<T>(bytes, count) is Err,
        count <= more,
    ensures
        unwire_items::<T>(bytes, more) == unwire_items::<T>(bytes, count),
    decreases more,
{
    if count < more {
        lemma_unwire_items_error::<T>(bytes, count, (more - 1) as nat);
    }
}

/// Reading as many items as were written gives them back, whatever follows.
pub proof fn lemma_unwire_items_concat<T: Wire>(items: Seq<T>, rest: Seq<u8>)
    requires
        all_encodable(items),
    ensures
        unwire_items::<T>(concat_wire(items) + rest, items.len()) == Ok::<
            (Seq<T>, int),
            NbtError,
        >((items, concat_wire(items).len() as int)),
    decreases items.len(),
{
    if items.len() > 0 {
        let init = items.drop_last();
        let last = items.last();
        let bytes = concat_wire(items) + rest;
        assert(bytes =~= concat_wire(init) + (last.wire() + rest));
        lemma_unwire_items_concat(init, last.wire() + rest);
        assert(bytes.skip(concat_wire(init).len() as int) =~= last.wire() + rest);
        last.lemma_unwire_wire(rest);
        assert(init.push(last) =~= items);
        assert(unwire_items::<T>(bytes, init.len()) == Ok::<(Seq<T>, int), NbtError>(
            (init, concat_wire(init).len() as int),
        ));
        assert(items.len() - 1 == init.len());
    } else {
        assert(items =~= Seq::empty());
    }
}

/// Reads an array from the front of `bytes`: the number of items in four
/// bytes, then that many items. Fails as the first item that cannot be read
/// fails, or with [`NbtError::IoError`] where the count is not complete.
#[verifier::opaque]
pub open spec fn unwire_array<T: Wire>(bytes: Seq<u8>) -> Result<(Seq<T>, int), NbtError> {
    if bytes.len() < 4 {
        Err(NbtError::IoError)
    } else {
        match unwire_items::<T>(bytes.skip(4), be_value(bytes.subrange(0, 4)) as nat) {
            Err(e) => Err(e),
            Ok((items, used)) => Ok((items, used + 4)),
        }
    }
}

/// Reads a string from the front of `bytes`: the number of its bytes in two
/// bytes, then that many bytes of UTF-8. Fails with [`NbtError::IoError`]
/// where the bytes run out, with [`NbtError::FromUtf8Error`] where they are
/// not UTF-8.
#[verifier::opaque]
pub open spec fn unwire_string(bytes: Seq<u8>) -> Result<(Seq<char>, int), NbtError> {
    if bytes.len() < 2 {
        Err(NbtError::IoError)
    } else {
        let n = be_value(bytes.subrange(0, 2));
        if bytes.len() < 2 + n {
            Err(NbtError::IoError)
        } else if !valid_utf8(bytes.subrange(2, 2 + n)) {
            Err(NbtError::FromUtf8Error)
        } else {
            Ok((decode_utf8(bytes.subrange(2, 2 + n)), 2 + n))
        }
    }
}

impl<T: Wire> Wire for Seq<T> {
    open spec fn encodable(self) -> bool {
        self.len() <= u32::MAX && all_encodable(self)
    }

    open spec fn wire(self) -> Seq<u8> {
        be_bytes(self.len() as int, 4) + concat_wire(self)
    }

    open spec fn unwire(bytes: Seq<u8>) -> Result<(Self, int), NbtError> {
        unwire_array::<T>(bytes)
    }

    proof fn lemma_unwire_error(bytes: Seq<u8>) {
        reveal(unwire_array);
        if bytes.len() >= 4 {
            lemma_unwire_items_failure::<T>(bytes.skip(4), be_value(bytes.subrange(0, 4)) as nat);
        }
    }

    proof fn lemma_unwire_used(bytes: Seq<u8>) {
        reveal(unwire_array);
        if bytes.len() >= 4 {
            lemma_unwire_items_used::<T>(bytes.skip(4), be_value(bytes.subrange(0, 4)) as nat);
        }
    }

    proof fn lemma_unwire_wire(self, rest: Seq<u8>) {
        reveal(unwire_array);
        reveal_with_fuel(radix_pow, 9);
        let count = be_bytes(self.len() as int, 4);
        let bytes = self.wire() + rest;
        lemma_be_bytes_len(self.len() as int, 4);
        lemma_be_value_of_bytes(self.len() as int, 4);
        assert(bytes.subrange(0, 4) =~= count);
        assert(bytes.skip(4) =~= concat_wire(self) + rest);
        lemma_unwire_items_concat(self, rest);
    }
}

impl Wire for Seq<char> {
    open spec fn encodable(self) -> bool {
        encode_utf8(self).len() <= u16::MAX
    }

    open spec fn wire(self) -> Seq<u8> {
        be_bytes(encode_utf8(self).len() as int, 2) + encode_utf8(self)
    }

    open spec fn unwire(bytes: Seq<u8>) -> Result<(Self, int), NbtError> {
        unwire_string(bytes)
    }

    proof fn lemma_unwire_error(bytes: Seq<u8>) {
        reveal(unwire_string);
    }

    proof fn lemma_unwire_used(bytes: Seq<u8>) {
        reveal(unwire_string);
        if bytes.len() >= 2 {
            lemma_be_value_bound(bytes.subrange(0, 2));
        }
    }

    proof fn lemma_unwire_wire(self, rest: Seq<u8>) {
        reveal(unwire_string);
        reveal_with_fuel(radix_pow, 9);
        let text = encode_utf8(self);
        let bytes = self.wire() + rest;
        lemma_be_bytes_len(text.len() as int, 2);
        lemma_be_value_of_bytes(text.len() as int, 2);
        assert(bytes.subrange(0, 2) =~= be_bytes(text.len() as int, 2));
        assert(bytes.subrange(2, 2 + text.len() as int) =~= text);
        encode_utf8_valid_utf8(self);
        encode_utf8_decode_utf8(self);
    }
}

} // verus!
