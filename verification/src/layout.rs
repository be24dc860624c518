//! The binary layout of whole trees: what a tag, a list and a dictionary look
//! like on the wire, and what a reader makes of given bytes.

use crate::NbtError;
use crate::endian::{be_bytes, be_value};
use crate::tag::{insert_entry, keys_distinct, Entries, ListValue, TagID, TagValue};
use crate::wire::Wire;
use vstd::prelude::*;

verus! {

/// What is left of `bytes` behind the first `used`.
pub open spec fn tail(bytes: Seq<u8>, used: int) -> Seq<u8> {
    if 0 <= used <= bytes.len() {
        bytes.skip(used)
    } else {
        Seq::empty()
    }
}

/// The payload of a tag: its bytes without kind and name.
pub open spec fn tag_wire(tag: TagValue) -> Seq<u8>
    decreases tag,
{
    match tag {
        TagValue::Byte(v) => v.wire(),
        TagValue::Short(v) => v.wire(),
        TagValue::Int(v) => v.wire(),
        TagValue::Long(v) => v.wire(),
        TagValue::Float(v) => v.wire(),
        TagValue::Double(v) => v.wire(),
        TagValue::ByteArray(v) => v.wire(),
        TagValue::String(v) => v.wire(),
        TagValue::List(list) => list_wire(list),
        TagValue::Compound(entries) => entries_wire(entries).push(0),
        TagValue::IntArray(v) => v.wire(),
        TagValue::LongArray(v) => v.wire(),
    }
}

/// A list: the kind byte of the items, their number in four bytes, and the
/// items without any framing. The empty list of no kind has the kind byte 0.
pub open spec fn list_wire(list: ListValue) -> Seq<u8>
    decreases list,
{
    match list {
        ListValue::Empty => seq![0u8] + be_bytes(0, 4),
        ListValue::Byte(items) => seq![1u8] + items.wire(),
        ListValue::Short(items) => seq![2u8] + items.wire(),
        ListValue::Int(items) => seq![3u8] + items.wire(),
        ListValue::Long(items) => seq![4u8] + items.wire(),
        ListValue::Float(items) => seq![5u8] + items.wire(),
        ListValue::Double(items) => seq![6u8] + items.wire(),
        ListValue::ByteArray(items) => seq![7u8] + items.wire(),
        ListValue::String(items) => seq![8u8] + items.wire(),
        ListValue::List(items) => seq![9u8] + be_bytes(items.len() as int, 4) + lists_wire(items),
        ListValue::Compound(items) => seq![10u8] + be_bytes(items.len() as int, 4)
            + compounds_wire(items),
        ListValue::IntArray(items) => seq![11u8] + items.wire(),
        ListValue::LongArray(items) => seq![12u8] + items.wire(),
    }
}

/// Lists one after the other.
pub open spec fn lists_wire(lists: Seq<ListValue>) -> Seq<u8>
    decreases lists,
{
    if lists.len() == 0 {
        Seq::empty()
    } else {
        lists_wire(lists.drop_last()) + list_wire(lists.last())
    }
}

/// Dictionaries one after the other, each closed by its end marker.
pub open spec fn compounds_wire(compounds: Seq<Entries>) -> Seq<u8>
    decreases compounds,
{
    if compounds.len() == 0 {
        Seq::empty()
    } else {
        compounds_wire(compounds.drop_last()) + entries_wire(compounds.last()).push(0)
    }
}

/// The entries of a dictionary without the end marker: for each the kind
/// byte, the name and the payload.
pub open spec fn entries_wire(entries: Entries) -> Seq<u8>
    decreases entries,
{
    if entries.len() == 0 {
        Seq::empty()
    } else {
        entries_wire(entries.drop_last()) + seq![entries.last().1.id().spec_value() as u8]
            + entries.last().0.wire() + tag_wire(entries.last().1)
    }
}

/// A dictionary: its entries and the end marker.
pub open spec fn compound_wire(entries: Entries) -> Seq<u8> {
    entries_wire(entries).push(0)
}

/// A named tag: the kind byte, the name and the payload.
pub open spec fn named_wire(name: Seq<char>, tag: TagValue) -> Seq<u8> {
    seq![tag.id().spec_value() as u8] + name.wire() + tag_wire(tag)
}

/// Whether the format can hold a tag: every string has at most 65,535 bytes
/// of UTF-8 and every array and list at most 4,294,967,295 items.
pub open spec fn tag_encodable(tag: TagValue) -> bool
    decreases tag,
{
    match tag {
        TagValue::Byte(v) => v.encodable(),
        TagValue::Short(v) => v.encodable(),
        TagValue::Int(v) => v.encodable(),
        TagValue::Long(v) => v.encodable(),
        TagValue::Float(v) => v.encodable(),
        TagValue::Double(v) => v.encodable(),
        TagValue::ByteArray(v) => v.encodable(),
        TagValue::String(v) => v.encodable(),
        TagValue::List(list) => list_encodable(list),
        TagValue::Compound(entries) => entries_encodable(entries),
        TagValue::IntArray(v) => v.encodable(),
        TagValue::LongArray(v) => v.encodable(),
    }
}

/// Whether the format can hold a list.
pub open spec fn list_encodable(list: ListValue) -> bool
    decreases list,
{
    match list {
        ListValue::Empty => true,
        ListValue::Byte(items) => items.encodable(),
        ListValue::Short(items) => items.encodable(),
        ListValue::Int(items) => items.encodable(),
        ListValue::Long(items) => items.encodable(),
        ListValue::Float(items) => items.encodable(),
        ListValue::Double(items) => items.encodable(),
        ListValue::ByteArray(items) => items.encodable(),
        ListValue::String(items) => items.encodable(),
        ListValue::List(items) => items.len() <= u32::MAX && lists_encodable(items),
        ListValue::Compound(items) => items.len() <= u32::MAX && compounds_encodable(items),
        ListValue::IntArray(items) => items.encodable(),
        ListValue::LongArray(items) => items.encodable(),
    }
}

/// Whether the format can hold each of `lists`.
pub open spec fn lists_encodable(lists: Seq<ListValue>) -> bool
    decreases lists,
{
    lists.len() > 0 ==> lists_encodable(lists.drop_last()) && list_encodable(lists.last())
}

/// Whether the format can hold each of `compounds`.
pub open spec fn compounds_encodable(compounds: Seq<Entries>) -> bool
    decreases compounds,
{
    compounds.len() > 0 ==> compounds_encodable(compounds.drop_last()) && entries_encodable(
        compounds.last(),
    )
}

/// Whether the format can hold each name and each value of `entries`.
pub open spec fn entries_encodable(entries: Entries) -> bool
    decreases entries,
{
    entries.len() > 0 ==> entries_encodable(entries.drop_last()) && entries.last().0.encodable()
        && tag_encodable(entries.last().1)
}

/// Whether no dictionary inside a tag has two entries of one name.
pub open spec fn tag_well_formed(tag: TagValue) -> bool
    decreases tag,
{
    match tag {
        TagValue::List(list) => list_well_formed(list),
        TagValue::Compound(entries) => keys_distinct(entries) && values_well_formed(entries),
        _ => true,
    }
}

/// Whether no dictionary inside a list has two entries of one name.
pub open spec fn list_well_formed(list: ListValue) -> bool
    decreases list,
{
    match list {
        ListValue::List(items) => lists_well_formed(items),
        ListValue::Compound(items) => compounds_well_formed(items),
        _ => true,
    }
}

/// Whether each of `lists` is well formed.
pub open spec fn lists_well_formed(lists: Seq<ListValue>) -> bool
    decreases lists,
{
    lists.len() > 0 ==> lists_well_formed(lists.drop_last()) && list_well_formed(lists.last())
}

/// Whether each of `compounds` is well formed.
pub open spec fn compounds_well_formed(compounds: Seq<Entries>) -> bool
    decreases compounds,
{
    compounds.len() > 0 ==> compounds_well_formed(compounds.drop_last()) && keys_distinct(
        compounds.last(),
    ) && values_well_formed(compounds.last())
}

/// Whether the names of `entries` are distinct and each value is well formed.
pub open spec fn entries_well_formed(entries: Entries) -> bool {
    keys_distinct(entries) && values_well_formed(entries)
}

/// Whether each value of `entries` is well formed.
pub open spec fn values_well_formed(entries: Entries) -> bool
    decreases entries,
{
    entries.len() > 0 ==> values_well_formed(entries.drop_last()) && tag_well_formed(
        entries.last().1,
    )
}

/// A reading result whose count of bytes is moved on by `offset`.
pub open spec fn shifted<T>(r: Result<(T, int), NbtError>, offset: int) -> Result<
    (T, int),
    NbtError,
> {
    match r {
        Ok((value, used)) => Ok((value, used + offset)),
        Err(e) => Err(e),
    }
}

/// What a reader makes of a payload of kind `id` at the front of `bytes`: the
/// tag and the number of bytes it took, or the error it stops with. The
/// reader goes no more than `limit` lists and dictionaries deep.
pub open spec fn tag_unwire(id: TagID, bytes: Seq<u8>, limit: nat) -> Result<
    (TagValue, int),
    NbtError,
>
    decreases bytes.len(), 2nat, 0nat,
{
    match id {
        TagID::Byte => match i8::unwire(bytes) {
            Err(e) => Err(e),
            Ok((v, used)) => Ok((TagValue::Byte(v), used)),
        },
        TagID::Short => match i16::unwire(bytes) {
            Err(e) => Err(e),
            Ok((v, used)) => Ok((TagValue::Short(v), used)),
        },
        TagID::Int => match i32::unwire(bytes) {
            Err(e) => Err(e),
            Ok((v, used)) => Ok((TagValue::Int(v), used)),
        },
        TagID::Long => match i64::unwire(bytes) {
            Err(e) => Err(e),
            Ok((v, used)) => Ok((TagValue::Long(v), used)),
        },
        TagID::Float => match u32::unwire(bytes) {
            Err(e) => Err(e),
            Ok((v, used)) => Ok((TagValue::Float(v), used)),
        },
        TagID::Double => match u64::unwire(bytes) {
            Err(e) => Err(e),
            Ok((v, used)) => Ok((TagValue::Double(v), used)),
        },
        TagID::ByteArray => match Seq::<i8>::unwire(bytes) {
            Err(e) => Err(e),
            Ok((v, used)) => Ok((TagValue::ByteArray(v), used)),
        },
        TagID::String => match Seq::<char>::unwire(bytes) {
            Err(e) => Err(e),
            Ok((v, used)) => Ok((TagValue::String(v), used)),
        },
        TagID::List => match list_unwire(bytes, limit) {
            Err(e) => Err(e),
            Ok((list, used)) => Ok((TagValue::List(list), used)),
        },
        TagID::Compound => match entries_unwire(bytes, Seq::empty(), limit) {
            Err(e) => Err(e),
            Ok((entries, used)) => Ok((TagValue::Compound(entries), used)),
        },
        TagID::IntArray => match Seq::<i32>::unwire(bytes) {
            Err(e) => Err(e),
            Ok((v, used)) => Ok((TagValue::IntArray(v), used)),
        },
        TagID::LongArray => match Seq::<i64>::unwire(bytes) {
            Err(e) => Err(e),
            Ok((v, used)) => Ok((TagValue::LongArray(v), used)),
        },
    }
}

/// What a reader makes of a list at the front of `bytes`. Where no level is
/// left, it stops with [`NbtError::TooDeep`]. The kind byte 0 means the empty
/// list of no kind, whatever the four bytes of the count hold; a kind byte
/// above 12 is refused. The items lie one level deeper.
pub open spec fn list_unwire(bytes: Seq<u8>, limit: nat) -> Result<(ListValue, int), NbtError>
    decreases bytes.len(), 0nat, 0nat,
{
    if bytes.len() < 1 {
        Err(NbtError::IoError)
    } else if limit == 0 {
        Err(NbtError::TooDeep)
    } else {
        match TagID::spec_try_from(bytes[0]) {
            Err(NbtError::End) => if bytes.len() < 5 {
                Err(NbtError::IoError)
            } else {
                Ok((ListValue::Empty, 5))
            },
            Err(e) => Err(e),
            Ok(TagID::Byte) => match Seq::<i8>::unwire(bytes.skip(1)) {
                Err(e) => Err(e),
                Ok((items, used)) => Ok((ListValue::Byte(items), used + 1)),
            },
            Ok(TagID::Short) => match Seq::<i16>::unwire(bytes.skip(1)) {
                Err(e) => Err(e),
                Ok((items, used)) => Ok((ListValue::Short(items), used + 1)),
            },
            Ok(TagID::Int) => match Seq::<i32>::unwire(bytes.skip(1)) {
                Err(e) => Err(e),
                Ok((items, used)) => Ok((ListValue::Int(items), used + 1)),
            },
            Ok(TagID::Long) => match Seq::<i64>::unwire(bytes.skip(1)) {
                Err(e) => Err(e),
                Ok((items, used)) => Ok((ListValue::Long(items), used + 1)),
            },
            Ok(TagID::Float) => match Seq::<u32>::unwire(bytes.skip(1)) {
                Err(e) => Err(e),
                Ok((items, used)) => Ok((ListValue::Float(items), used + 1)),
            },
            Ok(TagID::Double) => match Seq::<u64>::unwire(bytes.skip(1)) {
                Err(e) => Err(e),
                Ok((items, used)) => Ok((ListValue::Double(items), used + 1)),
            },
            Ok(TagID::ByteArray) => match Seq::<Seq<i8>>::unwire(bytes.skip(1)) {
                Err(e) => Err(e),
                Ok((items, used)) => Ok((ListValue::ByteArray(items), used + 1)),
            },
            Ok(TagID::String) => match Seq::<Seq<char>>::unwire(bytes.skip(1)) {
                Err(e) => Err(e),
                Ok((items, used)) => Ok((ListValue::String(items), used + 1)),
            },
            Ok(TagID::List) => if bytes.len() < 5 {
                Err(NbtError::IoError)
            } else {
                match lists_unwire(
                    bytes.skip(5),
                    be_value(bytes.subrange(1, 5)) as nat,
                    (limit - 1) as nat,
                ) {
                    Err(e) => Err(e),
                    Ok((items, used)) => Ok((ListValue::List(items), used + 5)),
                }
            },
            Ok(TagID::Compound) => if bytes.len() < 5 {
                Err(NbtError::IoError)
            } else {
                match compounds_unwire(
                    bytes.skip(5),
                    be_value(bytes.subrange(1, 5)) as nat,
                    (limit - 1) as nat,
                ) {
                    Err(e) => Err(e),
                    Ok((items, used)) => Ok((ListValue::Compound(items), used + 5)),
                }
            },
            Ok(TagID::IntArray) => match Seq::<Seq<i32>>::unwire(bytes.skip(1)) {
                Err(e) => Err(e),
                Ok((items, used)) => Ok((ListValue::IntArray(items), used + 1)),
            },
            Ok(TagID::LongArray) => match Seq::<Seq<i64>>::unwire(bytes.skip(1)) {
                Err(e) => Err(e),
                Ok((items, used)) => Ok((ListValue::LongArray(items), used + 1)),
            },
        }
    }
}

/// What a reader makes of `count` lists at the front of `bytes`: the first
/// `count - 1`, then one more behind them.
pub open spec fn lists_unwire(bytes: Seq<u8>, count: nat, limit: nat) -> Result<
    (Seq<ListValue>, int),
    NbtError,
>
    decreases bytes.len(), 2nat, count,
{
    if count == 0 {
        Ok((Seq::empty(), 0))
    } else {
        match lists_unwire(bytes, (count - 1) as nat, limit) {
            Err(e) => Err(e),
            Ok((init, used)) => match list_unwire(tail(bytes, used), limit) {
                Err(e) => Err(e),
                Ok((list, more)) => Ok((init.push(list), used + more)),
            },
        }
    }
}

/// What a reader makes of `count` dictionaries at the front of `bytes`.
pub open spec fn compounds_unwire(bytes: Seq<u8>, count: nat, limit: nat) -> Result<
    (Seq<Entries>, int),
    NbtError,
>
    decreases bytes.len(), 2nat, count,
{
    if count == 0 {
        Ok((Seq::empty(), 0))
    } else {
        match compounds_unwire(bytes, (count - 1) as nat, limit) {
            Err(e) => Err(e),
            Ok((init, used)) => match entries_unwire(tail(bytes, used), Seq::empty(), limit) {
                Err(e) => Err(e),
                Ok((entries, more)) => Ok((init.push(entries), used + more)),
            },
        }
    }
}

/// What a reader makes of one step in a dictionary at the front of `bytes`:
/// nothing at the end marker, else an entry and the number of bytes it took.
/// It reads the kind byte, then the name, then refuses a kind byte above 12,
/// then reads the payload, which may go `inner` levels deep.
pub open spec fn entry_unwire(bytes: Seq<u8>, inner: nat) -> Result<
    Option<((Seq<char>, TagValue), int)>,
    NbtError,
>
    decreases bytes.len(), 0nat, 0nat,
{
    if bytes.len() < 1 {
        Err(NbtError::IoError)
    } else if bytes[0] == 0 {
        Ok(None)
    } else {
        match Seq::<char>::unwire(bytes.skip(1)) {
            Err(e) => Err(e),
            Ok((name, n)) => match TagID::spec_try_from(bytes[0]) {
                Err(e) => Err(e),
                Ok(id) => match tag_unwire(id, tail(bytes.skip(1), n), inner) {
                    Err(e) => Err(e),
                    Ok((tag, m)) => Ok(Some(((name, tag), 1 + n + m))),
                },
            },
        }
    }
}

/// What a reader that already holds `seen` makes of the rest of a dictionary
/// at the front of `bytes`: it stores entry after entry under its name and
/// stops behind the end marker. Where no level is left, it stops with
/// [`NbtError::TooDeep`]; the values lie one level deeper.
pub open spec fn entries_unwire(bytes: Seq<u8>, seen: Entries, limit: nat) -> Result<
    (Entries, int),
    NbtError,
>
    decreases bytes.len(), 1nat, 0nat,
{
    if bytes.len() < 1 {
        Err(NbtError::IoError)
    } else if limit == 0 {
        Err(NbtError::TooDeep)
    } else {
        match entry_unwire(bytes, (limit - 1) as nat) {
            Err(e) => Err(e),
            Ok(None) => Ok((seen, 1)),
            Ok(Some((entry, used))) => shifted(
                entries_unwire(
                    tail(bytes.skip(1), used - 1),
                    insert_entry(seen, entry.0, entry.1),
                    limit,
                ),
                used,
            ),
        }
    }
}

/// What a reader makes of a named tag at the front of `bytes`. It refuses the
/// end marker and a kind byte above 12 before it reads the name.
pub open spec fn named_unwire(bytes: Seq<u8>, limit: nat) -> Result<
    ((Seq<char>, TagValue), int),
    NbtError,
> {
    if bytes.len() < 1 {
        Err(NbtError::IoError)
    } else {
        match TagID::spec_try_from(bytes[0]) {
            Err(e) => Err(e),
            Ok(id) => match Seq::<char>::unwire(bytes.skip(1)) {
                Err(e) => Err(e),
                Ok((name, n)) => match tag_unwire(id, tail(bytes.skip(1), n), limit) {
                    Err(e) => Err(e),
                    Ok((tag, m)) => Ok(((name, tag), 1 + n + m)),
                },
            },
        }
    }
}

/// The larger of two numbers.
pub open spec fn larger(a: nat, b: nat) -> nat {
    if a >= b {
        a
    } else {
        b
    }
}

/// How many lists and dictionaries deep a tag goes: 0 for a tag that is
/// neither.
pub open spec fn tag_depth(tag: TagValue) -> nat
    decreases tag,
{
    match tag {
        TagValue::List(list) => list_depth(list),
        TagValue::Compound(entries) => 1 + values_depth(entries),
        _ => 0,
    }
}

/// How many lists and dictionaries deep a list goes, itself counted.
pub open spec fn list_depth(list: ListValue) -> nat
    decreases list,
{
    match list {
        ListValue::List(items) => 1 + lists_depth(items),
        ListValue::Compound(items) => 1 + compounds_depth(items),
        _ => 1,
    }
}

/// The depth of the deepest of `lists`.
pub open spec fn lists_depth(lists: Seq<ListValue>) -> nat
    decreases lists,
{
    if lists.len() == 0 {
        0
    } else {
        larger(lists_depth(lists.drop_last()), list_depth(lists.last()))
    }
}

/// The depth of the deepest of `compounds`, each counted itself.
pub open spec fn compounds_depth(compounds: Seq<Entries>) -> nat
    decreases compounds,
{
    if compounds.len() == 0 {
        0
    } else {
        larger(compounds_depth(compounds.drop_last()), 1 + values_depth(compounds.last()))
    }
}

/// The depth of the deepest value of `entries`.
pub open spec fn values_depth(entries: Entries) -> nat
    decreases entries,
{
    if entries.len() == 0 {
        0
    } else {
        larger(values_depth(entries.drop_last()), tag_depth(entries.last().1))
    }
}

/// How many lists and dictionaries deep a dictionary goes, itself counted.
pub open spec fn entries_depth(entries: Entries) -> nat {
    1 + values_depth(entries)
}

/// Lists can be encoded exactly where each of them can.
pub proof fn lemma_lists_encodable(lists: Seq<ListValue>)
    ensures
        lists_encodable(lists) <==> forall|i: int| 0 <= i < lists.len()
            ==> list_encodable(#[trigger] lists[i]),
    decreases lists.len(),
{
    if lists.len() > 0 {
        let init = lists.drop_last();
        lemma_lists_encodable(init);
        if lists_encodable(lists) {
            assert forall|i: int| 0 <= i < lists.len()
                implies list_encodable(#[trigger] lists[i]) by {
                if i < init.len() {
                    assert(list_encodable(init[i]));
                }
            }
        } else if lists_encodable(init) {
            assert(!(list_encodable(lists.last())));
        } else {
            let i = choose|i: int| 0 <= i < init.len() && !(list_encodable(#[trigger] init[i]));
            assert(!(list_encodable(lists[i])));
        }
    }
}

/// Dictionaries can be encoded exactly where each of them can.
pub proof fn lemma_compounds_encodable(compounds: Seq<Entries>)
    ensures
        compounds_encodable(compounds) <==> forall|i: int| 0 <= i < compounds.len()
            ==> entries_encodable(#[trigger] compounds[i]),
    decreases compounds.len(),
{
    if compounds.len() > 0 {
        let init = compounds.drop_last();
        lemma_compounds_encodable(init);
        if compounds_encodable(compounds) {
            assert forall|i: int| 0 <= i < compounds.len()
                implies entries_encodable(#[trigger] compounds[i]) by {
                if i < init.len() {
                    assert(entries_encodable(init[i]));
                }
            }
        } else if compounds_encodable(init) {
            assert(!(entries_encodable(compounds.last())));
        } else {
            let i = choose|i: int| 0 <= i < init.len() && !(entries_encodable(#[trigger] init[i]));
            assert(!(entries_encodable(compounds[i])));
        }
    }
}

/// Lists are well formed exactly where each of them is.
pub proof fn lemma_lists_well_formed(lists: Seq<ListValue>)
    ensures
        lists_well_formed(lists) <==> forall|i: int| 0 <= i < lists.len()
            ==> list_well_formed(#[trigger] lists[i]),
    decreases lists.len(),
{
    if lists.len() > 0 {
        let init = lists.drop_last();
        lemma_lists_well_formed(init);
        if lists_well_formed(lists) {
            assert forall|i: int| 0 <= i < lists.len()
                implies list_well_formed(#[trigger] lists[i]) by {
                if i < init.len() {
                    assert(list_well_formed(init[i]));
                }
            }
        } else if lists_well_formed(init) {
            assert(!(list_well_formed(lists.last())));
        } else {
            let i = choose|i: int| 0 <= i < init.len() && !(list_well_formed(#[trigger] init[i]));
            assert(!(list_well_formed(lists[i])));
        }
    }
}

/// Dictionaries are well formed exactly where each of them is.
pub proof fn lemma_compounds_well_formed(compounds: Seq<Entries>)
    ensures
        compounds_well_formed(compounds) <==> forall|i: int| 0 <= i < compounds.len()
            ==> entries_well_formed(#[trigger] compounds[i]),
    decreases compounds.len(),
{
    if compounds.len() > 0 {
        let init = compounds.drop_last();
        lemma_compounds_well_formed(init);
        if compounds_well_formed(compounds) {
            assert forall|i: int| 0 <= i < compounds.len()
                implies entries_well_formed(#[trigger] compounds[i]) by {
                if i < init.len() {
                    assert(entries_well_formed(init[i]));
                }
            }
        } else if compounds_well_formed(init) {
            assert(!(entries_well_formed(compounds.last())));
        } else {
            let i = choose|i: int| 0 <= i < init.len()
                && !(entries_well_formed(#[trigger] init[i]));
            assert(!(entries_well_formed(compounds[i])));
        }
    }
}

/// The values of entries are well formed exactly where each of them is.
pub proof fn lemma_values_well_formed(entries: Seq<(Seq<char>, TagValue)>)
    ensures
        values_well_formed(entries) <==> forall|i: int| 0 <= i < entries.len()
            ==> tag_well_formed((#[trigger] entries[i]).1),
    decreases entries.len(),
{
    if entries.len() > 0 {
        let init = entries.drop_last();
        lemma_values_well_formed(init);
        if values_well_formed(entries) {
            assert forall|i: int| 0 <= i < entries.len()
                implies tag_well_formed((#[trigger] entries[i]).1) by {
                if i < init.len() {
                    assert(tag_well_formed((init[i]).1));
                }
            }
        } else if values_well_formed(init) {
            assert(!(tag_well_formed((entries.last()).1)));
        } else {
            let i = choose|i: int| 0 <= i < init.len()
                && !(tag_well_formed((#[trigger] init[i]).1));
            assert(!(tag_well_formed((entries[i]).1)));
        }
    }
}

/// Entries can be encoded exactly where each name and each value can.
pub proof fn lemma_entries_encodable(entries: Entries)
    ensures
        entries_encodable(entries) <==> forall|i: int|
            0 <= i < entries.len() ==> entry_encodable(#[trigger] entries[i]),
    decreases entries.len(),
{
    if entries.len() > 0 {
        let init = entries.drop_last();
        lemma_entries_encodable(init);
        if entries_encodable(entries) {
            assert forall|i: int| 0 <= i < entries.len() implies entry_encodable(
                #[trigger] entries[i],
            ) by {
                if i < init.len() {
                    assert(entry_encodable(init[i]));
                }
            }
        } else if entries_encodable(init) {
            assert(!entry_encodable(entries.last()));
        } else {
            let i = choose|i: int| 0 <= i < init.len() && !entry_encodable(#[trigger] init[i]);
            assert(!entry_encodable(entries[i]));
        }
    }
}

/// Whether the format can hold the name and the value of an entry.
pub open spec fn entry_encodable(entry: (Seq<char>, TagValue)) -> bool {
    entry.0.encodable() && tag_encodable(entry.1)
}

/// The bytes of one entry: the kind byte, the name and the payload.
pub open spec fn entry_wire(entry: (Seq<char>, TagValue)) -> Seq<u8> {
    named_wire(entry.0, entry.1)
}

/// The bytes of a prefix of lists are no longer than those of all, and one more
/// list adds its own bytes.
pub proof fn lemma_lists_wire_prefix(lists: Seq<ListValue>, n: int)
    requires
        0 <= n <= lists.len(),
    ensures
        lists_wire(lists.take(n)).len() <= lists_wire(lists).len(),
        n < lists.len() ==> lists_wire(lists.take(n + 1)) == lists_wire(lists.take(n))
            + list_wire(lists[n]),
    decreases lists.len() - n,
{
    if n < lists.len() {
        assert(lists.take(n + 1).drop_last() =~= lists.take(n));
        assert(lists_wire(lists.take(n + 1)) =~= lists_wire(lists.take(n)) + list_wire(lists[n]));
        lemma_lists_wire_prefix(lists, n + 1);
    } else {
        assert(lists.take(n) =~= lists);
    }
}

/// The bytes of a prefix of dictionaries are no longer than those of all, and one
/// more dictionary adds its own bytes.
pub proof fn lemma_compounds_wire_prefix(compounds: Seq<Entries>, n: int)
    requires
        0 <= n <= compounds.len(),
    ensures
        compounds_wire(compounds.take(n)).len() <= compounds_wire(compounds).len(),
        n < compounds.len() ==> compounds_wire(compounds.take(n + 1))
            == compounds_wire(compounds.take(n)) + compound_wire(compounds[n]),
    decreases compounds.len() - n,
{
    if n < compounds.len() {
        assert(compounds.take(n + 1).drop_last() =~= compounds.take(n));
        assert(compounds_wire(compounds.take(n + 1)) =~= compounds_wire(compounds.take(n))
            + compound_wire(compounds[n]));
        lemma_compounds_wire_prefix(compounds, n + 1);
    } else {
        assert(compounds.take(n) =~= compounds);
    }
}

/// The bytes of a prefix of entries are no longer than those of all, and one more
/// entry adds its own bytes.
pub proof fn lemma_entries_wire_prefix(entries: Seq<(Seq<char>, TagValue)>, n: int)
    requires
        0 <= n <= entries.len(),
    ensures
        entries_wire(entries.take(n)).len() <= entries_wire(entries).len(),
        n < entries.len() ==> entries_wire(entries.take(n + 1))
            == entries_wire(entries.take(n)) + entry_wire(entries[n]),
    decreases entries.len() - n,
{
    if n < entries.len() {
        assert(entries.take(n + 1).drop_last() =~= entries.take(n));
        assert(entries_wire(entries.take(n + 1)) =~= entries_wire(entries.take(n))
            + entry_wire(entries[n]));
        lemma_entries_wire_prefix(entries, n + 1);
    } else {
        assert(entries.take(n) =~= entries);
    }
}

/// Once reading lists fails, asking for more of them fails in the same way.
pub proof fn lemma_lists_unwire_error(bytes: Seq<u8>, count: nat, more: nat, limit: nat)
    requires
        lists_unwire(bytes, count, limit) is Err,
        count <= more,
    ensures
        lists_unwire(bytes, more, limit) == lists_unwire(bytes, count, limit),
    decreases more,
{
    if count < more {
        lemma_lists_unwire_error(bytes, count, (more - 1) as nat, limit);
    }
}

/// Once reading dictionaries fails, asking for more of them fails in the same way.
pub proof fn lemma_compounds_unwire_error(bytes: Seq<u8>, count: nat, more: nat, limit: nat)
    requires
        compounds_unwire(bytes, count, limit) is Err,
        count <= more,
    ensures
        compounds_unwire(bytes, more, limit) == compounds_unwire(bytes, count, limit),
    decreases more,
{
    if count < more {
        lemma_compounds_unwire_error(bytes, count, (more - 1) as nat, limit);
    }
}

} // verus!
