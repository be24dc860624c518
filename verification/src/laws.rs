//! What holds of the binary format: reading gives back what was written.

use crate::NbtError;
use crate::endian::{be_bytes, be_value, lemma_be_bytes_len, lemma_be_value_of_bytes, radix_pow};
use crate::layout::{
    compounds_depth, entries_depth, list_depth, lists_depth, tag_depth, values_depth,
    compound_wire, compounds_encodable, compounds_unwire, compounds_well_formed, compounds_wire,
    entries_encodable, entries_unwire, entries_well_formed, entries_wire, entry_encodable,
    entry_unwire, entry_wire, lemma_entries_encodable, lemma_values_well_formed, list_encodable,
    list_unwire, list_well_formed, list_wire, lists_encodable, lists_unwire, lists_well_formed,
    lists_wire, named_unwire, named_wire, tag_encodable, tag_unwire, tag_well_formed, tag_wire,
    tail, values_well_formed,
};
use crate::tag::{
    insert_entry, keys_distinct, lemma_position_of, Entries, ListValue, TagID, TagValue,
};
use crate::wire::{concat_wire, Wire};
use vstd::prelude::*;
use vstd::utf8::encode_utf8;

verus! {

/// The bytes of entries are those of the first entry and then those of the
/// others.
pub proof fn lemma_entries_wire_front(entries: Entries)
    requires
        entries.len() > 0,
    ensures
        entries_wire(entries) == entry_wire(entries.first()) + entries_wire(entries.drop_first()),
    decreases entries.len(),
{
    let init = entries.drop_last();
    let others = entries.drop_first();
    if entries.len() == 1 {
        assert(init =~= Seq::empty());
        assert(others =~= Seq::empty());
        assert(entries_wire(entries) =~= entry_wire(entries.first()) + entries_wire(others));
    } else {
        lemma_entries_wire_front(init);
        assert(init.drop_first() =~= others.drop_last());
        assert(entries_wire(entries) =~= entry_wire(entries.first()) + entries_wire(others));
    }
}

/// The values of entries go at most `depth` deep exactly where each of them
/// does.
pub proof fn lemma_values_depth(entries: Entries, depth: nat)
    ensures
        values_depth(entries) <= depth <==> forall|i: int|
            0 <= i < entries.len() ==> tag_depth((#[trigger] entries[i]).1) <= depth,
    decreases entries.len(),
{
    if entries.len() > 0 {
        let init = entries.drop_last();
        lemma_values_depth(init, depth);
        if values_depth(entries) <= depth {
            assert forall|i: int| 0 <= i < entries.len() implies tag_depth(
                (#[trigger] entries[i]).1,
            ) <= depth by {
                if i < init.len() {
                    assert(tag_depth(init[i].1) <= depth);
                }
            }
        } else if values_depth(init) <= depth {
            assert(tag_depth(entries.last().1) > depth);
        } else {
            let i = choose|i: int| 0 <= i < init.len() && tag_depth((#[trigger] init[i]).1) > depth;
            assert(tag_depth(entries[i].1) > depth);
        }
    }
}

/// Reading a payload that was written gives the tag back and takes exactly
/// the bytes written, whatever follows them.
pub proof fn lemma_tag_round_trip(tag: TagValue, rest: Seq<u8>, limit: nat)
    requires
        tag_encodable(tag),
        tag_well_formed(tag),
        tag_depth(tag) <= limit,
    ensures
        tag_unwire(tag.id(), tag_wire(tag) + rest, limit) == Ok::<(TagValue, int), NbtError>(
            (tag, tag_wire(tag).len() as int),
        ),
    decreases tag,
{
    match tag {
        TagValue::Byte(v) => v.lemma_unwire_wire(rest),
        TagValue::Short(v) => v.lemma_unwire_wire(rest),
        TagValue::Int(v) => v.lemma_unwire_wire(rest),
        TagValue::Long(v) => v.lemma_unwire_wire(rest),
        TagValue::Float(v) => v.lemma_unwire_wire(rest),
        TagValue::Double(v) => v.lemma_unwire_wire(rest),
        TagValue::ByteArray(v) => v.lemma_unwire_wire(rest),
        TagValue::String(v) => v.lemma_unwire_wire(rest),
        TagValue::List(list) => lemma_list_round_trip(list, rest, limit),
        TagValue::Compound(entries) => {
            assert(Seq::<(Seq<char>, TagValue)>::empty() + entries =~= entries);
            assert(tag_wire(tag) + rest =~= entries_wire(entries) + seq![0u8] + rest);
            lemma_entries_round_trip(entries, Seq::empty(), rest, limit);
        },
        TagValue::IntArray(v) => v.lemma_unwire_wire(rest),
        TagValue::LongArray(v) => v.lemma_unwire_wire(rest),
    }
}

/// A kind byte before the encoding of items stands first, and behind it the
/// items are read back.
pub proof fn lemma_items_behind_kind<T: Wire>(kind: u8, items: Seq<T>, rest: Seq<u8>)
    requires
        items.encodable(),
    ensures
        (seq![kind] + items.wire() + rest)[0] == kind,
        Seq::<T>::unwire((seq![kind] + items.wire() + rest).skip(1))
            == Ok::<(Seq<T>, int), NbtError>(
            (items, items.wire().len() as int),
        ),
        (seq![kind] + items.wire()).len() == items.wire().len() + 1,
{
    let bytes = seq![kind] + items.wire() + rest;
    assert(bytes.skip(1) =~= items.wire() + rest);
    items.lemma_unwire_wire(rest);
}

/// A kind byte and a count before a body: the count is read back and the
/// body stands behind the five bytes.
pub proof fn lemma_body_behind_count(kind: u8, count: nat, body: Seq<u8>)
    requires
        count <= u32::MAX,
    ensures
        (seq![kind] + be_bytes(count as int, 4) + body).len() == 5 + body.len(),
        (seq![kind] + be_bytes(count as int, 4) + body)[0] == kind,
        be_value((seq![kind] + be_bytes(count as int, 4) + body).subrange(1, 5))
            == count,
        (seq![kind] + be_bytes(count as int, 4) + body).skip(5) == body,
{
    let bytes = seq![kind] + be_bytes(count as int, 4) + body;
    reveal_with_fuel(radix_pow, 9);
    lemma_be_bytes_len(count as int, 4);
    lemma_be_value_of_bytes(count as int, 4);
    assert(bytes.subrange(1, 5) =~= be_bytes(count as int, 4));
    assert(bytes.skip(5) =~= body);
}

/// Reading a list that was written gives the list back and takes exactly the
/// bytes written.
pub proof fn lemma_list_round_trip(list: ListValue, rest: Seq<u8>, limit: nat)
    requires
        list_encodable(list),
        list_well_formed(list),
        list_depth(list) <= limit,
    ensures
        list_unwire(list_wire(list) + rest, limit) == Ok::<(ListValue, int), NbtError>(
            (list, list_wire(list).len() as int),
        ),
    decreases list,
{
    match list {
        ListValue::Empty => {
            lemma_body_behind_count(0, 0, rest);
        },
        ListValue::Byte(items) => lemma_items_behind_kind(1, items, rest),
        ListValue::Short(items) => lemma_items_behind_kind(2, items, rest),
        ListValue::Int(items) => lemma_items_behind_kind(3, items, rest),
        ListValue::Long(items) => lemma_items_behind_kind(4, items, rest),
        ListValue::Float(items) => lemma_items_behind_kind(5, items, rest),
        ListValue::Double(items) => lemma_items_behind_kind(6, items, rest),
        ListValue::ByteArray(items) => lemma_items_behind_kind(7, items, rest),
        ListValue::String(items) => lemma_items_behind_kind(8, items, rest),
        ListValue::List(items) => {
            lemma_body_behind_count(9, items.len(), lists_wire(items) + rest);
            assert(list_wire(list) + rest =~= seq![9u8] + be_bytes(items.len() as int, 4) + (
            lists_wire(items) + rest));
            lemma_lists_round_trip(items, rest, (limit - 1) as nat);
        },
        ListValue::Compound(items) => {
            lemma_body_behind_count(10, items.len(), compounds_wire(items) + rest);
            assert(list_wire(list) + rest =~= seq![10u8] + be_bytes(items.len() as int, 4) + (
            compounds_wire(items) + rest));
            lemma_compounds_round_trip(items, rest, (limit - 1) as nat);
        },
        ListValue::IntArray(items) => lemma_items_behind_kind(11, items, rest),
        ListValue::LongArray(items) => lemma_items_behind_kind(12, items, rest),
    }
}

/// Reading as many lists as were written gives them back and takes exactly
/// the bytes written.
pub proof fn lemma_lists_round_trip(lists: Seq<ListValue>, rest: Seq<u8>, limit: nat)
    requires
        lists_encodable(lists),
        lists_well_formed(lists),
        lists_depth(lists) <= limit,
    ensures
        lists_unwire(lists_wire(lists) + rest, lists.len(), limit)
            == Ok::<(Seq<ListValue>, int), NbtError>(
            (lists, lists_wire(lists).len() as int),
        ),
    decreases lists,
{
    if lists.len() > 0 {
        let init = lists.drop_last();
        let last = lists.last();
        let bytes = lists_wire(lists) + rest;
        assert(bytes =~= lists_wire(init) + (list_wire(last) + rest));
        lemma_lists_round_trip(init, list_wire(last) + rest, limit);
        assert(tail(bytes, lists_wire(init).len() as int) =~= list_wire(last) + rest);
        lemma_list_round_trip(last, rest, limit);
        assert(init.push(last) =~= lists);
        assert(lists.len() - 1 == init.len());
    } else {
        assert(lists =~= Seq::empty());
    }
}

/// Reading as many dictionaries as were written gives them back and takes exactly
/// the bytes written.
pub proof fn lemma_compounds_round_trip(compounds: Seq<Entries>, rest: Seq<u8>, limit: nat)
    requires
        compounds_encodable(compounds),
        compounds_well_formed(compounds),
        compounds_depth(compounds) <= limit,
    ensures
        compounds_unwire(compounds_wire(compounds) + rest, compounds.len(), limit)
            == Ok::<(Seq<Entries>, int), NbtError>(
            (compounds, compounds_wire(compounds).len() as int),
        ),
    decreases compounds,
{
    if compounds.len() > 0 {
        let init = compounds.drop_last();
        let last = compounds.last();
        let bytes = compounds_wire(compounds) + rest;
        assert(bytes =~= compounds_wire(init) + (compound_wire(last) + rest));
        lemma_compounds_round_trip(init, compound_wire(last) + rest, limit);
        assert(tail(bytes, compounds_wire(init).len() as int) =~= compound_wire(last) + rest);
        assert(Seq::<(Seq<char>, TagValue)>::empty() + last =~= last);
        assert(compound_wire(last) + rest =~= entries_wire(last) + seq![0u8] + rest);
        lemma_entries_round_trip(last, Seq::empty(), rest, limit);
        assert(init.push(last) =~= compounds);
        assert(compounds.len() - 1 == init.len());
    } else {
        assert(compounds =~= Seq::empty());
    }
}

/// Reading an entry that was written gives the entry back and takes exactly
/// the bytes written.
pub proof fn lemma_entry_round_trip(entry: (Seq<char>, TagValue), rest: Seq<u8>, inner: nat)
    requires
        entry_encodable(entry),
        tag_well_formed(entry.1),
        tag_depth(entry.1) <= inner,
    ensures
        entry_unwire(entry_wire(entry) + rest, inner) == Ok::<
            Option<((Seq<char>, TagValue), int)>,
            NbtError,
        >(Some((entry, entry_wire(entry).len() as int))),
    decreases entry,
{
    let (name, tag) = entry;
    let bytes = entry_wire(entry) + rest;
    tag.id().lemma_value_bijective(0);
    assert(bytes[0] == tag.id().spec_value() as u8);
    assert(bytes.skip(1) =~= name.wire() + (tag_wire(tag) + rest));
    name.lemma_unwire_wire(tag_wire(tag) + rest);
    assert(tail(bytes.skip(1), name.wire().len() as int) =~= tag_wire(tag) + rest);
    lemma_tag_round_trip(tag, rest, inner);
}

/// Entries that can be encoded and are well formed: so is the first, and so
/// are the others, and their bytes are those of the first and then those of
/// the others.
pub proof fn lemma_entries_split(entries: Entries, rest: Seq<u8>)
    requires
        entries.len() > 0,
        entries_encodable(entries),
        values_well_formed(entries),
    ensures
        entry_encodable(entries.first()),
        tag_well_formed(entries.first().1),
        entries_encodable(entries.drop_first()),
        values_well_formed(entries.drop_first()),
        entries_wire(entries) + seq![0u8] + rest == entry_wire(entries.first()) + (entries_wire(
            entries.drop_first(),
        ) + seq![0u8] + rest),
        entries_wire(entries).len() == entry_wire(entries.first()).len() + entries_wire(
            entries.drop_first(),
        ).len(),
{
    let others = entries.drop_first();
    lemma_entries_wire_front(entries);
    lemma_entries_encodable(entries);
    lemma_entries_encodable(others);
    lemma_values_well_formed(entries);
    lemma_values_well_formed(others);
    assert(entry_encodable(entries[0]));
    assert(tag_well_formed(entries[0].1));
    assert forall|i: int| 0 <= i < others.len() implies entry_encodable(#[trigger] others[i])
        && tag_well_formed(others[i].1) by {
        assert(others[i] == entries[i + 1]);
        assert(entry_encodable(entries[i + 1]));
        assert(tag_well_formed(entries[i + 1].1));
    }
    assert(entries_wire(entries) + seq![0u8] + rest =~= entry_wire(entries.first()) + (
    entries_wire(others) + seq![0u8] + rest));
}

/// Where no name occurs twice among `seen` and the entries behind it, the
/// first of them is stored at the end of `seen`, and no name occurs twice
/// after that.
pub proof fn lemma_first_is_new(seen: Entries, entries: Entries)
    requires
        entries.len() > 0,
        keys_distinct(seen + entries),
    ensures
        insert_entry(seen, entries.first().0, entries.first().1) == seen.push(entries.first()),
        seen.push(entries.first()) + entries.drop_first() == seen + entries,
{
    let first = entries.first();
    assert forall|i: int| 0 <= i < seen.len() implies (#[trigger] seen[i]).0 != first.0 by {
        assert((seen + entries)[i] == seen[i]);
        assert((seen + entries)[seen.len() as int] == first);
    }
    lemma_position_of(seen, first.0);
    assert(seen.push(first) + entries.drop_first() =~= seen + entries);
}

/// A reader that holds `seen` and reads entries that were written, with
/// their end marker, ends up with `seen` and the entries behind it, where no
/// name occurs twice among them all.
pub proof fn lemma_entries_round_trip(
    entries: Entries,
    seen: Entries,
    rest: Seq<u8>,
    limit: nat,
)
    requires
        entries_encodable(entries),
        values_well_formed(entries),
        keys_distinct(seen + entries),
        entries_depth(entries) <= limit,
    ensures
        entries_unwire(entries_wire(entries) + seq![0u8] + rest, seen, limit) == Ok::<
            (Entries, int),
            NbtError,
        >((seen + entries, entries_wire(entries).len() as int + 1)),
    decreases entries,
{
    let bytes = entries_wire(entries) + seq![0u8] + rest;
    if entries.len() == 0 {
        assert(bytes[0] == 0u8);
        assert(seen + entries =~= seen);
    } else {
        let first = entries.first();
        let others = entries.drop_first();
        let follow = entries_wire(others) + seq![0u8] + rest;
        lemma_entries_split(entries, rest);
        lemma_first_is_new(seen, entries);
        lemma_values_depth(entries, (limit - 1) as nat);
        lemma_values_depth(others, (limit - 1) as nat);
        assert(tag_depth(entries[0].1) <= limit - 1);
        assert forall|i: int| 0 <= i < others.len() implies tag_depth((#[trigger] others[i]).1)
            <= limit - 1 by {
            assert(others[i] == entries[i + 1]);
        }
        lemma_entry_round_trip(first, follow, (limit - 1) as nat);
        let used = entry_wire(first).len() as int;
        assert(bytes == entry_wire(first) + follow);
        assert(used >= 1);
        assert(bytes.len() >= 1);
        assert(tail(bytes.skip(1), used - 1) =~= follow);
        lemma_entries_round_trip(others, seen.push(first), rest, limit);
        assert(entry_unwire(bytes, (limit - 1) as nat) == Ok::<
            Option<((Seq<char>, TagValue), int)>,
            NbtError,
        >(Some((first, used))));
        assert(entries_unwire(follow, seen.push(first), limit) == Ok::<(Entries, int), NbtError>(
            (seen + entries, entries_wire(others).len() as int + 1),
        ));
        assert(entries_unwire(bytes, seen, limit) == crate::layout::shifted(
            entries_unwire(follow, seen.push(first), limit),
            used,
        ));
    }
}

/// Reading a named tag that was written gives the name and the tag back and
/// takes exactly the bytes written, whatever follows them.
pub proof fn lemma_named_round_trip(name: Seq<char>, tag: TagValue, rest: Seq<u8>, limit: nat)
    requires
        name.encodable(),
        tag_encodable(tag),
        tag_well_formed(tag),
        tag_depth(tag) <= limit,
    ensures
        named_unwire(named_wire(name, tag) + rest, limit)
            == Ok::<((Seq<char>, TagValue), int), NbtError>(
            ((name, tag), named_wire(name, tag).len() as int),
        ),
{
    let bytes = named_wire(name, tag) + rest;
    tag.id().lemma_value_bijective(0);
    assert(bytes[0] == tag.id().spec_value() as u8);
    assert(bytes.skip(1) =~= name.wire() + (tag_wire(tag) + rest));
    name.lemma_unwire_wire(tag_wire(tag) + rest);
    assert(tail(bytes.skip(1), name.wire().len() as int) =~= tag_wire(tag) + rest);
    lemma_tag_round_trip(tag, rest, limit);
}

/// A dictionary that was written is read back from its first byte up to its
/// end marker and no further: the reader takes exactly the bytes written,
/// the last of which is the end marker. A dictionary without entries is the
/// end marker alone.
pub proof fn lemma_compound_termination(entries: Entries, rest: Seq<u8>, limit: nat)
    requires
        entries_encodable(entries),
        entries_well_formed(entries),
        entries_depth(entries) <= limit,
    ensures
        entries_unwire(compound_wire(entries) + rest, Seq::empty(), limit)
            == Ok::<(Entries, int), NbtError>(
            (entries, compound_wire(entries).len() as int),
        ),
        compound_wire(entries).last() == 0u8,
        compound_wire(Seq::empty()) == seq![0u8],
{
    assert(Seq::<(Seq<char>, TagValue)>::empty() + entries =~= entries);
    assert(compound_wire(entries) + rest =~= entries_wire(entries) + seq![0u8] + rest);
    lemma_entries_round_trip(entries, Seq::empty(), rest, limit);
    assert(compound_wire(Seq::empty()) =~= seq![0u8]);
}

/// The empty list of no kind is written as five zero bytes, and a list whose
/// kind byte is the end marker is read as the empty list of no kind,
/// whatever its count says.
pub proof fn lemma_empty_list(bytes: Seq<u8>, limit: nat)
    ensures
        list_wire(ListValue::Empty) == seq![0u8, 0u8, 0u8, 0u8, 0u8],
        bytes.len() >= 5 && bytes[0] == 0 && limit > 0 ==> list_unwire(bytes, limit)
            == Ok::<(ListValue, int), NbtError>(
            (ListValue::Empty, 5),
        ),
{
    reveal_with_fuel(be_bytes, 5);
    assert(list_wire(ListValue::Empty) =~= seq![0u8, 0u8, 0u8, 0u8, 0u8]);
}

/// A string without characters is written as two zero bytes. A string takes
/// two bytes more than its UTF-8 bytes, can be written as long as these are
/// at most 65,535, and is then read back as it was.
pub proof fn lemma_string_boundaries(text: Seq<char>, rest: Seq<u8>)
    ensures
        Seq::<char>::empty().wire() == seq![0u8, 0u8],
        text.wire().len() == 2 + encode_utf8(text).len(),
        text.encodable() <==> encode_utf8(text).len() <= 65535,
        text.encodable() ==> Seq::<char>::unwire(text.wire() + rest)
            == Ok::<(Seq<char>, int), NbtError>(
            (text, text.wire().len() as int),
        ),
{
    reveal_with_fuel(be_bytes, 3);
    lemma_be_bytes_len(encode_utf8(text).len() as int, 2);
    assert(encode_utf8(Seq::<char>::empty()) =~= Seq::<u8>::empty()) by {
        reveal_with_fuel(encode_utf8, 1);
    }
    assert(Seq::<char>::empty().wire() =~= seq![0u8, 0u8]);
    if text.encodable() {
        text.lemma_unwire_wire(rest);
    }
}

/// A named tag takes one byte for its kind, the bytes of its name and the
/// bytes of its payload. A dictionary takes the bytes of its entries and one
/// for the end marker, and one more entry adds one byte for its kind, the
/// bytes of its name and those of its payload.
pub proof fn lemma_named_sizes(entries: Entries, name: Seq<char>, tag: TagValue)
    ensures
        named_wire(name, tag).len() == 1 + name.wire().len() + tag_wire(tag).len(),
        compound_wire(entries).len() == entries_wire(entries).len() + 1,
        entries_wire(entries.push((name, tag))).len() == entries_wire(entries).len() + named_wire(
            name,
            tag,
        ).len(),
{
    assert(entries.push((name, tag)).drop_last() =~= entries);
}

/// A list takes five bytes for the kind of its items and their number, and
/// the bytes of its items.
pub proof fn lemma_list_sizes(
    lists: Seq<ListValue>,
    list: ListValue,
    compounds: Seq<Entries>,
    entries: Entries,
)
    ensures
        list_wire(ListValue::Empty).len() == 5,
        list_wire(ListValue::List(lists)).len() == 5 + lists_wire(lists).len(),
        list_wire(ListValue::Compound(compounds)).len() == 5 + compounds_wire(compounds).len(),
        lists_wire(lists.push(list)).len() == lists_wire(lists).len() + list_wire(list).len(),
        compounds_wire(compounds.push(entries)).len() == compounds_wire(compounds).len()
            + compound_wire(entries).len(),
{
    lemma_be_bytes_len(0, 4);
    lemma_be_bytes_len(lists.len() as int, 4);
    lemma_be_bytes_len(compounds.len() as int, 4);
    assert(lists.push(list).drop_last() =~= lists);
    assert(compounds.push(entries).drop_last() =~= compounds);
}

/// An array takes four bytes for the number of its items and the bytes of
/// its items; an item of a fixed width takes that width.
pub proof fn lemma_array_sizes<T: Wire>(items: Seq<T>, width: nat)
    requires
        forall|i: int| 0 <= i < items.len() ==> (#[trigger] items[i]).wire().len() == width,
    ensures
        items.wire().len() == 4 + items.len() * width,
    decreases items.len(),
{
    lemma_be_bytes_len(items.len() as int, 4);
    lemma_concat_wire_width(items, width);
}

/// Items of one width take that width times their number.
pub proof fn lemma_concat_wire_width<T: Wire>(items: Seq<T>, width: nat)
    requires
        forall|i: int| 0 <= i < items.len() ==> (#[trigger] items[i]).wire().len() == width,
    ensures
        concat_wire(items).len() == items.len() * width,
    decreases items.len(),
{
    if items.len() > 0 {
        lemma_concat_wire_width(items.drop_last(), width);
        assert(items.len() * width == (items.len() - 1) * width + width) by (nonlinear_arith);
    } else {
        assert(items.len() * width == 0) by (nonlinear_arith)
            requires
                items.len() == 0,
        ;
    }
}

/// A tag goes no deeper than it has bytes: each list and each dictionary
/// takes at least one byte of its own.
pub proof fn lemma_tag_depth_fits(tag: TagValue)
    ensures
        tag_depth(tag) <= tag_wire(tag).len(),
    decreases tag,
{
    match tag {
        TagValue::List(list) => lemma_list_depth_fits(list),
        TagValue::Compound(entries) => lemma_values_depth_fits(entries),
        _ => {},
    }
}

/// A list goes no deeper than it has bytes.
pub proof fn lemma_list_depth_fits(list: ListValue)
    ensures
        list_depth(list) <= list_wire(list).len(),
    decreases list,
{
    match list {
        ListValue::List(items) => {
            lemma_be_bytes_len(items.len() as int, 4);
            lemma_lists_depth_fits(items);
        },
        ListValue::Compound(items) => {
            lemma_be_bytes_len(items.len() as int, 4);
            lemma_compounds_depth_fits(items);
        },
        _ => {},
    }
}

/// Lists go no deeper than they have bytes.
pub proof fn lemma_lists_depth_fits(lists: Seq<ListValue>)
    ensures
        lists_depth(lists) <= lists_wire(lists).len(),
    decreases lists,
{
    if lists.len() > 0 {
        lemma_lists_depth_fits(lists.drop_last());
        lemma_list_depth_fits(lists.last());
    }
}

/// Dictionaries go no deeper than they have bytes.
pub proof fn lemma_compounds_depth_fits(compounds: Seq<Entries>)
    ensures
        compounds_depth(compounds) <= compounds_wire(compounds).len(),
    decreases compounds,
{
    if compounds.len() > 0 {
        lemma_compounds_depth_fits(compounds.drop_last());
        lemma_values_depth_fits(compounds.last());
    }
}

/// The values of entries go no deeper than the entries have bytes.
pub proof fn lemma_values_depth_fits(entries: Entries)
    ensures
        values_depth(entries) <= entries_wire(entries).len(),
    decreases entries,
{
    if entries.len() > 0 {
        lemma_values_depth_fits(entries.drop_last());
        lemma_tag_depth_fits(entries.last().1);
    }
}

/// A reader that goes as deep as the bytes go reads a named tag that was
/// written back as it was, and takes exactly the bytes written, whatever
/// follows them.
pub proof fn lemma_round_trip(name: Seq<char>, tag: TagValue, rest: Seq<u8>)
    requires
        name.encodable(),
        tag_encodable(tag),
        tag_well_formed(tag),
    ensures
        named_unwire(named_wire(name, tag) + rest, (named_wire(name, tag) + rest).len()) == Ok::<
            ((Seq<char>, TagValue), int),
            NbtError,
        >(((name, tag), named_wire(name, tag).len() as int)),
        tag_unwire(tag.id(), tag_wire(tag) + rest, (tag_wire(tag) + rest).len()) == Ok::<
            (TagValue, int),
            NbtError,
        >((tag, tag_wire(tag).len() as int)),
{
    lemma_tag_depth_fits(tag);
    lemma_named_round_trip(name, tag, rest, (named_wire(name, tag) + rest).len());
    lemma_tag_round_trip(tag, rest, (tag_wire(tag) + rest).len());
}

/// A reader that may go as deep as there are bytes never stops for being
/// too deep.
pub proof fn lemma_tag_never_too_deep(id: TagID, bytes: Seq<u8>, limit: nat)
    requires
        bytes.len() <= limit,
    ensures
        tag_unwire(id, bytes, limit) != Err::<(TagValue, int), NbtError>(NbtError::TooDeep),
    decreases bytes.len(), 2nat, 0nat,
{
    match id {
        TagID::Byte => i8::lemma_unwire_error(bytes),
        TagID::Short => i16::lemma_unwire_error(bytes),
        TagID::Int => i32::lemma_unwire_error(bytes),
        TagID::Long => i64::lemma_unwire_error(bytes),
        TagID::Float => u32::lemma_unwire_error(bytes),
        TagID::Double => u64::lemma_unwire_error(bytes),
        TagID::ByteArray => Seq::<i8>::lemma_unwire_error(bytes),
        TagID::String => Seq::<char>::lemma_unwire_error(bytes),
        TagID::List => lemma_list_never_too_deep(bytes, limit),
        TagID::Compound => lemma_entries_never_too_deep(bytes, Seq::empty(), limit),
        TagID::IntArray => Seq::<i32>::lemma_unwire_error(bytes),
        TagID::LongArray => Seq::<i64>::lemma_unwire_error(bytes),
    }
}

/// A reader of a list that may go as deep as there are bytes never stops
/// for being too deep.
pub proof fn lemma_list_never_too_deep(bytes: Seq<u8>, limit: nat)
    requires
        bytes.len() <= limit,
    ensures
        list_unwire(bytes, limit) != Err::<(ListValue, int), NbtError>(NbtError::TooDeep),
    decreases bytes.len(), 0nat, 0nat,
{
    if bytes.len() >= 1 {
        match TagID::spec_try_from(bytes[0]) {
            Ok(TagID::Byte) => Seq::<i8>::lemma_unwire_error(bytes.skip(1)),
            Ok(TagID::Short) => Seq::<i16>::lemma_unwire_error(bytes.skip(1)),
            Ok(TagID::Int) => Seq::<i32>::lemma_unwire_error(bytes.skip(1)),
            Ok(TagID::Long) => Seq::<i64>::lemma_unwire_error(bytes.skip(1)),
            Ok(TagID::Float) => Seq::<u32>::lemma_unwire_error(bytes.skip(1)),
            Ok(TagID::Double) => Seq::<u64>::lemma_unwire_error(bytes.skip(1)),
            Ok(TagID::ByteArray) => Seq::<Seq<i8>>::lemma_unwire_error(bytes.skip(1)),
            Ok(TagID::String) => Seq::<Seq<char>>::lemma_unwire_error(bytes.skip(1)),
            Ok(TagID::List) => {
                if bytes.len() >= 5 {
                    lemma_lists_never_too_deep(
                        bytes.skip(5),
                        be_value(bytes.subrange(1, 5)) as nat,
                        (limit - 1) as nat,
                    );
                }
            },
            Ok(TagID::Compound) => {
                if bytes.len() >= 5 {
                    lemma_compounds_never_too_deep(
                        bytes.skip(5),
                        be_value(bytes.subrange(1, 5)) as nat,
                        (limit - 1) as nat,
                    );
                }
            },
            Ok(TagID::IntArray) => Seq::<Seq<i32>>::lemma_unwire_error(bytes.skip(1)),
            Ok(TagID::LongArray) => Seq::<Seq<i64>>::lemma_unwire_error(bytes.skip(1)),
            Err(_) => {},
        }
    }
}

/// A reader of several items that may go as deep as there are bytes never
/// stops for being too deep.
pub proof fn lemma_lists_never_too_deep(bytes: Seq<u8>, count: nat, limit: nat)
    requires
        bytes.len() <= limit,
    ensures
        lists_unwire(bytes, count, limit)
            != Err::<(Seq<ListValue>, int), NbtError>(NbtError::TooDeep),
    decreases bytes.len(), 2nat, count,
{
    if count > 0 {
        lemma_lists_never_too_deep(bytes, (count - 1) as nat, limit);
        if lists_unwire(bytes, (count - 1) as nat, limit) is Ok {
            let used = lists_unwire(bytes, (count - 1) as nat, limit)->Ok_0.1;
            lemma_list_never_too_deep(tail(bytes, used), limit);
        }
    }
}

/// A reader of several items that may go as deep as there are bytes never
/// stops for being too deep.
pub proof fn lemma_compounds_never_too_deep(bytes: Seq<u8>, count: nat, limit: nat)
    requires
        bytes.len() <= limit,
    ensures
        compounds_unwire(bytes, count, limit)
            != Err::<(Seq<Entries>, int), NbtError>(NbtError::TooDeep),
    decreases bytes.len(), 2nat, count,
{
    if count > 0 {
        lemma_compounds_never_too_deep(bytes, (count - 1) as nat, limit);
        if compounds_unwire(bytes, (count - 1) as nat, limit) is Ok {
            let used = compounds_unwire(bytes, (count - 1) as nat, limit)->Ok_0.1;
            lemma_entries_never_too_deep(tail(bytes, used), Seq::empty(), limit);
        }
    }
}

/// A reader of a dictionary that may go as deep as there are bytes never
/// stops for being too deep.
pub proof fn lemma_entries_never_too_deep(bytes: Seq<u8>, seen: Entries, limit: nat)
    requires
        bytes.len() <= limit,
    ensures
        entries_unwire(bytes, seen, limit) != Err::<(Entries, int), NbtError>(NbtError::TooDeep),
    decreases bytes.len(), 1nat, 0nat,
{
    if bytes.len() >= 1 {
        lemma_entry_never_too_deep(bytes, (limit - 1) as nat);
        match entry_unwire(bytes, (limit - 1) as nat) {
            Ok(Some((entry, used))) => {
                lemma_entries_never_too_deep(
                    tail(bytes.skip(1), used - 1),
                    insert_entry(seen, entry.0, entry.1),
                    limit,
                );
            },
            _ => {},
        }
    }
}

/// A reader of one entry whose value may go as deep as there are bytes
/// behind the kind byte never stops for being too deep.
pub proof fn lemma_entry_never_too_deep(bytes: Seq<u8>, inner: nat)
    requires
        bytes.len() <= inner + 1,
    ensures
        entry_unwire(bytes, inner) != Err::<Option<((Seq<char>, TagValue), int)>, NbtError>(
            NbtError::TooDeep,
        ),
    decreases bytes.len(), 0nat, 0nat,
{
    if bytes.len() >= 1 && bytes[0] != 0 {
        Seq::<char>::lemma_unwire_error(bytes.skip(1));
        match Seq::<char>::unwire(bytes.skip(1)) {
            Ok((name, n)) => match TagID::spec_try_from(bytes[0]) {
                Ok(id) => lemma_tag_never_too_deep(id, tail(bytes.skip(1), n), inner),
                Err(_) => {},
            },
            Err(_) => {},
        }
    }
}

/// A reader of a named tag that may go as deep as there are bytes never
/// stops for being too deep.
pub proof fn lemma_named_never_too_deep(bytes: Seq<u8>, limit: nat)
    requires
        bytes.len() <= limit,
    ensures
        named_unwire(bytes, limit) != Err::<((Seq<char>, TagValue), int), NbtError>(
            NbtError::TooDeep,
        ),
{
    if bytes.len() >= 1 {
        Seq::<char>::lemma_unwire_error(bytes.skip(1));
        match TagID::spec_try_from(bytes[0]) {
            Ok(id) => match Seq::<char>::unwire(bytes.skip(1)) {
                Ok((name, n)) => lemma_tag_never_too_deep(id, tail(bytes.skip(1), n), limit),
                Err(_) => {},
            },
            Err(_) => {},
        }
    }
}

} // verus!
