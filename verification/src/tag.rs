//! The data model: tags, homogeneous lists, dictionaries and named roots.

use crate::NbtError;
use crate::text::same_text;
use vstd::prelude::*;
use vstd::slice::slice_to_vec;

verus! {

/// The wire discriminant of a tag kind.
#[derive(Clone, Copy, PartialEq, Eq, Structural, Debug)]
pub enum TagID {
    Byte,
    Short,
    Int,
    Long,
    Float,
    Double,
    ByteArray,
    String,
    List,
    Compound,
    IntArray,
    LongArray,
}

/// One node of the tree. `Float` and `Double` hold the IEEE 754 bit pattern.
#[derive(PartialEq, Debug)]
pub enum Tag {
    Byte(i8),
    Short(i16),
    Int(i32),
    Long(i64),
    Float(u32),
    Double(u64),
    ByteArray(Vec<i8>),
    String(String),
    List(ListTag),
    Compound(Compound),
    IntArray(Vec<i32>),
    LongArray(Vec<i64>),
}

/// A homogeneous list of payloads, or the empty list of no determinable kind.
#[derive(PartialEq, Debug)]
pub enum ListTag {
    Empty,
    Byte(Vec<i8>),
    Short(Vec<i16>),
    Int(Vec<i32>),
    Long(Vec<i64>),
    Float(Vec<u32>),
    Double(Vec<u64>),
    ByteArray(Vec<Vec<i8>>),
    String(Vec<String>),
    List(Vec<ListTag>),
    Compound(Vec<Compound>),
    IntArray(Vec<Vec<i32>>),
    LongArray(Vec<Vec<i64>>),
}

/// A dictionary from names to tags that keeps the order of insertion.
#[derive(PartialEq, Debug)]
pub struct Compound {
    entries: Vec<(String, Tag)>,
}

/// A tag under a name: the root of a file.
#[derive(PartialEq, Debug)]
pub struct NamedTag {
    pub(crate) name: String,
    pub(crate) tag: Tag,
}

/// The named values of a dictionary, in order.
pub type Entries = Seq<(Seq<char>, TagValue)>;

/// The mathematical value of a [`Tag`].
pub enum TagValue {
    Byte(i8),
    Short(i16),
    Int(i32),
    Long(i64),
    Float(u32),
    Double(u64),
    ByteArray(Seq<i8>),
    String(Seq<char>),
    List(ListValue),
    Compound(Seq<(Seq<char>, TagValue)>),
    IntArray(Seq<i32>),
    LongArray(Seq<i64>),
}

/// The mathematical value of a [`ListTag`].
pub enum ListValue {
    Empty,
    Byte(Seq<i8>),
    Short(Seq<i16>),
    Int(Seq<i32>),
    Long(Seq<i64>),
    Float(Seq<u32>),
    Double(Seq<u64>),
    ByteArray(Seq<Seq<i8>>),
    String(Seq<Seq<char>>),
    List(Seq<ListValue>),
    Compound(Seq<Seq<(Seq<char>, TagValue)>>),
    IntArray(Seq<Seq<i32>>),
    LongArray(Seq<Seq<i64>>),
}

impl View for Tag {
    type V = TagValue;

    open spec fn view(&self) -> TagValue
        decreases self,
    {
        match self {
            Tag::Byte(v) => TagValue::Byte(*v),
            Tag::Short(v) => TagValue::Short(*v),
            Tag::Int(v) => TagValue::Int(*v),
            Tag::Long(v) => TagValue::Long(*v),
            Tag::Float(v) => TagValue::Float(*v),
            Tag::Double(v) => TagValue::Double(*v),
            Tag::ByteArray(v) => TagValue::ByteArray(v@),
            Tag::String(v) => TagValue::String(v@),
            Tag::List(v) => TagValue::List(v@),
            Tag::Compound(v) => TagValue::Compound(v@),
            Tag::IntArray(v) => TagValue::IntArray(v@),
            Tag::LongArray(v) => TagValue::LongArray(v@),
        }
    }
}

impl View for ListTag {
    type V = ListValue;

    open spec fn view(&self) -> ListValue
        decreases self,
    {
        match self {
            ListTag::Empty => ListValue::Empty,
            ListTag::Byte(v) => ListValue::Byte(v@),
            ListTag::Short(v) => ListValue::Short(v@),
            ListTag::Int(v) => ListValue::Int(v@),
            ListTag::Long(v) => ListValue::Long(v@),
            ListTag::Float(v) => ListValue::Float(v@),
            ListTag::Double(v) => ListValue::Double(v@),
            ListTag::ByteArray(v) => ListValue::ByteArray(Seq::new(v@.len(), |i: int| v@[i]@)),
            ListTag::String(v) => ListValue::String(Seq::new(v@.len(), |i: int| v@[i]@)),
            ListTag::List(v) => ListValue::List(list_values(v@)),
            ListTag::Compound(v) => ListValue::Compound(compound_values(v@)),
            ListTag::IntArray(v) => ListValue::IntArray(Seq::new(v@.len(), |i: int| v@[i]@)),
            ListTag::LongArray(v) => ListValue::LongArray(Seq::new(v@.len(), |i: int| v@[i]@)),
        }
    }
}

/// The values of a sequence of lists.
pub open spec fn list_values(lists: Seq<ListTag>) -> Seq<ListValue>
    decreases lists,
{
    if lists.len() == 0 {
        Seq::empty()
    } else {
        list_values(lists.drop_last()).push(lists.last()@)
    }
}

/// The values of a sequence of dictionaries.
pub open spec fn compound_values(compounds: Seq<Compound>) -> Seq<Seq<(Seq<char>, TagValue)>>
    decreases compounds,
{
    if compounds.len() == 0 {
        Seq::empty()
    } else {
        compound_values(compounds.drop_last()).push(compounds.last()@)
    }
}

/// The values of a sequence of named tags.
pub open spec fn entry_values(entries: Seq<(String, Tag)>) -> Seq<(Seq<char>, TagValue)>
    decreases entries,
{
    if entries.len() == 0 {
        Seq::empty()
    } else {
        entry_values(entries.drop_last()).push((entries.last().0@, entries.last().1@))
    }
}

/// The values of a sequence of lists stand index by index.
pub proof fn lemma_list_values(lists: Seq<ListTag>)
    ensures
        list_values(lists).len() == lists.len(),
        forall|i: int|
            0 <= i < lists.len() ==> #[trigger] list_values(lists)[i] == lists[i]@,
    decreases lists.len(),
{
    if lists.len() > 0 {
        let init = lists.drop_last();
        lemma_list_values(init);
        assert(list_values(lists) == list_values(init).push(lists.last()@));
        assert forall|i: int| 0 <= i < lists.len() implies #[trigger] list_values(lists)[i]
            == lists[i]@ by {
            if i < init.len() {
                assert(init[i] == lists[i]);
            }
        }
    } else {
        assert(list_values(lists) == Seq::<ListValue>::empty());
    }
}

/// The values of a sequence of dictionaries stand index by index.
pub proof fn lemma_compound_values(compounds: Seq<Compound>)
    ensures
        compound_values(compounds).len() == compounds.len(),
        forall|i: int|
            0 <= i < compounds.len() ==> #[trigger] compound_values(compounds)[i] == compounds[i]@,
    decreases compounds.len(),
{
    if compounds.len() > 0 {
        let init = compounds.drop_last();
        lemma_compound_values(init);
        assert(compound_values(compounds) == compound_values(init).push(compounds.last()@));
        assert forall|i: int| 0 <= i < compounds.len()
            implies #[trigger] compound_values(compounds)[i]
            == compounds[i]@ by {
            if i < init.len() {
                assert(init[i] == compounds[i]);
            }
        }
    } else {
        assert(compound_values(compounds) == Seq::<Seq<(Seq<char>, TagValue)>>::empty());
    }
}

/// The values of a sequence of named tags stand index by index.
pub proof fn lemma_entry_values(entries: Seq<(String, Tag)>)
    ensures
        entry_values(entries).len() == entries.len(),
        forall|i: int|
            0 <= i < entries.len() ==> #[trigger] entry_values(entries)[i]
                == (entries[i].0@, entries[i].1@),
    decreases entries.len(),
{
    if entries.len() > 0 {
        let init = entries.drop_last();
        lemma_entry_values(init);
        assert(entry_values(entries)
            == entry_values(init).push((entries.last().0@, entries.last().1@)));
        assert forall|i: int| 0 <= i < entries.len() implies #[trigger] entry_values(entries)[i]
            == (entries[i].0@, entries[i].1@) by {
            if i < init.len() {
                assert(init[i] == entries[i]);
            }
        }
    } else {
        assert(entry_values(entries) == Seq::<(Seq<char>, TagValue)>::empty());
    }
}

impl View for NamedTag {
    type V = (Seq<char>, TagValue);

    closed spec fn view(&self) -> (Seq<char>, TagValue) {
        (self.name@, self.tag@)
    }
}

impl View for Compound {
    type V = Seq<(Seq<char>, TagValue)>;

    closed spec fn view(&self) -> Seq<(Seq<char>, TagValue)>
        decreases self,
    {
        entry_values(self.entries@)
    }
}

impl TagID {
    /// The number that stands for this kind on the wire: 1 to 12.
    pub open spec fn spec_value(self) -> int {
        match self {
            TagID::Byte => 1,
            TagID::Short => 2,
            TagID::Int => 3,
            TagID::Long => 4,
            TagID::Float => 5,
            TagID::Double => 6,
            TagID::ByteArray => 7,
            TagID::String => 8,
            TagID::List => 9,
            TagID::Compound => 10,
            TagID::IntArray => 11,
            TagID::LongArray => 12,
        }
    }

    /// The kind that a wire number stands for, if it is one of 1 to 12.
    pub open spec fn from_value(value: int) -> Option<TagID> {
        if value == 1 {
            Some(TagID::Byte)
        } else if value == 2 {
            Some(TagID::Short)
        } else if value == 3 {
            Some(TagID::Int)
        } else if value == 4 {
            Some(TagID::Long)
        } else if value == 5 {
            Some(TagID::Float)
        } else if value == 6 {
            Some(TagID::Double)
        } else if value == 7 {
            Some(TagID::ByteArray)
        } else if value == 8 {
            Some(TagID::String)
        } else if value == 9 {
            Some(TagID::List)
        } else if value == 10 {
            Some(TagID::Compound)
        } else if value == 11 {
            Some(TagID::IntArray)
        } else if value == 12 {
            Some(TagID::LongArray)
        } else {
            None
        }
    }

    /// What a kind byte read from the wire means: a kind, the end marker, or
    /// an unsupported byte.
    pub open spec fn spec_try_from(value: u8) -> Result<TagID, NbtError> {
        match TagID::from_value(value as int) {
            Some(id) => Ok(id),
            None => if value == 0 {
                Err(NbtError::End)
            } else {
                Err(NbtError::Unsupported { id_encountered: value })
            },
        }
    }

    /// The wire numbers and the kinds correspond one to one, and no kind has
    /// the number 0.
    pub proof fn lemma_value_bijective(self, value: int)
        ensures
            1 <= self.spec_value() <= 12,
            TagID::from_value(self.spec_value()) == Some(self),
            TagID::from_value(value) == Some(self) <==> value == self.spec_value(),
            TagID::from_value(value) is Some <==> 1 <= value <= 12,
    {
    }

    /// This kind's wire number.
    pub fn value(self) -> (value: isize)
        ensures
            value == self.spec_value(),
    {
        match self {
            TagID::Byte => 1,
            TagID::Short => 2,
            TagID::Int => 3,
            TagID::Long => 4,
            TagID::Float => 5,
            TagID::Double => 6,
            TagID::ByteArray => 7,
            TagID::String => 8,
            TagID::List => 9,
            TagID::Compound => 10,
            TagID::IntArray => 11,
            TagID::LongArray => 12,
        }
    }

    /// The kind that a byte read from the wire stands for. The end marker 0
    /// gives [`NbtError::End`], any byte above 12 gives
    /// [`NbtError::Unsupported`] with that byte.
    pub fn try_from(value: u8) -> (r: Result<TagID, NbtError>)
        ensures
            r == TagID::spec_try_from(value),
    {
        match value {
            1 => Ok(TagID::Byte),
            2 => Ok(TagID::Short),
            3 => Ok(TagID::Int),
            4 => Ok(TagID::Long),
            5 => Ok(TagID::Float),
            6 => Ok(TagID::Double),
            7 => Ok(TagID::ByteArray),
            8 => Ok(TagID::String),
            9 => Ok(TagID::List),
            10 => Ok(TagID::Compound),
            11 => Ok(TagID::IntArray),
            12 => Ok(TagID::LongArray),
            0 => Err(NbtError::End),
            other => Err(NbtError::Unsupported { id_encountered: other }),
        }
    }

    /// The title of this kind as a string of its own.
    pub fn to_string(self) -> (text: String)
        ensures
            text@ == self.spec_title(),
    {
        self.title().to_owned()
    }

    /// The title of this kind in PascalCase.
    pub fn title(self) -> (title: &'static str)
        ensures
            title@ == self.spec_title(),
    {
        match self {
            TagID::Byte => "Byte",
            TagID::Short => "Short",
            TagID::Int => "Int",
            TagID::Long => "Long",
            TagID::Float => "Float",
            TagID::Double => "Double",
            TagID::ByteArray => "ByteArray",
            TagID::String => "String",
            TagID::List => "List",
            TagID::Compound => "Compound",
            TagID::IntArray => "IntArray",
            TagID::LongArray => "LongArray",
        }
    }

    /// The title of this kind as a sequence of characters.
    pub open spec fn spec_title(self) -> Seq<char> {
        match self {
            TagID::Byte => "Byte"@,
            TagID::Short => "Short"@,
            TagID::Int => "Int"@,
            TagID::Long => "Long"@,
            TagID::Float => "Float"@,
            TagID::Double => "Double"@,
            TagID::ByteArray => "ByteArray"@,
            TagID::String => "String"@,
            TagID::List => "List"@,
            TagID::Compound => "Compound"@,
            TagID::IntArray => "IntArray"@,
            TagID::LongArray => "LongArray"@,
        }
    }

    /// The name of this kind: `TAG_` and its title.
    pub fn name(self) -> (name: &'static str)
        ensures
            name@ == self.spec_name(),
    {
        match self {
            TagID::Byte => "TAG_Byte",
            TagID::Short => "TAG_Short",
            TagID::Int => "TAG_Int",
            TagID::Long => "TAG_Long",
            TagID::Float => "TAG_Float",
            TagID::Double => "TAG_Double",
            TagID::ByteArray => "TAG_ByteArray",
            TagID::String => "TAG_String",
            TagID::List => "TAG_List",
            TagID::Compound => "TAG_Compound",
            TagID::IntArray => "TAG_IntArray",
            TagID::LongArray => "TAG_LongArray",
        }
    }

    /// The name of this kind as a sequence of characters.
    pub open spec fn spec_name(self) -> Seq<char> {
        match self {
            TagID::Byte => "TAG_Byte"@,
            TagID::Short => "TAG_Short"@,
            TagID::Int => "TAG_Int"@,
            TagID::Long => "TAG_Long"@,
            TagID::Float => "TAG_Float"@,
            TagID::Double => "TAG_Double"@,
            TagID::ByteArray => "TAG_ByteArray"@,
            TagID::String => "TAG_String"@,
            TagID::List => "TAG_List"@,
            TagID::Compound => "TAG_Compound"@,
            TagID::IntArray => "TAG_IntArray"@,
            TagID::LongArray => "TAG_LongArray"@,
        }
    }
}

impl TagValue {
    /// The kind of this value.
    pub open spec fn id(self) -> TagID {
        match self {
            TagValue::Byte(_) => TagID::Byte,
            TagValue::Short(_) => TagID::Short,
            TagValue::Int(_) => TagID::Int,
            TagValue::Long(_) => TagID::Long,
            TagValue::Float(_) => TagID::Float,
            TagValue::Double(_) => TagID::Double,
            TagValue::ByteArray(_) => TagID::ByteArray,
            TagValue::String(_) => TagID::String,
            TagValue::List(_) => TagID::List,
            TagValue::Compound(_) => TagID::Compound,
            TagValue::IntArray(_) => TagID::IntArray,
            TagValue::LongArray(_) => TagID::LongArray,
        }
    }
}

impl ListValue {
    /// The kind of the items; [`TagID::Byte`] for the empty list of no kind.
    pub open spec fn id(self) -> TagID {
        match self {
            ListValue::Empty => TagID::Byte,
            ListValue::Byte(_) => TagID::Byte,
            ListValue::Short(_) => TagID::Short,
            ListValue::Int(_) => TagID::Int,
            ListValue::Long(_) => TagID::Long,
            ListValue::Float(_) => TagID::Float,
            ListValue::Double(_) => TagID::Double,
            ListValue::ByteArray(_) => TagID::ByteArray,
            ListValue::String(_) => TagID::String,
            ListValue::List(_) => TagID::List,
            ListValue::Compound(_) => TagID::Compound,
            ListValue::IntArray(_) => TagID::IntArray,
            ListValue::LongArray(_) => TagID::LongArray,
        }
    }

    /// The number of items.
    pub open spec fn len(self) -> nat {
        match self {
            ListValue::Empty => 0,
            ListValue::Byte(items) => items.len(),
            ListValue::Short(items) => items.len(),
            ListValue::Int(items) => items.len(),
            ListValue::Long(items) => items.len(),
            ListValue::Float(items) => items.len(),
            ListValue::Double(items) => items.len(),
            ListValue::ByteArray(items) => items.len(),
            ListValue::String(items) => items.len(),
            ListValue::List(items) => items.len(),
            ListValue::Compound(items) => items.len(),
            ListValue::IntArray(items) => items.len(),
            ListValue::LongArray(items) => items.len(),
        }
    }
}

impl Tag {
    /// The kind of this tag.
    pub fn id(&self) -> (id: TagID)
        ensures
            id == self@.id(),
    {
        match self {
            Tag::Byte(_) => TagID::Byte,
            Tag::Short(_) => TagID::Short,
            Tag::Int(_) => TagID::Int,
            Tag::Long(_) => TagID::Long,
            Tag::Float(_) => TagID::Float,
            Tag::Double(_) => TagID::Double,
            Tag::ByteArray(_) => TagID::ByteArray,
            Tag::String(_) => TagID::String,
            Tag::List(_) => TagID::List,
            Tag::Compound(_) => TagID::Compound,
            Tag::IntArray(_) => TagID::IntArray,
            Tag::LongArray(_) => TagID::LongArray,
        }
    }

    /// The title of this tag's kind in PascalCase.
    pub fn title(&self) -> (title: &'static str)
        ensures
            title@ == self@.id().spec_title(),
    {
        self.id().title()
    }

    /// The name of this tag's kind: `TAG_` and its title.
    pub fn name(&self) -> (name: &'static str)
        ensures
            name@ == self@.id().spec_name(),
    {
        self.id().name()
    }
}

impl ListTag {
    /// The kind of the items; [`TagID::Byte`] for [`ListTag::Empty`].
    pub fn id(&self) -> (id: TagID)
        ensures
            id == self@.id(),
    {
        match self {
            ListTag::Empty => TagID::Byte,
            ListTag::Byte(_) => TagID::Byte,
            ListTag::Short(_) => TagID::Short,
            ListTag::Int(_) => TagID::Int,
            ListTag::Long(_) => TagID::Long,
            ListTag::Float(_) => TagID::Float,
            ListTag::Double(_) => TagID::Double,
            ListTag::ByteArray(_) => TagID::ByteArray,
            ListTag::String(_) => TagID::String,
            ListTag::List(_) => TagID::List,
            ListTag::Compound(_) => TagID::Compound,
            ListTag::IntArray(_) => TagID::IntArray,
            ListTag::LongArray(_) => TagID::LongArray,
        }
    }

    /// The number of items; 0 for [`ListTag::Empty`].
    pub fn len(&self) -> (len: usize)
        ensures
            len == self@.len(),
    {
        proof {
            match self {
                ListTag::List(list) => lemma_list_values(list@),
                ListTag::Compound(list) => lemma_compound_values(list@),
                _ => {},
            }
        }
        match self {
            ListTag::Empty => 0,
            ListTag::Byte(list) => list.len(),
            ListTag::Short(list) => list.len(),
            ListTag::Int(list) => list.len(),
            ListTag::Long(list) => list.len(),
            ListTag::Float(list) => list.len(),
            ListTag::Double(list) => list.len(),
            ListTag::ByteArray(list) => list.len(),
            ListTag::String(list) => list.len(),
            ListTag::List(list) => list.len(),
            ListTag::Compound(list) => list.len(),
            ListTag::IntArray(list) => list.len(),
            ListTag::LongArray(list) => list.len(),
        }
    }
}

/// The index of the first entry called `name`, or the number of entries where
/// there is none.
pub open spec fn position_of(entries: Entries, name: Seq<char>) -> int
    decreases entries.len(),
{
    if entries.len() == 0 {
        0
    } else if entries.first().0 == name {
        0
    } else {
        1 + position_of(entries.drop_first(), name)
    }
}

/// Whether `entries` has an entry called `name`.
pub open spec fn has_key(entries: Entries, name: Seq<char>) -> bool {
    position_of(entries, name) < entries.len()
}

/// `entries` after the value `tag` is stored under `name`: in the place of
/// the entry of that name, or at the end where there is none.
pub open spec fn insert_entry(entries: Entries, name: Seq<char>, tag: TagValue) -> Entries {
    if has_key(entries, name) {
        entries.update(position_of(entries, name), (name, tag))
    } else {
        entries.push((name, tag))
    }
}

/// Whether no two entries have the same name.
pub open spec fn keys_distinct(entries: Entries) -> bool {
    forall|i: int, j: int|
        0 <= i < j < entries.len() ==> (#[trigger] entries[i]).0 != (#[trigger] entries[j]).0
}

/// The value stored under `name`, if there is one.
pub open spec fn lookup(entries: Entries, name: Seq<char>) -> Option<TagValue> {
    if has_key(entries, name) {
        Some(entries[position_of(entries, name)].1)
    } else {
        None
    }
}

/// Where `position_of` points, the name stands, and nowhere before.
pub proof fn lemma_position_of(entries: Entries, name: Seq<char>)
    ensures
        0 <= position_of(entries, name) <= entries.len(),
        has_key(entries, name) ==> entries[position_of(entries, name)].0 == name,
        forall|i: int| 0 <= i < position_of(entries, name) ==> (#[trigger] entries[i]).0 != name,
    decreases entries.len(),
{
    if entries.len() > 0 && entries.first().0 != name {
        let rest = entries.drop_first();
        lemma_position_of(rest, name);
        assert forall|i: int| 0 <= i < position_of(entries, name) implies (#[trigger] entries[i]).0
            != name by {
            if i > 0 {
                assert(rest[i - 1] == entries[i]);
            }
        }
    }
}

/// Storing a value keeps the names distinct.
pub proof fn lemma_insert_keeps_distinct(entries: Entries, name: Seq<char>, tag: TagValue)
    requires
        keys_distinct(entries),
    ensures
        keys_distinct(insert_entry(entries, name, tag)),
{
    lemma_position_of(entries, name);
    let after = insert_entry(entries, name, tag);
    assert forall|i: int, j: int| 0 <= i < j < after.len() implies (#[trigger] after[i]).0 != (
    #[trigger] after[j]).0 by {
        if has_key(entries, name) {
            let at = position_of(entries, name);
            assert(entries[at].0 == name);
            assert(entries[i].0 != entries[j].0);
        } else {
            if j < entries.len() {
                assert(entries[i].0 != entries[j].0);
            } else {
                assert(entries[i].0 != name);
            }
        }
    }
}

impl Compound {
    /// No two entries have the same name.
    #[verifier::type_invariant]
    closed spec fn names_distinct(&self) -> bool {
        forall|i: int, j: int|
            0 <= i < j < self.entries@.len() ==> (#[trigger] self.entries@[i]).0@ != (
            #[trigger] self.entries@[j]).0@
    }

    /// A dictionary without entries.
    pub fn new() -> (map: Compound)
        ensures
            map@ == Seq::<(Seq<char>, TagValue)>::empty(),
    {
        Compound { entries: Vec::new() }
    }

    /// The number of entries.
    pub fn len(&self) -> (len: usize)
        ensures
            len == self@.len(),
    {
        proof {
            lemma_entry_values(self.entries@);
        }
        self.entries.len()
    }

    /// Whether there is no entry.
    pub fn is_empty(&self) -> (empty: bool)
        ensures
            empty == (self@.len() == 0),
    {
        proof {
            lemma_entry_values(self.entries@);
        }
        self.entries.len() == 0
    }

    /// The names of a dictionary are distinct.
    pub fn keys_are_distinct(&self)
        ensures
            keys_distinct(self@),
    {
        proof {
            use_type_invariant(self);
            lemma_entry_values(self.entries@);
            assert forall|i: int, j: int| 0 <= i < j < self@.len() implies (#[trigger] self@[i]).0
                != (#[trigger] self@[j]).0 by {
                assert(self.entries@[i].0@ != self.entries@[j].0@);
            }
        }
    }

    /// The index of the entry called `name`, or the number of entries where
    /// there is none.
    pub fn position(&self, name: &str) -> (at: usize)
        ensures
            at == position_of(self@, name@),
    {
        let mut i: usize = 0;
        proof {
            lemma_entry_values(self.entries@);
            lemma_position_of(self@, name@);
        }
        while i < self.entries.len()
            invariant
                i <= self.entries@.len() == self@.len(),
                forall|k: int| 0 <= k < self@.len() ==> self@[k].0
                    == (#[trigger] self.entries@[k]).0@,
                forall|k: int| 0 <= k < i ==> (#[trigger] self@[k]).0 != name@,
                0 <= position_of(self@, name@) <= self@.len(),
                has_key(self@, name@) ==> self@[position_of(self@, name@)].0 == name@,
                forall|k: int|
                    0 <= k < position_of(self@, name@) ==> (#[trigger] self@[k]).0 != name@,
            decreases self.entries@.len() - i,
        {
            if same_text(self.entries[i].0.as_str(), name) {
                assert(self@[i as int].0 == name@);
                return i;
            }
            i = i + 1;
        }
        i
    }

    /// Whether there is an entry called `name`.
    pub fn contains_key(&self, name: &str) -> (found: bool)
        ensures
            found == has_key(self@, name@),
    {
        self.position(name) < self.len()
    }

    /// The value stored under `name`, if there is one.
    pub fn get(&self, name: &str) -> (found: Option<&Tag>)
        ensures
            lookup(self@, name@) is Some <==> found is Some,
            found is Some ==> Some(found->0@) == lookup(self@, name@),
    {
        let at = self.position(name);
        if at < self.entries.len() {
            proof {
                lemma_entry_values(self.entries@);
            }
            Some(&self.entries[at].1)
        } else {
            proof {
                lemma_entry_values(self.entries@);
            }
            None
        }
    }

    /// Stores `tag` under `name`: in the place of the entry of that name, whose
    /// value is handed back, or at the end where there is none.
    pub fn insert(&mut self, name: String, tag: Tag) -> (previous: Option<Tag>)
        ensures
            final(self)@ == insert_entry(old(self)@, name@, tag@),
            match previous {
                Some(value) => Some(value@) == lookup(old(self)@, name@),
                None => !has_key(old(self)@, name@),
            },
    {
        let at = self.position(name.as_str());
        let found = at < self.entries.len();
        let ghost before = self.entries@;
        let ghost name_value = name@;
        let ghost tag_value = tag@;
        proof {
            use_type_invariant(&*self);
            lemma_entry_values(before);
            lemma_position_of(entry_values(before), name@);
        }
        let mut entries: Vec<(String, Tag)> = Vec::new();
        std::mem::swap(&mut self.entries, &mut entries);
        entries.push((name, tag));
        let previous = if found {
            Some(entries.swap_remove(at).1)
        } else {
            None
        };
        proof {
            lemma_entry_values(entries@);
            if at < before.len() {
                assert(entries@ =~= before.update(at as int, (name, tag)));
                assert(entry_values(entries@) =~= entry_values(before).update(
                    at as int,
                    (name_value, tag_value),
                ));
            } else {
                assert(entries@ =~= before.push((name, tag)));
                assert(entry_values(entries@) =~= entry_values(before).push(
                    (name_value, tag_value),
                ));
            }
            assert forall|i: int, j: int| 0 <= i < j < entries@.len() implies (
            #[trigger] entries@[i]).0@ != (#[trigger] entries@[j]).0@ by {
                if at < before.len() {
                    assert(before[i].0@ != before[j].0@);
                    assert(entry_values(before)[at as int].0 == name_value);
                    assert(before[at as int].0@ == name_value);
                } else if j < before.len() {
                    assert(before[i].0@ != before[j].0@);
                } else {
                    assert(entry_values(before)[i].0 != name_value);
                }
            }
        }
        self.entries = entries;
        previous
    }

    /// The name of the entry at `index`.
    pub fn name_at(&self, index: usize) -> (name: &String)
        requires
            index < self@.len(),
        ensures
            name@ == self@[index as int].0,
    {
        proof {
            lemma_entry_values(self.entries@);
        }
        &self.entries[index].0
    }

    /// The value of the entry at `index`.
    pub fn tag_at(&self, index: usize) -> (tag: &Tag)
        requires
            index < self@.len(),
        ensures
            tag@ == self@[index as int].1,
    {
        proof {
            lemma_entry_values(self.entries@);
        }
        &self.entries[index].1
    }
}

impl NamedTag {
    /// The named tag made of `name` and `tag`.
    pub closed spec fn named(name: String, tag: Tag) -> NamedTag {
        NamedTag { name, tag }
    }

    /// The name and the tag.
    pub closed spec fn pair(self) -> (String, Tag) {
        (self.name, self.tag)
    }

    /// A tag under the empty name.
    pub fn new(tag: Tag) -> (named: NamedTag)
        ensures
            named@ == (Seq::<char>::empty(), tag@),
    {
        NamedTag { name: String::new(), tag }
    }

    /// A tag under a name.
    pub fn with_name(name: &str, tag: Tag) -> (named: NamedTag)
        ensures
            named@ == (name@, tag@),
    {
        NamedTag { name: name.to_owned(), tag }
    }

    /// The name.
    pub fn name(&self) -> (name: &str)
        ensures
            name@ == self@.0,
    {
        self.name.as_str()
    }

    /// The tag.
    pub fn tag(&self) -> (tag: &Tag)
        ensures
            tag@ == self@.1,
    {
        &self.tag
    }

    /// The tag, to be changed in place.
    pub fn tag_mut(&mut self) -> (tag: &mut Tag)
        ensures
            tag@ == old(self)@.1,
            final(self)@ == (old(self)@.0, final(tag)@),
    {
        &mut self.tag
    }

    /// Hands out the tag and drops the name.
    pub fn take_tag(self) -> (tag: Tag)
        ensures
            tag@ == self@.1,
    {
        self.tag
    }

    /// The tag under the name.
    pub fn from_pair(name: String, tag: Tag) -> (named: NamedTag)
        ensures
            named == NamedTag::named(name, tag),
            named@ == (name@, tag@),
    {
        NamedTag { name, tag }
    }

    /// Hands out the name and the tag.
    pub fn into_pair(self) -> (pair: (String, Tag))
        ensures
            pair == self.pair(),
            pair.0@ == self@.0,
            pair.1@ == self@.1,
    {
        (self.name, self.tag)
    }

    /// Puts `tag` in the place of the tag.
    pub fn set_tag(&mut self, tag: Tag)
        ensures
            final(self)@ == (old(self)@.0, tag@),
    {
        self.tag = tag;
    }

    /// Puts `name` in the place of the name.
    pub fn set_name(&mut self, name: &str)
        ensures
            final(self)@ == (name@, old(self)@.1),
    {
        self.name = name.to_owned();
    }
}

/// `num_traits::ToPrimitive::to_i8` on a 128-bit integer: the number as an
/// `i8` where it lies from -128 to 127, else nothing.
#[verifier::external_body]
fn to_i8(value: i128) -> (narrow: Option<i8>)
    ensures
        narrow == (if -128 <= value <= 127 {
            Some(value as i8)
        } else {
            None
        }),
{
    num_traits::ToPrimitive::to_i8(&value)
}

/// `num_traits::ToPrimitive::to_i16` on a 128-bit integer: the number as an
/// `i16` where it lies from -32768 to 32767, else nothing.
#[verifier::external_body]
fn to_i16(value: i128) -> (narrow: Option<i16>)
    ensures
        narrow == (if -32768 <= value <= 32767 {
            Some(value as i16)
        } else {
            None
        }),
{
    num_traits::ToPrimitive::to_i16(&value)
}

/// `num_traits::ToPrimitive::to_i32` on a 128-bit integer: the number as an
/// `i32` where it lies from -2147483648 to 2147483647, else nothing.
#[verifier::external_body]
fn to_i32(value: i128) -> (narrow: Option<i32>)
    ensures
        narrow == (if -2147483648 <= value <= 2147483647 {
            Some(value as i32)
        } else {
            None
        }),
{
    num_traits::ToPrimitive::to_i32(&value)
}

/// `num_traits::ToPrimitive::to_i64` on a 128-bit integer: the number as an
/// `i64` where it lies from -9223372036854775808 to 9223372036854775807, else nothing.
#[verifier::external_body]
fn to_i64(value: i128) -> (narrow: Option<i64>)
    ensures
        narrow == (if -9223372036854775808 <= value <= 9223372036854775807 {
            Some(value as i64)
        } else {
            None
        }),
{
    num_traits::ToPrimitive::to_i64(&value)
}

/// A copy of a vector of strings.
fn copy_strings(items: &Vec<String>) -> (copy: Vec<String>)
    ensures
        copy@.len() == items@.len(),
        forall|i: int| 0 <= i < items@.len() ==> (#[trigger] copy@[i])@ == items@[i]@,
{
    let mut copy: Vec<String> = Vec::new();
    let mut i: usize = 0;
    while i < items.len()
        invariant
            i <= items@.len(),
            copy@.len() == i,
            forall|k: int| 0 <= k < i ==> (#[trigger] copy@[k])@ == items@[k]@,
        decreases items@.len() - i,
    {
        copy.push(items[i].clone());
        i = i + 1;
    }
    copy
}

/// A copy of a vector of arrays.
fn copy_byte_arrays(items: &Vec<Vec<i8>>) -> (copy: Vec<Vec<i8>>)
    ensures
        copy@.len() == items@.len(),
        forall|i: int| 0 <= i < items@.len() ==> (#[trigger] copy@[i])@ == items@[i]@,
{
    let mut copy: Vec<Vec<i8>> = Vec::new();
    let mut i: usize = 0;
    while i < items.len()
        invariant
            i <= items@.len(),
            copy@.len() == i,
            forall|k: int| 0 <= k < i ==> (#[trigger] copy@[k])@ == items@[k]@,
        decreases items@.len() - i,
    {
        copy.push(slice_to_vec(items[i].as_slice()));
        i = i + 1;
    }
    copy
}

/// A copy of a vector of arrays.
fn copy_int_arrays(items: &Vec<Vec<i32>>) -> (copy: Vec<Vec<i32>>)
    ensures
        copy@.len() == items@.len(),
        forall|i: int| 0 <= i < items@.len() ==> (#[trigger] copy@[i])@ == items@[i]@,
{
    let mut copy: Vec<Vec<i32>> = Vec::new();
    let mut i: usize = 0;
    while i < items.len()
        invariant
            i <= items@.len(),
            copy@.len() == i,
            forall|k: int| 0 <= k < i ==> (#[trigger] copy@[k])@ == items@[k]@,
        decreases items@.len() - i,
    {
        copy.push(slice_to_vec(items[i].as_slice()));
        i = i + 1;
    }
    copy
}

/// A copy of a vector of arrays.
fn copy_long_arrays(items: &Vec<Vec<i64>>) -> (copy: Vec<Vec<i64>>)
    ensures
        copy@.len() == items@.len(),
        forall|i: int| 0 <= i < items@.len() ==> (#[trigger] copy@[i])@ == items@[i]@,
{
    let mut copy: Vec<Vec<i64>> = Vec::new();
    let mut i: usize = 0;
    while i < items.len()
        invariant
            i <= items@.len(),
            copy@.len() == i,
            forall|k: int| 0 <= k < i ==> (#[trigger] copy@[k])@ == items@[k]@,
        decreases items@.len() - i,
    {
        copy.push(slice_to_vec(items[i].as_slice()));
        i = i + 1;
    }
    copy
}

impl Tag {
    /// A byte from any integer; 0 where the integer does not fit a byte.
    pub fn byte(value: i128) -> (tag: Tag)
        ensures
            tag@ == TagValue::Byte(
                if -128 <= value <= 127 {
                    value as i8
                } else {
                    0
                },
            ),
    {
        match to_i8(value) {
            Some(value) => Tag::Byte(value),
            None => Tag::Byte(0),
        }
    }

    /// A short from any integer; 0 where the integer does not fit a short.
    pub fn short(value: i128) -> (tag: Tag)
        ensures
            tag@ == TagValue::Short(
                if -32768 <= value <= 32767 {
                    value as i16
                } else {
                    0
                },
            ),
    {
        match to_i16(value) {
            Some(value) => Tag::Short(value),
            None => Tag::Short(0),
        }
    }

    /// An int from any integer; 0 where the integer does not fit an int.
    pub fn integer(value: i128) -> (tag: Tag)
        ensures
            tag@ == TagValue::Int(
                if -2147483648 <= value <= 2147483647 {
                    value as i32
                } else {
                    0
                },
            ),
    {
        match to_i32(value) {
            Some(value) => Tag::Int(value),
            None => Tag::Int(0),
        }
    }

    /// A long from any integer; 0 where the integer does not fit a long.
    pub fn long(value: i128) -> (tag: Tag)
        ensures
            tag@ == TagValue::Long(
                if -9223372036854775808 <= value <= 9223372036854775807 {
                    value as i64
                } else {
                    0
                },
            ),
    {
        match to_i64(value) {
            Some(value) => Tag::Long(value),
            None => Tag::Long(0),
        }
    }

    /// An array of the bytes of `items`.
    pub fn bytearray(items: &[i8]) -> (tag: Tag)
        ensures
            tag@ == TagValue::ByteArray(items@),
    {
        Tag::ByteArray(slice_to_vec(items))
    }

    /// An array of bytes with the bits of the unsigned bytes of `items`.
    pub fn bytes(items: &[u8]) -> (tag: Tag)
        ensures
            tag@ == TagValue::ByteArray(
                Seq::new(
                    items@.len(),
                    |i: int|
                        if items@[i] < 128 {
                            items@[i] as i8
                        } else {
                            (items@[i] - 256) as i8
                        },
                ),
            ),
    {
        let mut signed: Vec<i8> = Vec::new();
        let mut i: usize = 0;
        while i < items.len()
            invariant
                i <= items@.len(),
                signed@.len() == i,
                forall|k: int|
                    0 <= k < i ==> #[trigger] signed@[k] == (if items@[k] < 128 {
                        items@[k] as i8
                    } else {
                        (items@[k] - 256) as i8
                    }),
            decreases items@.len() - i,
        {
            let byte = items[i];
            if byte < 128 {
                signed.push(byte as i8);
            } else {
                signed.push((byte as i16 - 256) as i8);
            }
            i = i + 1;
        }
        assert(signed@ =~= Seq::new(
            items@.len(),
            |i: int|
                if items@[i] < 128 {
                    items@[i] as i8
                } else {
                    (items@[i] - 256) as i8
                },
        ));
        Tag::ByteArray(signed)
    }

    /// An array of the ints of `items`.
    pub fn intarray(items: &[i32]) -> (tag: Tag)
        ensures
            tag@ == TagValue::IntArray(items@),
    {
        Tag::IntArray(slice_to_vec(items))
    }

    /// An array of the longs of `items`.
    pub fn longarray(items: &[i64]) -> (tag: Tag)
        ensures
            tag@ == TagValue::LongArray(items@),
    {
        Tag::LongArray(slice_to_vec(items))
    }

    /// A string with the text `value`.
    pub fn string(value: &str) -> (tag: Tag)
        ensures
            tag@ == TagValue::String(value@),
    {
        Tag::String(value.to_owned())
    }

    /// A list.
    pub fn list(items: ListTag) -> (tag: Tag)
        ensures
            tag@ == TagValue::List(items@),
    {
        Tag::List(items)
    }

    /// The dictionary that holds `items`, stored one after the other: of two
    /// items of one name the later takes the place of the earlier.
    pub fn compound(items: Vec<(String, Tag)>) -> (tag: Tag)
        ensures
            tag@ == TagValue::Compound(insert_all(Seq::empty(), entry_values(items@))),
    {
        let mut map = Compound::new();
        let mut items = items;
        let ghost all = entry_values(items@);
        let ghost total = items@.len();
        proof {
            lemma_entry_values(items@);
        }
        // The items are taken from the end, so they are turned round first.
        let mut turned: Vec<(String, Tag)> = Vec::new();
        while items.len() > 0
            invariant
                turned@.len() + items@.len() == total,
                all.len() == total,
                forall|k: int|
                    0 <= k < items@.len() ==> all[k] == ((#[trigger] items@[k]).0@, items@[k].1@),
                forall|k: int|
                    0 <= k < turned@.len() ==> all[total - 1 - k] == (
                        (#[trigger] turned@[k]).0@,
                        turned@[k].1@,
                    ),
            decreases items@.len(),
        {
            match items.pop() {
                Some(item) => turned.push(item),
                None => {},
            }
        }
        proof {
            assert(all.take(0) =~= Seq::empty());
        }
        while turned.len() > 0
            invariant
                turned@.len() <= total == all.len(),
                forall|k: int|
                    0 <= k < turned@.len() ==> all[total - 1 - k] == (
                        (#[trigger] turned@[k]).0@,
                        turned@[k].1@,
                    ),
                map@ == insert_all(Seq::empty(), all.take(total - turned@.len())),
            decreases turned@.len(),
        {
            let ghost at = total - turned@.len();
            match turned.pop() {
                Some((name, tag)) => {
                    proof {
                        assert(all.take(at + 1).drop_last() =~= all.take(at));
                        assert(all.take(at + 1).last() == all[at]);
                    }
                    map.insert(name, tag);
                },
                None => {},
            }
        }
        proof {
            assert(all.take(total as int) =~= all);
        }
        Tag::Compound(map)
    }

    /// 1 as a byte for `true`, 0 for `false`.
    pub fn from_bool(on: bool) -> (tag: Tag)
        ensures
            tag@ == TagValue::Byte(
                if on {
                    1
                } else {
                    0
                },
            ),
    {
        Tag::Byte(
            if on {
                1
            } else {
                0
            },
        )
    }

    /// Whether a number is not zero: `false` for zero, `true` for any other
    /// number. A float or a double is zero where all its bits but the sign
    /// are 0. Fails for a tag that is no number.
    pub fn to_bool(&self) -> (r: Result<bool, ()>)
        ensures
            r == truth(self@),
    {
        match self {
            Tag::Byte(inner) => Ok(*inner != 0),
            Tag::Short(inner) => Ok(*inner != 0),
            Tag::Int(inner) => Ok(*inner != 0),
            Tag::Long(inner) => Ok(*inner != 0),
            Tag::Float(bits) => Ok(*bits != 0 && *bits != 0x8000_0000),
            Tag::Double(bits) => Ok(*bits != 0 && *bits != 0x8000_0000_0000_0000),
            _ => Err(()),
        }
    }
}

/// Whether the number of a tag is not zero; an error for a tag that is no
/// number.
pub open spec fn truth(tag: TagValue) -> Result<bool, ()> {
    match tag {
        TagValue::Byte(v) => Ok(v != 0),
        TagValue::Short(v) => Ok(v != 0),
        TagValue::Int(v) => Ok(v != 0),
        TagValue::Long(v) => Ok(v != 0),
        TagValue::Float(bits) => Ok(bits != 0 && bits != 0x8000_0000),
        TagValue::Double(bits) => Ok(bits != 0 && bits != 0x8000_0000_0000_0000),
        _ => Err(()),
    }
}

/// `seen` after each of `entries` is stored in it, one after the other.
pub open spec fn insert_all(seen: Entries, entries: Entries) -> Entries
    decreases entries.len(),
{
    if entries.len() == 0 {
        seen
    } else {
        insert_entry(
            insert_all(seen, entries.drop_last()),
            entries.last().0,
            entries.last().1,
        )
    }
}

impl Clone for Tag {
    /// A copy of the whole tree.
    fn clone(&self) -> (copy: Tag)
        ensures
            copy@ == self@,
    {
        copy_tag(self)
    }
}

impl Clone for ListTag {
    /// A copy of the list and of all its items.
    fn clone(&self) -> (copy: ListTag)
        ensures
            copy@ == self@,
    {
        copy_list(self)
    }
}

impl Clone for Compound {
    /// A copy of the dictionary and of all its values.
    fn clone(&self) -> (copy: Compound)
        ensures
            copy@ == self@,
    {
        copy_compound(self)
    }
}

impl Clone for NamedTag {
    /// A copy of the name and of the tag.
    fn clone(&self) -> (copy: NamedTag)
        ensures
            copy@ == self@,
    {
        NamedTag { name: self.name.clone(), tag: copy_tag(&self.tag) }
    }
}

/// A copy of a tag.
fn copy_tag(tag: &Tag) -> (copy: Tag)
    ensures
        copy@ == tag@,
    decreases tag@,
{
    match tag {
        Tag::Byte(v) => Tag::Byte(*v),
        Tag::Short(v) => Tag::Short(*v),
        Tag::Int(v) => Tag::Int(*v),
        Tag::Long(v) => Tag::Long(*v),
        Tag::Float(v) => Tag::Float(*v),
        Tag::Double(v) => Tag::Double(*v),
        Tag::ByteArray(v) => Tag::ByteArray(slice_to_vec(v.as_slice())),
        Tag::String(v) => Tag::String(v.clone()),
        Tag::List(v) => {
            assert(decreases_to!(tag@ => tag@->List_0));
            Tag::List(copy_list(v))
        },
        Tag::Compound(v) => {
            assert(decreases_to!(tag@ => tag@->Compound_0));
            Tag::Compound(copy_compound(v))
        },
        Tag::IntArray(v) => Tag::IntArray(slice_to_vec(v.as_slice())),
        Tag::LongArray(v) => Tag::LongArray(slice_to_vec(v.as_slice())),
    }
}

/// A copy of a list.
fn copy_list(list: &ListTag) -> (copy: ListTag)
    ensures
        copy@ == list@,
    decreases list@,
{
    match list {
        ListTag::Empty => ListTag::Empty,
        ListTag::Byte(v) => ListTag::Byte(slice_to_vec(v.as_slice())),
        ListTag::Short(v) => ListTag::Short(slice_to_vec(v.as_slice())),
        ListTag::Int(v) => ListTag::Int(slice_to_vec(v.as_slice())),
        ListTag::Long(v) => ListTag::Long(slice_to_vec(v.as_slice())),
        ListTag::Float(v) => ListTag::Float(slice_to_vec(v.as_slice())),
        ListTag::Double(v) => ListTag::Double(slice_to_vec(v.as_slice())),
        ListTag::ByteArray(v) => {
            let copy = ListTag::ByteArray(copy_byte_arrays(v));
            assert(copy@->ByteArray_0 =~= list@->ByteArray_0);
            copy
        },
        ListTag::String(v) => {
            let copy = ListTag::String(copy_strings(v));
            assert(copy@->String_0 =~= list@->String_0);
            copy
        },
        ListTag::List(v) => {
            let mut copy: Vec<ListTag> = Vec::new();
            let mut i: usize = 0;
            proof {
                lemma_list_values(v@);
            }
            while i < v.len()
                invariant
                    i <= v@.len() == list_values(v@).len(),
                    list@ == ListValue::List(list_values(v@)),
                    forall|k: int| 0 <= k < v@.len() ==> list_values(v@)[k] == (#[trigger] v@[k])@,
                    copy@.len() == i,
                    forall|k: int| 0 <= k < i ==> (#[trigger] copy@[k])@ == v@[k]@,
                decreases v@.len() - i,
            {
                proof {
                    assert(list_values(v@)[i as int] == v@[i as int]@);
                    assert(decreases_to!(list@ => list@->List_0));
                    assert(decreases_to!(list_values(v@) => list_values(v@)[i as int]));
                }
                copy.push(copy_list(&v[i]));
                i = i + 1;
            }
            proof {
                lemma_list_values(copy@);
                assert(list_values(copy@) =~= list_values(v@));
            }
            ListTag::List(copy)
        },
        ListTag::Compound(v) => {
            let mut copy: Vec<Compound> = Vec::new();
            let mut i: usize = 0;
            proof {
                lemma_compound_values(v@);
            }
            while i < v.len()
                invariant
                    i <= v@.len() == compound_values(v@).len(),
                    list@ == ListValue::Compound(compound_values(v@)),
                    forall|k: int| 0 <= k < v@.len() ==> compound_values(v@)[k]
                        == (#[trigger] v@[k])@,
                    copy@.len() == i,
                    forall|k: int| 0 <= k < i ==> (#[trigger] copy@[k])@ == v@[k]@,
                decreases v@.len() - i,
            {
                proof {
                    assert(compound_values(v@)[i as int] == v@[i as int]@);
                    assert(decreases_to!(list@ => list@->Compound_0));
                    assert(decreases_to!(compound_values(v@) => compound_values(v@)[i as int]));
                }
                copy.push(copy_compound(&v[i]));
                i = i + 1;
            }
            proof {
                lemma_compound_values(copy@);
                assert(compound_values(copy@) =~= compound_values(v@));
            }
            ListTag::Compound(copy)
        },
        ListTag::IntArray(v) => {
            let copy = ListTag::IntArray(copy_int_arrays(v));
            assert(copy@->IntArray_0 =~= list@->IntArray_0);
            copy
        },
        ListTag::LongArray(v) => {
            let copy = ListTag::LongArray(copy_long_arrays(v));
            assert(copy@->LongArray_0 =~= list@->LongArray_0);
            copy
        },
    }
}

/// A copy of a dictionary.
fn copy_compound(map: &Compound) -> (copy: Compound)
    ensures
        copy@ == map@,
    decreases map@,
{
    let mut entries: Vec<(String, Tag)> = Vec::new();
    let mut i: usize = 0;
    proof {
        use_type_invariant(map);
        lemma_entry_values(map.entries@);
    }
    while i < map.entries.len()
        invariant
            i <= map.entries@.len(),
            map@ == entry_values(map.entries@),
            map@.len() == map.entries@.len(),
            forall|k: int|
                0 <= k < map.entries@.len() ==> map@[k] == (
                    (#[trigger] map.entries@[k]).0@,
                    map.entries@[k].1@,
                ),
            entries@.len() == i,
            forall|k: int|
                0 <= k < i ==> (#[trigger] entries@[k]).0@ == map.entries@[k].0@ && entries@[k].1@
                    == map.entries@[k].1@,
        decreases map.entries@.len() - i,
    {
        proof {
            assert(map@[i as int].1 == map.entries@[i as int].1@);
            assert(decreases_to!(map@ => map@[i as int]));
            assert(decreases_to!(map@[i as int] => map@[i as int].1));
        }
        let name = map.entries[i].0.clone();
        let tag = copy_tag(&map.entries[i].1);
        entries.push((name, tag));
        i = i + 1;
    }
    proof {
        lemma_entry_values(entries@);
        assert(entry_values(entries@) =~= map@);
        assert forall|i: int, j: int| 0 <= i < j < entries@.len() implies (
        #[trigger] entries@[i]).0@ != (#[trigger] entries@[j]).0@ by {
            assert(map.entries@[i].0@ != map.entries@[j].0@);
        }
    }
    Compound { entries }
}

} // verus!
