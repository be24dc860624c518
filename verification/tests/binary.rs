use rustnbt::io::{
    read_named_tag, read_named_tag_within, write_named_tag, NbtRead, NbtSize, NbtWrite,
};
use rustnbt::tag::{Compound, ListTag, NamedTag, Tag, TagID};
use rustnbt::NbtError;

fn test_tag() -> Tag {
    let byte = Tag::Byte(i8::MAX);
    let short = Tag::Short(i16::MAX);
    let int = Tag::Int(69420);
    let long = Tag::Long(i64::MAX);
    let float = Tag::Float(3.14_f32.to_bits());
    let double = Tag::Double(3.14159265358979_f64.to_bits());
    let bytearray = Tag::ByteArray(vec![1, 2, 3, 4]);
    let string = Tag::String(String::from("The quick brown fox jumps over the lazy dog🎈🎄"));
    let list = Tag::List(ListTag::Int(vec![1i32, 2, 3, 4]));
    let intarray = Tag::IntArray(vec![1, 1, 2, 3, 5, 8, 13, 21, 34, 55, 89, 144]);
    let longarray = Tag::LongArray(vec![
        1, 3, 3, 7, 1337, 13, 37, 1, 3, 37, 1, 337, 133, 7, 1, 33, 7, 13, 3, 7,
    ]);
    let mut compound = Compound::new();
    compound.insert("Byte".to_owned(), byte);
    compound.insert("Short".to_owned(), short);
    compound.insert("Int".to_owned(), int);
    compound.insert("Long".to_owned(), long);
    compound.insert("Float".to_owned(), float);
    compound.insert("Double".to_owned(), double);
    compound.insert("ByteArray".to_owned(), bytearray);
    compound.insert("String".to_owned(), string);
    compound.insert("List".to_owned(), list);
    compound.insert("Empty List".to_owned(), Tag::List(ListTag::Empty));
    compound.insert("IntArray".to_owned(), intarray);
    compound.insert("LongArray".to_owned(), longarray);
    let mapclone = compound.clone();
    compound.insert("Compound".to_owned(), Tag::Compound(mapclone));
    Tag::Compound(compound)
}

#[test]
fn write_test() {
    let tag = test_tag();
    let named = NamedTag::with_name("The quick brown fox jumps over the lazy dog.", tag);
    assert!(named.is_encodable());
    let mut writer: Vec<u8> = Vec::new();
    println!("Size: {}", named.nbt_size());
    let size = named.nbt_write(&mut writer);
    println!("Written: {}", size);
    assert_eq!(size, named.nbt_size());
    assert_eq!(size, writer.len());
}

#[test]
fn read_test() {
    let mut file: Vec<u8> = Vec::new();
    NamedTag::with_name("root", test_tag()).nbt_write(&mut file);
    let (named, end) = NamedTag::nbt_read(&file, 0).unwrap();
    println!("Tag: {:#?}", named);
    assert_eq!(end, file.len());
    assert_eq!(named.name(), "root");
    assert_eq!(named.tag(), &test_tag());
}

#[test]
fn size_test() {
    let id_size = std::mem::size_of::<TagID>();
    let opt_size = std::mem::size_of::<Option<TagID>>();
    println!("     Id: {id_size}\n    Option1:{opt_size}");
    assert_eq!(id_size, 1);
    assert_eq!(opt_size, 1);
}

#[test]
fn u8_test() {
    let value = 200u8;
    let signed: i8 = value as i8;
    println!("  Signed: {signed}");
    println!("Reversed: {}", signed as u8);
    let mut bytes = Vec::new();
    vec![signed].nbt_write(&mut bytes);
    assert_eq!(bytes, vec![0, 0, 0, 1, 200]);
    let (back, _) = Vec::<i8>::nbt_read(&bytes, 0).unwrap();
    assert_eq!(back, vec![-56i8]);
}

#[test]
fn round_trip_of_a_nested_tree() {
    let tag = test_tag();
    let mut bytes = Vec::new();
    let written = write_named_tag(&mut bytes, &tag, "name");
    assert_eq!(written, bytes.len());
    let ((name, back), end) = read_named_tag(&bytes, 0).unwrap();
    assert_eq!(name, "name");
    assert_eq!(back, tag);
    assert_eq!(end, bytes.len());
}

#[test]
fn empty_compound_is_one_byte() {
    let mut bytes = Vec::new();
    assert_eq!(Compound::new().nbt_write(&mut bytes), 1);
    assert_eq!(bytes, vec![0u8]);
    assert_eq!(Compound::new().nbt_size(), 1);
    let (map, end) = Compound::nbt_read(&[0u8, 7, 7], 0).unwrap();
    assert!(map.is_empty());
    assert_eq!(end, 1);
}

#[test]
fn empty_list_is_five_zero_bytes() {
    let mut bytes = Vec::new();
    assert_eq!(ListTag::Empty.nbt_write(&mut bytes), 5);
    assert_eq!(bytes, vec![0u8; 5]);
    assert_eq!(ListTag::Empty.nbt_size(), 5);
    let (list, end) = ListTag::nbt_read(&bytes, 0).unwrap();
    assert_eq!(list, ListTag::Empty);
    assert_eq!(end, 5);
    let (list, _) = ListTag::nbt_read(&[0u8, 0, 0, 0, 9], 0).unwrap();
    assert_eq!(list, ListTag::Empty);
}

#[test]
fn string_boundaries() {
    let mut bytes = Vec::new();
    assert_eq!(String::new().nbt_write(&mut bytes), 2);
    assert_eq!(bytes, vec![0u8, 0]);
    assert_eq!(String::nbt_read(&bytes, 0).unwrap(), (String::new(), 2));
    let long = "a".repeat(65535);
    let mut bytes = Vec::new();
    assert_eq!(long.nbt_write(&mut bytes), 65537);
    assert_eq!(&bytes[..2], &[0xFFu8, 0xFF]);
    assert_eq!(long.nbt_size(), 65537);
    let (back, end) = String::nbt_read(&bytes, 0).unwrap();
    assert_eq!(back, long);
    assert_eq!(end, 65537);
}

#[test]
fn exact_bytes_of_primitives() {
    let mut bytes = Vec::new();
    (-2i8).nbt_write(&mut bytes);
    0x1234i16.nbt_write(&mut bytes);
    (-1i32).nbt_write(&mut bytes);
    0x0102030405060708i64.nbt_write(&mut bytes);
    1.0f32.to_bits().nbt_write(&mut bytes);
    assert_eq!(
        bytes,
        vec![
            0xFE, 0x12, 0x34, 0xFF, 0xFF, 0xFF, 0xFF, 1, 2, 3, 4, 5, 6, 7, 8, 0x3F, 0x80, 0, 0
        ]
    );
    assert_eq!(i16::nbt_read(&bytes, 1).unwrap(), (0x1234, 3));
    assert_eq!(i32::nbt_read(&bytes, 3).unwrap(), (-1, 7));
    assert_eq!(i64::nbt_read(&bytes, 7).unwrap(), (0x0102030405060708, 15));
    assert_eq!(i64::nbt_read(&bytes, 12), Err(NbtError::IoError));
    assert_eq!(i64::MIN.nbt_size(), 8);
}

#[test]
fn exact_bytes_of_a_named_tag() {
    let mut map = Compound::new();
    map.insert("a".to_owned(), Tag::Short(258));
    map.insert("b".to_owned(), Tag::List(ListTag::Byte(vec![-1, 2])));
    let mut bytes = Vec::new();
    let written = write_named_tag(&mut bytes, &Tag::Compound(map), "r");
    let expected: Vec<u8> = vec![
        10, 0, 1, b'r', // compound named r
        2, 0, 1, b'a', 1, 2, // short a
        9, 0, 1, b'b', 1, 0, 0, 0, 2, 0xFF, 2, // list b of two bytes
        0, // end
    ];
    assert_eq!(bytes, expected);
    assert_eq!(written, 22);
    let named = NamedTag::nbt_read(&bytes, 0).unwrap().0;
    assert_eq!(named.nbt_size(), 22);
}

#[test]
fn errors_of_reading() {
    assert_eq!(read_named_tag(&[], 0), Err(NbtError::IoError));
    assert_eq!(read_named_tag(&[0], 0), Err(NbtError::End));
    assert_eq!(
        read_named_tag(&[13, 0, 0], 0),
        Err(NbtError::Unsupported { id_encountered: 13 })
    );
    assert_eq!(read_named_tag(&[1, 0, 0], 0), Err(NbtError::IoError));
    assert_eq!(read_named_tag(&[8, 0, 0, 0, 1, 0xFF], 0), Err(NbtError::FromUtf8Error));
    assert_eq!(read_named_tag(&[8, 0, 0, 0, 2, b'a'], 0), Err(NbtError::IoError));
    // In a dictionary the name is read before the kind byte is refused.
    assert_eq!(Compound::nbt_read(&[200], 0), Err(NbtError::IoError));
    assert_eq!(
        Compound::nbt_read(&[200, 0, 0], 0),
        Err(NbtError::Unsupported { id_encountered: 200 })
    );
    assert_eq!(
        ListTag::nbt_read(&[99, 0, 0, 0, 0], 0),
        Err(NbtError::Unsupported { id_encountered: 99 })
    );
    assert_eq!(ListTag::nbt_read(&[3, 0, 0, 0, 2, 0, 0, 0, 1], 0), Err(NbtError::IoError));
    assert_eq!(ListTag::nbt_read(&[0, 0, 0], 0), Err(NbtError::IoError));
}

#[test]
fn a_name_read_twice_keeps_the_later_value() {
    let bytes = [1u8, 0, 1, b'k', 5, 1, 0, 1, b'k', 7, 0];
    let (map, end) = Compound::nbt_read(&bytes, 0).unwrap();
    assert_eq!(end, bytes.len());
    assert_eq!(map.len(), 1);
    assert_eq!(map.get("k"), Some(&Tag::Byte(7)));
}

#[test]
fn what_the_format_cannot_hold() {
    assert!(Tag::String("a".repeat(65535)).is_encodable());
    assert!(!Tag::String("a".repeat(65536)).is_encodable());
    assert!(!Tag::String("é".repeat(32768)).is_encodable());
    let mut map = Compound::new();
    map.insert("k".repeat(65536), Tag::Byte(0));
    assert!(!map.is_encodable());
    assert!(!Tag::List(ListTag::Compound(vec![map])).is_encodable());
    assert!(!NamedTag::with_name(&"n".repeat(70000), Tag::Byte(0)).is_encodable());
    assert!(ListTag::List(vec![ListTag::Empty, ListTag::String(vec![String::new()])])
        .is_encodable());
    assert!(!ListTag::String(vec!["a".repeat(65536)]).is_encodable());
    assert!(vec![1i64, 2].is_encodable());
}

#[test]
fn sizes_by_their_formulas() {
    assert_eq!(Tag::Byte(1).nbt_size(), 1);
    assert_eq!(Tag::Short(1).nbt_size(), 2);
    assert_eq!(Tag::Int(1).nbt_size(), 4);
    assert_eq!(Tag::Long(1).nbt_size(), 8);
    assert_eq!(Tag::Float(0).nbt_size(), 4);
    assert_eq!(Tag::Double(0).nbt_size(), 8);
    assert_eq!(Tag::String("héllo".to_owned()).nbt_size(), 2 + 6);
    assert_eq!(Tag::ByteArray(vec![0; 7]).nbt_size(), 4 + 7);
    assert_eq!(Tag::IntArray(vec![0; 7]).nbt_size(), 4 + 7 * 4);
    assert_eq!(Tag::LongArray(vec![0; 7]).nbt_size(), 4 + 7 * 8);
    assert_eq!(ListTag::Short(vec![0; 3]).nbt_size(), 5 + 3 * 2);
    assert_eq!(ListTag::Double(vec![0; 3]).nbt_size(), 5 + 3 * 8);
    assert_eq!(ListTag::String(vec!["ab".to_owned(), String::new()]).nbt_size(), 5 + 4 + 2);
    assert_eq!(ListTag::ByteArray(vec![vec![1, 2], vec![]]).nbt_size(), 5 + 6 + 4);
    assert_eq!(ListTag::List(vec![ListTag::Empty, ListTag::Byte(vec![1])]).nbt_size(), 5 + 5 + 6);
    let mut map = Compound::new();
    map.insert("ab".to_owned(), Tag::Int(1));
    map.insert("c".to_owned(), Tag::Byte(1));
    assert_eq!(map.nbt_size(), (1 + 4 + 4) + (1 + 3 + 1) + 1);
    assert_eq!(ListTag::Compound(vec![map.clone(), Compound::new()]).nbt_size(), 5 + 15 + 1);
    let named = NamedTag::with_name("xyz", Tag::Compound(map));
    assert_eq!(named.nbt_size(), 1 + 5 + 15);
    let mut bytes = Vec::new();
    assert_eq!(named.nbt_write(&mut bytes), 21);
    assert_eq!(bytes.len(), 21);
}

fn nested_lists(depth: usize) -> ListTag {
    let mut list = ListTag::Byte(vec![1]);
    for _ in 1..depth {
        list = ListTag::List(vec![list]);
    }
    list
}

fn nested_compounds(depth: usize) -> Compound {
    let mut map = Compound::new();
    for _ in 1..depth {
        let mut outer = Compound::new();
        outer.insert("in".to_owned(), Tag::Compound(map));
        map = outer;
    }
    map
}

#[test]
fn readers_stop_at_their_limit() {
    let list = nested_lists(3);
    let mut bytes = Vec::new();
    list.nbt_write(&mut bytes);
    assert_eq!(ListTag::nbt_read_within(&bytes, 0, 3), Ok((list.clone(), bytes.len())));
    assert_eq!(ListTag::nbt_read_within(&bytes, 0, 2), Err(NbtError::TooDeep));
    assert_eq!(ListTag::nbt_read_within(&bytes, 0, 0), Err(NbtError::TooDeep));
    assert_eq!(ListTag::nbt_read_within(&[], 0, 0), Err(NbtError::IoError));
    assert_eq!(ListTag::nbt_read(&bytes, 0), Ok((list.clone(), bytes.len())));
    assert_eq!(
        Tag::nbt_read_within(TagID::List, &bytes, 0, 3),
        Ok((Tag::List(list), bytes.len()))
    );
    assert_eq!(Tag::nbt_read_within(TagID::Int, &[0, 0, 0, 5], 0, 0), Ok((Tag::Int(5), 4)));

    let map = nested_compounds(4);
    let mut bytes = Vec::new();
    map.nbt_write(&mut bytes);
    assert_eq!(Compound::nbt_read_within(&bytes, 0, 4), Ok((map.clone(), bytes.len())));
    assert_eq!(Compound::nbt_read_within(&bytes, 0, 3), Err(NbtError::TooDeep));
    assert_eq!(Compound::nbt_read(&bytes, 0), Ok((map.clone(), bytes.len())));

    let mixed = Tag::List(ListTag::Compound(vec![map.clone()]));
    let named = NamedTag::with_name("deep", mixed);
    let mut bytes = Vec::new();
    named.nbt_write(&mut bytes);
    assert_eq!(NamedTag::nbt_read_within(&bytes, 0, 5), Ok((named.clone(), bytes.len())));
    assert_eq!(NamedTag::nbt_read_within(&bytes, 0, 4), Err(NbtError::TooDeep));
    assert_eq!(read_named_tag_within(&bytes, 0, 4), Err(NbtError::TooDeep));
    assert_eq!(NamedTag::nbt_read(&bytes, 0), Ok((named, bytes.len())));
}

#[test]
fn a_deep_tree_is_read_back_without_a_limit() {
    let list = nested_lists(200);
    let mut bytes = Vec::new();
    list.nbt_write(&mut bytes);
    assert_eq!(ListTag::nbt_read(&bytes, 0), Ok((list, bytes.len())));
    assert_eq!(ListTag::nbt_read_within(&bytes, 0, 199), Err(NbtError::TooDeep));
}

#[test]
fn every_kind_of_list_is_read_back() {
    let mut map = Compound::new();
    map.insert("k".to_owned(), Tag::Double(f64::MIN_POSITIVE.to_bits()));
    let lists = vec![
        ListTag::Empty,
        ListTag::Byte(vec![i8::MIN, -1, 0, i8::MAX]),
        ListTag::Byte(vec![]),
        ListTag::Short(vec![i16::MIN, i16::MAX]),
        ListTag::Int(vec![i32::MIN, i32::MAX]),
        ListTag::Long(vec![i64::MIN, i64::MAX]),
        ListTag::Float(vec![f32::NAN.to_bits(), (-0.0f32).to_bits(), u32::MAX]),
        ListTag::Double(vec![f64::INFINITY.to_bits(), 1.5f64.to_bits()]),
        ListTag::ByteArray(vec![vec![], vec![-3, 3]]),
        ListTag::String(vec![String::new(), "ünï".to_owned()]),
        ListTag::List(vec![ListTag::Empty, ListTag::Long(vec![5])]),
        ListTag::Compound(vec![Compound::new(), map]),
        ListTag::IntArray(vec![vec![1, -1], vec![]]),
        ListTag::LongArray(vec![vec![i64::MIN]]),
    ];
    for list in lists {
        assert!(list.is_encodable());
        let mut bytes = vec![0xAAu8];
        let written = list.nbt_write(&mut bytes);
        assert_eq!(written, list.nbt_size());
        assert_eq!(bytes.len(), written + 1);
        bytes.push(0x55);
        assert_eq!(ListTag::nbt_read(&bytes, 1), Ok((list.clone(), written + 1)));
        let tag = Tag::List(list);
        assert_eq!(Tag::nbt_read(TagID::List, &bytes, 1), Ok((tag.clone(), written + 1)));
        assert_eq!(tag.nbt_size(), written);
    }
}

#[test]
fn tag_id_numbers() {
    assert_eq!(TagID::List.to_string(), "List");
    assert_eq!(TagID::try_from(1u8), Ok(TagID::Byte));
    assert_eq!(TagID::try_from(12u8), Ok(TagID::LongArray));
    assert_eq!(TagID::try_from(0u8), Err(NbtError::End));
    assert_eq!(TagID::try_from(13u8), Err(NbtError::Unsupported { id_encountered: 13 }));
    assert_eq!(TagID::Compound.value(), 10);
    assert_eq!(TagID::Compound.title(), "Compound");
    assert_eq!(TagID::IntArray.name(), "TAG_IntArray");
    assert_eq!(Tag::Long(3).name(), "TAG_Long");
    assert_eq!(Tag::Long(3).title(), "Long");
    assert_eq!(ListTag::Empty.id(), TagID::Byte);
    assert_eq!(ListTag::String(vec!["a".to_owned()]).len(), 1);
}
