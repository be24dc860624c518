use rustnbt::convert::{DecodeNbt, EncodeNbt, NbtType};
use rustnbt::tag::{Compound, ListTag, NamedTag, Tag, TagID};

#[test]
fn value_tests() {
    let named: (String, Tag) = NamedTag::with_name("test", Tag::Byte(13)).into();
    assert_eq!(named.0, "test");
    assert!(matches!(named.1, Tag::Byte(13)));
    let byte = Tag::Byte(i8::MAX);
    assert!(matches!(byte, Tag::Byte(i8::MAX)));
    let short = Tag::Short(i16::MAX);
    assert!(matches!(short, Tag::Short(i16::MAX)));
    let int = Tag::Int(69420);
    assert!(matches!(int, Tag::Int(69420)));
    let long = Tag::Long(i64::MAX);
    assert!(matches!(long, Tag::Long(i64::MAX)));
    let float = Tag::Float(3.14_f32.to_bits());
    let double = Tag::Double(3.14159265358979_f64.to_bits());
    let bytearray = Tag::ByteArray(vec![1, 2, 3, 4]);
    let list = Tag::List(ListTag::Empty);
    let intarray = Tag::IntArray(vec![1, 1, 2, 3, 5, 8, 13, 21, 34, 55, 89, 144]);
    let longarray = Tag::LongArray(vec![
        1, 3, 3, 7, 1337, 13, 37, 1, 3, 37, 1, 337, 133, 7, 1, 33, 7, 13, 3, 7,
    ]);
    let compound = Tag::compound(vec![
        ("Byte".to_owned(), byte.clone()),
        ("Short".to_owned(), short.clone()),
        ("Pi".to_owned(), double.clone()),
    ]);
    assert_eq!(float.id(), TagID::Float);
    assert_eq!(bytearray.id(), TagID::ByteArray);
    assert_eq!(list.id(), TagID::List);
    assert_eq!(intarray.id(), TagID::IntArray);
    assert_eq!(longarray.id(), TagID::LongArray);
    match compound {
        Tag::Compound(map) => {
            assert_eq!(map.len(), 3);
            assert_eq!(map.get("Pi"), Some(&double));
            assert_eq!(map.name_at(1), "Short");
        }
        _ => panic!(),
    }
}

#[test]
fn list_test() {
    let list = Tag::list(ListTag::from(vec![
        "Hello, world!".to_string(),
        "Foo".to_string(),
        "Bar".to_string(),
        "Baz".to_string(),
        "Fred".to_string(),
    ]));
    println!("{:?}", list);
    match list {
        Tag::List(items) => {
            assert_eq!(items.id(), TagID::String);
            assert_eq!(items.len(), 5);
        }
        _ => panic!(),
    }
}

#[test]
fn compounder_test() {
    let compound = Tag::compound(vec![
        ("byte".to_owned(), Tag::from(1i8)),
        (
            "string".to_owned(),
            Tag::string("The quick brown fox jumps over the lazy dog."),
        ),
        ("int".to_owned(), Tag::from(1234)),
        ("bytes".to_owned(), Tag::from(vec![1i8, 2, 3, 4, 5])),
    ]);
    println!("{:?}", compound);
    match compound {
        Tag::Compound(map) => {
            assert_eq!(map.get("int"), Some(&Tag::Int(1234)));
            assert_eq!(map.get("bytes"), Some(&Tag::ByteArray(vec![1, 2, 3, 4, 5])));
            assert_eq!(map.get("none"), None);
        }
        _ => panic!(),
    }
}

#[test]
fn numbers_that_do_not_fit_become_zero() {
    assert_eq!(Tag::byte(127), Tag::Byte(127));
    assert_eq!(Tag::byte(128), Tag::Byte(0));
    assert_eq!(Tag::byte(-129), Tag::Byte(0));
    assert_eq!(Tag::short(-32768), Tag::Short(-32768));
    assert_eq!(Tag::short(40000), Tag::Short(0));
    assert_eq!(Tag::integer(2147483647), Tag::Int(2147483647));
    assert_eq!(Tag::integer(2147483648), Tag::Int(0));
    assert_eq!(Tag::long(i64::MIN as i128), Tag::Long(i64::MIN));
    assert_eq!(Tag::long(i64::MAX as i128 + 1), Tag::Long(0));
}

#[test]
fn arrays_and_strings_from_slices() {
    assert_eq!(Tag::bytearray(&[1, -1]), Tag::ByteArray(vec![1, -1]));
    assert_eq!(Tag::bytes(&[0, 127, 128, 255]), Tag::ByteArray(vec![0, 127, -128, -1]));
    assert_eq!(Tag::intarray(&[5, 6]), Tag::IntArray(vec![5, 6]));
    assert_eq!(Tag::longarray(&[7]), Tag::LongArray(vec![7]));
    assert_eq!(Tag::string("text"), Tag::String("text".to_owned()));
}

#[test]
fn booleans_and_numbers() {
    assert_eq!(Tag::from(true), Tag::Byte(1));
    assert_eq!(Tag::from(false), Tag::Byte(0));
    assert_eq!(Tag::from_bool(true), Tag::Byte(1));
    assert_eq!(bool::try_from(Tag::Byte(0)), Ok(false));
    assert_eq!(bool::try_from(Tag::Short(-3)), Ok(true));
    assert_eq!(Tag::Int(0).to_bool(), Ok(false));
    assert_eq!(Tag::Long(9).to_bool(), Ok(true));
    assert_eq!(Tag::Float(0.0f32.to_bits()).to_bool(), Ok(false));
    assert_eq!(Tag::Float((-0.0f32).to_bits()).to_bool(), Ok(false));
    assert_eq!(Tag::Float(f32::NAN.to_bits()).to_bool(), Ok(true));
    assert_eq!(Tag::Double((-0.0f64).to_bits()).to_bool(), Ok(false));
    assert_eq!(Tag::Double(0.5f64.to_bits()).to_bool(), Ok(true));
    assert_eq!(Tag::String("1".to_owned()).to_bool(), Err(()));
    assert_eq!(Tag::List(ListTag::Empty).to_bool(), Err(()));
}

#[test]
fn a_dictionary_keeps_order_and_one_value_for_each_name() {
    let mut map = Compound::new();
    assert!(map.is_empty());
    assert_eq!(map.insert("b".to_owned(), Tag::Byte(1)), None);
    assert_eq!(map.insert("a".to_owned(), Tag::Byte(2)), None);
    assert_eq!(map.insert("b".to_owned(), Tag::Byte(3)), Some(Tag::Byte(1)));
    assert_eq!(map.len(), 2);
    assert_eq!(map.name_at(0), "b");
    assert_eq!(map.tag_at(0), &Tag::Byte(3));
    assert_eq!(map.name_at(1), "a");
    assert_eq!(map.position("a"), 1);
    assert_eq!(map.position("c"), 2);
    assert!(map.contains_key("a"));
    assert!(!map.contains_key("c"));
    assert_eq!(map.clone(), map);
}

#[test]
fn named_tags() {
    let mut named = NamedTag::new(Tag::Int(1));
    assert_eq!(named.name(), "");
    named.set_name("n");
    named.set_tag(Tag::Int(2));
    assert_eq!(named, NamedTag::with_name("n", Tag::Int(2)));
    *named.tag_mut() = Tag::Int(3);
    assert_eq!(named.tag(), &Tag::Int(3));
    assert_eq!(named.clone().take_tag(), Tag::Int(3));
    assert_eq!(NamedTag::from(("n".to_owned(), Tag::Int(3))), named);
    assert_eq!(named.into_pair(), ("n".to_owned(), Tag::Int(3)));
}

#[test]
fn copies_are_equal() {
    let mut inner = Compound::new();
    inner.insert("k".to_owned(), Tag::List(ListTag::String(vec!["s".to_owned()])));
    let tag = Tag::List(ListTag::Compound(vec![inner.clone(), Compound::new()]));
    assert_eq!(tag.clone(), tag);
    let lists = ListTag::List(vec![ListTag::ByteArray(vec![vec![1], vec![]]), ListTag::Empty]);
    assert_eq!(lists.clone(), lists);
    assert_eq!(ListTag::IntArray(vec![vec![1, 2]]).clone(), ListTag::IntArray(vec![vec![1, 2]]));
    assert_eq!(ListTag::LongArray(vec![vec![3]]).clone(), ListTag::LongArray(vec![vec![3]]));
}

#[test]
fn payload_types() {
    assert_eq!(<i16 as NbtType>::id(), TagID::Short);
    assert_eq!(7i64.nbt(), Tag::Long(7));
    assert_eq!(vec![1i32].nbt(), Tag::IntArray(vec![1]));
    assert_eq!((&5i8).encode_nbt(), Tag::Byte(5));
    assert_eq!((&"s".to_owned()).encode_nbt(), Tag::String("s".to_owned()));
    assert_eq!((&vec![1i64]).encode_nbt(), Tag::LongArray(vec![1]));
    assert_eq!(i32::decode_nbt(Tag::Int(4)), Ok(4));
    assert_eq!(i32::decode_nbt(Tag::Long(4)), Err(()));
    assert_eq!(String::decode_nbt(Tag::String("x".to_owned())), Ok("x".to_owned()));
    assert_eq!(i8::try_from(Tag::Byte(3)), Ok(3));
    assert_eq!(i8::try_from(Tag::Short(3)), Err(()));
    assert_eq!(Vec::<i32>::try_from(Tag::IntArray(vec![1])), Ok(vec![1]));
    assert_eq!(Compound::try_from(Tag::List(ListTag::Empty)), Err(()));
    assert_eq!(ListTag::from(vec![1i16, 2]), ListTag::Short(vec![1, 2]));
    assert_eq!(ListTag::from(vec![vec![1i8]]), ListTag::ByteArray(vec![vec![1]]));
}
