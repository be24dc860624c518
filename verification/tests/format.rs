use rustnbt::snbt::{IntegerType, Token};
use rustnbt::tag::Tag;
use rustnbt::format::{
    is_identifier, num_width, write_byte, write_bytearray, write_escaped_string, write_identifier,
    write_indent, write_int, write_intarray, write_long, write_longarray, write_short,
    write_string, Indent, Indentation, SpaceCount,
};

#[test]
fn num_width_test() {
    assert!(num_width(0) == 1);
    assert!(num_width(1) == 1);
    assert!(num_width(10) == 2);
    assert!(num_width(-1) == 2);
    assert!(num_width(-10) == 3);
    assert!(num_width(1234) == 4);
    assert!(num_width(12345) == 5);
    assert!(num_width(123456) == 6);
    assert!(num_width(-1234) == 5);
    assert!(num_width(-12345) == 6);
    assert!(num_width(-123456) == 7);
}

#[test]
fn it_works() {}

#[test]
fn widths_at_the_ends_of_the_range() {
    assert_eq!(num_width(i64::MAX), 19);
    assert_eq!(num_width(i64::MIN), 20);
    assert_eq!(num_width(1_000_000_000_000_000_000), 19);
    assert_eq!(num_width(999_999_999_999_999_999), 18);
}

#[test]
fn numbers_with_their_suffix() {
    let mut text = String::new();
    write_byte(&mut text, -128);
    text.push(' ');
    write_short(&mut text, 69);
    text.push(' ');
    write_int(&mut text, i32::MIN);
    text.push(' ');
    write_long(&mut text, i64::MIN);
    text.push(' ');
    write_long(&mut text, 0);
    assert_eq!(text, "-128B 69S -2147483648 -9223372036854775808L 0L");
}

#[test]
fn arrays_on_one_line_and_on_many() {
    let mut text = String::new();
    write_bytearray(&mut text, &[], false, Indentation::tabs());
    assert_eq!(text, "[B;]");
    let mut text = String::new();
    write_intarray(&mut text, &[7], false, Indentation::tabs());
    assert_eq!(text, "[I; 7]");
    let mut text = String::new();
    write_longarray(&mut text, &[1, -2, 3], true, Indentation::tabs());
    assert_eq!(text, "[L; 1, -2, 3]");
    let mut text = String::new();
    write_longarray(&mut text, &[1, -2, 3], false, Indentation::two_spaces().level(1));
    assert_eq!(text, "[L;\n    1,\n    -2,\n    3\n  ]");
}

#[test]
fn arrays_test() {
    let array: Vec<i64> = vec![0, 1, 2, 3, 4, 5, 6, 7, 8, 9];
    let mut writer = String::new();
    write_longarray(&mut writer, &array, false, Indentation::tabs());
    assert_eq!(writer, "[L;\n\t0,\n\t1,\n\t2,\n\t3,\n\t4,\n\t5,\n\t6,\n\t7,\n\t8,\n\t9\n]");
}

#[test]
fn quoted_texts_and_names() {
    let mut text = String::new();
    write_string(&mut text, "a\"b\\c/d'e\n\r\t\u{8}\u{c}\0é");
    assert_eq!(text, r#""a\"b\\c\/d\'e\n\r\t\b\f\0é""#);
    let mut text = String::new();
    write_escaped_string(&mut text, "plain");
    assert_eq!(text, "plain");
    let mut text = String::new();
    write_identifier(&mut text, "a.b-c+d_9");
    write_identifier(&mut text, " x");
    assert_eq!(text, "a.b-c+d_9\" x\"");
    assert!(is_identifier("abc.DEF-1+2_"));
    assert!(is_identifier(""));
    assert!(!is_identifier("a b"));
    assert!(!is_identifier("é"));
}

#[test]
fn indentation_levels() {
    let start = Indentation::new(Indent::Tabs);
    assert_eq!(start, Indentation::tabs());
    assert_eq!(start.outdent(), start);
    assert_eq!(start.indent().indent().outdent(), start.indent());
    assert_eq!(start.level(3).len(), 3);
    assert_eq!(Indentation::four_spaces().level(2).len(), 8);
    assert_eq!(Indentation::eight_spaces().indent().len(), 8);
    assert_eq!(Indentation::space().indent().len(), 1);
    assert_eq!(Indentation::spaces(SpaceCount::Exact(5)).level(3).len(), 15);
    assert_eq!(Indent::Text("ab").indentation().level(4).len(), 8);
    assert_eq!(Indent::two_spaces().len(), 2);
    assert_eq!(Indent::default(), Indent::Tabs);
    assert_eq!(SpaceCount::default(), SpaceCount::Four);
    assert_eq!(SpaceCount::ThirtyTwo.len(), 32);
    assert_eq!(Indent::space(), Indent::Spaces(SpaceCount::One));
    assert_eq!(Indent::four_spaces().len(), 4);
    assert_eq!(Indent::eight_spaces().len(), 8);
    let mut text = String::new();
    Indentation::two_spaces().level(2).write(&mut text);
    Indent::Text("->").write(&mut text);
    write_indent(&mut text, 3, "ab");
    assert_eq!(text, "    ->ababab");
}

#[test]
fn what_is_written_is_read_back() {
    let plain = "a\"b\\c/d'e\n\r\t\u{8}\u{c}\0é and more";
    let mut text = String::new();
    write_string(&mut text, plain);
    assert_eq!(Token::parse(&text), Ok(vec![Token::StringLiteral(plain.to_owned())]));
    for value in [0i64, 7, -7, 1234567890123, i64::MAX, i64::MIN] {
        let mut text = String::new();
        write_long(&mut text, value);
        assert_eq!(
            Token::parse(&text),
            Ok(vec![Token::Integer(value.to_string(), IntegerType::Long)])
        );
        assert_eq!(Tag::parse(&text, &[]), Ok(Tag::Long(value)));
    }
    let mut text = String::new();
    write_bytearray(&mut text, &[1, -2], true, Indentation::tabs());
    assert_eq!(Tag::parse(&text.replace("1,", "1b,").replace("-2", "-2b"), &[]), Ok(Tag::ByteArray(vec![1, -2])));
}
