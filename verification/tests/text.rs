use rustnbt::snbt::{ArrayType, DecimalType, IntegerType, ParseError, Token};
use rustnbt::tag::{Compound, ListTag, Tag};

fn decimals_of(tokens: &[Token]) -> Vec<u64> {
    tokens
        .iter()
        .map(|token| match token {
            Token::Decimal(digits, DecimalType::Float) => {
                digits.parse::<f32>().unwrap().to_bits() as u64
            }
            Token::Decimal(digits, DecimalType::Double) => {
                digits.parse::<f64>().unwrap().to_bits()
            }
            _ => 0,
        })
        .collect()
}

fn parse(source: &str) -> Result<Tag, ParseError> {
    let tokens = Token::parse(source)?;
    Tag::parse(source, &decimals_of(&tokens))
}

const SAMPLE: &str = r#"
    {
        byte1 : 0b,
        byte2 : -10b,
        byte3 : 127b,
        short : 69s,
        int : 420,
        long : 69420,
        float : 3f,
        float2 : 3.14f,
        double : 4d,
        double2 : 4.5d,
        double3 : 5.1,
        bytearray : [B; true, false, 5b],
        intarray : [I; 3, 5, 1],
        longarray : [L; 3l, 4l, 5l],
        list : [4b, 3b, 2b],
        compound : {
            "test" : "The quick brown fox jumps over the lazy dog."
        }
    }
    "#;

#[test]
fn parsetest() {
    if let Ok(Tag::Compound(result)) = parse(SAMPLE) {
        for key in [
            "byte1",
            "byte2",
            "byte3",
            "short",
            "int",
            "long",
            "float",
            "float2",
            "double",
            "double3",
            "bytearray",
            "intarray",
            "longarray",
            "list",
            "compound",
        ] {
            assert!(result.contains_key(key));
        }
    } else {
        panic!();
    }
}

#[test]
fn tag_fromstr_test() {
    let tag: Tag = parse(SAMPLE).expect("Failed to parse.");
    println!("{tag:?}");
}

#[test]
fn foo() {
    let result = parse(
        r#"
            {
                byte1 : 0b,
                byte2 : -10b,
                byte3 : 127b,
                short : 69s,
                int : 420,
                long : 69420,
                float : 3f,
                float2 : 3.14f,
                double : 4d,
                double2 : 4.5d,
                double3 : 5.1,
                bytearray : [B; true, false, 5b],
                intarray : [I; 3, 5, 1],
                longarray : [L; 3l, 4l, 5l],
                lists : [
                    [4b, 3b, 2b],
                    [1s, -2s, 5s],
                    [420, 69],
                    ["Hello", 'world']
                ],
                compound : {
                    "test" : "The quick brown fox jumps over the lazy dog.",
                    nested : {
                        nested : {
                            nested : {
                                nested : {
                                    leaf : "This is a secret."
                                }
                            }
                        }
                    }
                }
            }
        "#,
    );
    match result {
        Ok(result) => println!("{:?}", result),
        Err(err) => panic!("{:#?}", err),
    }
}

#[test]
fn the_sample_text_gives_the_expected_tree() {
    let source = "{byte1:0b,short:69s,int:420,long:69420L,float:3.14f,double:5.1,bytearray:[B;true,false,5b],list:[4b,3b,2b],compound:{test:\"hi\"}}";
    let mut inner = Compound::new();
    inner.insert("test".to_owned(), Tag::String("hi".to_owned()));
    let mut expected = Compound::new();
    expected.insert("byte1".to_owned(), Tag::Byte(0));
    expected.insert("short".to_owned(), Tag::Short(69));
    expected.insert("int".to_owned(), Tag::Int(420));
    expected.insert("long".to_owned(), Tag::Long(69420));
    expected.insert("float".to_owned(), Tag::Float(3.14f32.to_bits()));
    expected.insert("double".to_owned(), Tag::Double(5.1f64.to_bits()));
    expected.insert("bytearray".to_owned(), Tag::ByteArray(vec![1, 0, 5]));
    expected.insert("list".to_owned(), Tag::List(ListTag::Byte(vec![4, 3, 2])));
    expected.insert("compound".to_owned(), Tag::Compound(inner));
    assert_eq!(parse(source), Ok(Tag::Compound(expected)));
}

#[test]
fn suffixes_of_numbers() {
    assert_eq!(
        Token::parse("420"),
        Ok(vec![Token::Integer("420".to_owned(), IntegerType::Int)])
    );
    assert_eq!(
        Token::parse("420L"),
        Ok(vec![Token::Integer("420".to_owned(), IntegerType::Long)])
    );
    assert_eq!(
        Token::parse("4.5d"),
        Ok(vec![Token::Decimal("4.5".to_owned(), DecimalType::Double)])
    );
    assert_eq!(Token::parse("4xyz"), Ok(vec![Token::Identifier("4xyz".to_owned())]));
    assert_eq!(
        Token::parse("-7b 8S 3f 2.50 1."),
        Ok(vec![
            Token::Integer("-7".to_owned(), IntegerType::Byte),
            Token::Integer("8".to_owned(), IntegerType::Short),
            Token::Decimal("3".to_owned(), DecimalType::Float),
            Token::Decimal("2.50".to_owned(), DecimalType::Double),
            Token::Identifier("1.".to_owned()),
        ])
    );
    assert_eq!(Token::parse("007"), Ok(vec![Token::Identifier("007".to_owned())]));
    assert_eq!(Token::parse("5é"), Err(ParseError::TokenizeError { position: 1 }));
    assert_eq!(Token::parse("5 é"), Err(ParseError::TokenizeError { position: 2 }));
}

#[test]
fn marks_words_and_quotes() {
    assert_eq!(
        Token::parse(" [B; [i;[L;[ b ; ]"),
        Err(ParseError::TokenizeError { position: 15 })
    );
    assert_eq!(
        Token::parse("[b;[I; [L;[ b"),
        Ok(vec![
            Token::ArrayStart(ArrayType::Byte),
            Token::ArrayStart(ArrayType::Int),
            Token::ArrayStart(ArrayType::Long),
            Token::OpenBracket,
            Token::Identifier("b".to_owned()),
        ])
    );
    assert_eq!(
        Token::parse("[B;[ ] { } , : true false truex"),
        Ok(vec![
            Token::ArrayStart(ArrayType::Byte),
            Token::OpenBracket,
            Token::CloseBracket,
            Token::OpenBrace,
            Token::CloseBrace,
            Token::Comma,
            Token::Colon,
            Token::Boolean(true),
            Token::Boolean(false),
            Token::Identifier("truex".to_owned()),
        ])
    );
    assert_eq!(
        Token::parse(r#""a\n\"b\\" 'it''s' "\q\0""#),
        Ok(vec![
            Token::StringLiteral("a\n\"b\\".to_owned()),
            Token::StringLiteral("it".to_owned()),
            Token::StringLiteral("s".to_owned()),
            Token::StringLiteral("q\0".to_owned()),
        ])
    );
}

#[test]
fn texts_that_cannot_be_cut_into_tokens() {
    assert_eq!(Token::parse(""), Err(ParseError::TokenizeError { position: 0 }));
    assert_eq!(Token::parse("  \n"), Err(ParseError::TokenizeError { position: 3 }));
    assert_eq!(Token::parse("ab #"), Err(ParseError::TokenizeError { position: 3 }));
    assert_eq!(Token::parse("x \"open"), Err(ParseError::TokenizeError { position: 2 }));
    assert_eq!(parse("ab #"), Err(ParseError::TokenizeError { position: 3 }));
}

#[test]
fn a_list_of_two_kinds_is_refused() {
    assert_eq!(
        parse("[1, \"two\"]"),
        Err(ParseError::ParseFailure {
            token: Some(Token::StringLiteral("two".to_owned())),
            position: 3
        })
    );
    assert_eq!(
        parse("[1b, 2]"),
        Err(ParseError::ParseFailure {
            token: Some(Token::Integer("2".to_owned(), IntegerType::Int)),
            position: 3
        })
    );
    assert_eq!(parse("[true, 2b,]"), Ok(Tag::List(ListTag::Byte(vec![1, 2]))));
}

#[test]
fn lists_arrays_and_dictionaries() {
    assert_eq!(parse("[]"), Ok(Tag::List(ListTag::Byte(vec![]))));
    assert_eq!(parse("[B;]"), Ok(Tag::ByteArray(vec![])));
    assert_eq!(parse("[I; 1, -2,]"), Ok(Tag::IntArray(vec![1, -2])));
    assert_eq!(parse("[L; 1l, 2L]"), Ok(Tag::LongArray(vec![1, 2])));
    assert_eq!(
        parse("[[1s], []]"),
        Ok(Tag::List(ListTag::List(vec![ListTag::Short(vec![1]), ListTag::Byte(vec![])])))
    );
    assert_eq!(parse("{}"), Ok(Tag::Compound(Compound::new())));
    let mut map = Compound::new();
    map.insert("a".to_owned(), Tag::Int(2));
    assert_eq!(parse("{a: 1, 'a': 2,}"), Ok(Tag::Compound(map)));
    assert_eq!(parse("1 2"), Ok(Tag::Int(1)));
    assert_eq!(parse("true"), Ok(Tag::Byte(1)));
    assert_eq!(parse("name"), Ok(Tag::String("name".to_owned())));
}

#[test]
fn decimals_in_lists_and_dictionaries() {
    assert_eq!(
        parse("[1.5, -2d, 3.0D]"),
        Ok(Tag::List(ListTag::Double(vec![
            1.5f64.to_bits(),
            (-2.0f64).to_bits(),
            3.0f64.to_bits()
        ])))
    );
    assert_eq!(
        parse("[1f, -0.5F]"),
        Ok(Tag::List(ListTag::Float(vec![1.0f32.to_bits(), (-0.5f32).to_bits()])))
    );
    assert_eq!(
        parse("[1f, 2.0]"),
        Err(ParseError::ParseFailure {
            token: Some(Token::Decimal("2.0".to_owned(), DecimalType::Double)),
            position: 3
        })
    );
    assert_eq!(
        parse("[[B; 1b], [B;]]"),
        Ok(Tag::List(ListTag::ByteArray(vec![vec![1], vec![]])))
    );
    assert_eq!(
        parse("[{}, {a: b}]").map(|tag| tag.id()),
        Ok(rustnbt::tag::TagID::List)
    );
    let tokens = Token::parse("1.5f").unwrap();
    assert_eq!(Tag::parse("1.5f", &[]), Ok(Tag::Float(0)));
    assert_eq!(Tag::parse("1.5f", &[0x1_0000_0007]), Ok(Tag::Float(7)));
    assert_eq!(rustnbt::parse::parse_tokens(&tokens, &[9]), Ok(Tag::Float(9)));
}

#[test]
fn tokens_that_do_not_fit_the_grammar() {
    let failure = |token: Option<Token>, position: usize| {
        Err(ParseError::ParseFailure { token, position })
    };
    assert_eq!(parse("{a: 1"), failure(None, 4));
    assert_eq!(parse("{,}"), failure(Some(Token::Comma), 1));
    assert_eq!(parse("{1: 2}"), failure(Some(Token::Integer("1".to_owned(), IntegerType::Int)), 1));
    assert_eq!(parse("[1 2]"), failure(Some(Token::Integer("2".to_owned(), IntegerType::Int)), 2));
    assert_eq!(parse("[,]"), failure(Some(Token::Comma), 1));
    assert_eq!(parse("300b"), failure(Some(Token::Integer("300".to_owned(), IntegerType::Byte)), 0));
    assert_eq!(parse("-129b"), failure(Some(Token::Integer("-129".to_owned(), IntegerType::Byte)), 0));
    assert_eq!(parse("-128b"), Ok(Tag::Byte(-128)));
    assert_eq!(parse("9223372036854775807L"), Ok(Tag::Long(i64::MAX)));
    assert_eq!(parse("-9223372036854775808L"), Ok(Tag::Long(i64::MIN)));
    assert_eq!(
        parse("9223372036854775808L"),
        failure(Some(Token::Integer("9223372036854775808".to_owned(), IntegerType::Long)), 0)
    );
    assert_eq!(parse("2147483648"), failure(Some(Token::Integer("2147483648".to_owned(), IntegerType::Int)), 0));
    assert_eq!(parse("[I; 1b]"), failure(Some(Token::Integer("1".to_owned(), IntegerType::Byte)), 1));
    assert_eq!(parse(":"), failure(Some(Token::Colon), 0));
}

#[test]
fn the_parser_stops_at_its_limit() {
    let within = |source: &str, limit: usize| {
        let tokens = Token::parse(source).unwrap();
        Tag::parse_within(source, &decimals_of(&tokens), limit)
    };
    let failure = |token: Token, position: usize| {
        Err(ParseError::ParseFailure { token: Some(token), position })
    };
    assert_eq!(within("7", 0), Ok(Tag::Int(7)));
    assert_eq!(within("[B; 7b]", 0), Ok(Tag::ByteArray(vec![7])));
    assert_eq!(within("[]", 0), failure(Token::OpenBracket, 0));
    assert_eq!(within("{}", 0), failure(Token::OpenBrace, 0));
    assert_eq!(within("[]", 1), Ok(Tag::List(ListTag::Byte(vec![]))));
    assert_eq!(within("[[1]]", 1), failure(Token::OpenBracket, 1));
    assert_eq!(
        within("[[1]]", 2),
        Ok(Tag::List(ListTag::List(vec![ListTag::Int(vec![1])])))
    );
    assert_eq!(within("{a: {b: [1]}}", 2), failure(Token::OpenBracket, 6));
    assert!(within("{a: {b: [1]}}", 3).is_ok());
    assert!(parse("{a: {b: [1]}}").is_ok());
    let deep = format!("{}{}", "[".repeat(100), "]".repeat(100));
    assert!(parse(&deep).is_ok());
    assert_eq!(within(&deep, 99), failure(Token::OpenBracket, 99));
}
