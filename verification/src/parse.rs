//! The grammar of the textual notation: from tokens to a tag.

use crate::snbt::{
    is_digit, lex, token_values, ArrayType, DecimalType, IntegerType, ParseError, Token, TokenValue,
};
use crate::tag::{insert_entry, Compound, Entries, ListTag, ListValue, Tag, TagID, TagValue};
use crate::text::chars_of;
use vstd::prelude::*;

verus! {

/// The number that a run of digits stands for.
pub open spec fn digits_value(digits: Seq<char>) -> int
    decreases digits.len(),
{
    if digits.len() == 0 {
        0
    } else {
        digits_value(digits.drop_last()) * 10 + (digits.last() as u32 - 48)
    }
}

/// Whether `digits` holds at least one character and digits only.
pub open spec fn all_digits(digits: Seq<char>) -> bool {
    digits.len() > 0 && forall|i: int| 0 <= i < digits.len() ==> is_digit(#[trigger] digits[i])
}

/// The number that `text` stands for: an optional sign `+` or `-` and at
/// least one digit; nothing for any other text.
pub open spec fn number_value(text: Seq<char>) -> Option<int> {
    if text.len() > 0 && text[0] == '-' {
        if all_digits(text.skip(1)) {
            Some(-digits_value(text.skip(1)))
        } else {
            None
        }
    } else if text.len() > 0 && text[0] == '+' {
        if all_digits(text.skip(1)) {
            Some(digits_value(text.skip(1)))
        } else {
            None
        }
    } else if all_digits(text) {
        Some(digits_value(text))
    } else {
        None
    }
}

/// The number that `text` stands for where it lies from `low` to `high`.
pub open spec fn number_in(text: Seq<char>, low: int, high: int) -> Option<int> {
    match number_value(text) {
        Some(v) => if low <= v <= high {
            Some(v)
        } else {
            None
        },
        None => None,
    }
}

/// The bit pattern handed in for the decimal at `pos`; 0 where none was.
pub open spec fn bits_at(decimals: Seq<u64>, pos: int) -> u64 {
    if 0 <= pos < decimals.len() {
        decimals[pos]
    } else {
        0
    }
}

/// The tag that a single token stands for, if it stands for one: a number
/// of the kind of its suffix that fits that kind, 1 or 0 as a byte for
/// `true` or `false`, the bit pattern handed in for a decimal (of a float
/// its low 32 bits), the text of an identifier or a quoted text.
pub open spec fn scalar_value(token: TokenValue, bits: u64) -> Option<TagValue> {
    match token {
        TokenValue::Integer(text, IntegerType::Byte) => match number_in(text, -128, 127) {
            Some(v) => Some(TagValue::Byte(v as i8)),
            None => None,
        },
        TokenValue::Integer(text, IntegerType::Short) => match number_in(text, -32768, 32767) {
            Some(v) => Some(TagValue::Short(v as i16)),
            None => None,
        },
        TokenValue::Integer(text, IntegerType::Int) => match number_in(
            text,
            -2147483648,
            2147483647,
        ) {
            Some(v) => Some(TagValue::Int(v as i32)),
            None => None,
        },
        TokenValue::Integer(text, IntegerType::Long) => match number_in(
            text,
            -9223372036854775808,
            9223372036854775807,
        ) {
            Some(v) => Some(TagValue::Long(v as i64)),
            None => None,
        },
        TokenValue::Boolean(on) => Some(
            TagValue::Byte(
                if on {
                    1
                } else {
                    0
                },
            ),
        ),
        TokenValue::Decimal(_, DecimalType::Float) => Some(
            TagValue::Float((bits % 0x1_0000_0000) as u32),
        ),
        TokenValue::Decimal(_, DecimalType::Double) => Some(TagValue::Double(bits)),
        TokenValue::Identifier(text) => Some(TagValue::String(text)),
        TokenValue::StringLiteral(text) => Some(TagValue::String(text)),
        _ => None,
    }
}

/// The kind of the tag that starts with `token`, if one can start with it.
pub open spec fn element_kind(token: TokenValue) -> Option<TagID> {
    match token {
        TokenValue::Integer(_, IntegerType::Byte) => Some(TagID::Byte),
        TokenValue::Integer(_, IntegerType::Short) => Some(TagID::Short),
        TokenValue::Integer(_, IntegerType::Int) => Some(TagID::Int),
        TokenValue::Integer(_, IntegerType::Long) => Some(TagID::Long),
        TokenValue::Boolean(_) => Some(TagID::Byte),
        TokenValue::Decimal(_, DecimalType::Float) => Some(TagID::Float),
        TokenValue::Decimal(_, DecimalType::Double) => Some(TagID::Double),
        TokenValue::Identifier(_) => Some(TagID::String),
        TokenValue::StringLiteral(_) => Some(TagID::String),
        TokenValue::ArrayStart(ArrayType::Byte) => Some(TagID::ByteArray),
        TokenValue::ArrayStart(ArrayType::Int) => Some(TagID::IntArray),
        TokenValue::ArrayStart(ArrayType::Long) => Some(TagID::LongArray),
        TokenValue::OpenBracket => Some(TagID::List),
        TokenValue::OpenBrace => Some(TagID::Compound),
        _ => None,
    }
}

/// The list of kind `id` without items.
pub open spec fn empty_list(id: TagID) -> ListValue {
    match id {
        TagID::Byte => ListValue::Byte(Seq::empty()),
        TagID::Short => ListValue::Short(Seq::empty()),
        TagID::Int => ListValue::Int(Seq::empty()),
        TagID::Long => ListValue::Long(Seq::empty()),
        TagID::Float => ListValue::Float(Seq::empty()),
        TagID::Double => ListValue::Double(Seq::empty()),
        TagID::ByteArray => ListValue::ByteArray(Seq::empty()),
        TagID::String => ListValue::String(Seq::empty()),
        TagID::List => ListValue::List(Seq::empty()),
        TagID::Compound => ListValue::Compound(Seq::empty()),
        TagID::IntArray => ListValue::IntArray(Seq::empty()),
        TagID::LongArray => ListValue::LongArray(Seq::empty()),
    }
}

/// `list` with `tag` as one more item, where `tag` is of the kind of the
/// list; else `list` as it is.
pub open spec fn list_push(list: ListValue, tag: TagValue) -> ListValue {
    match (list, tag) {
        (ListValue::Byte(items), TagValue::Byte(v)) => ListValue::Byte(items.push(v)),
        (ListValue::Short(items), TagValue::Short(v)) => ListValue::Short(items.push(v)),
        (ListValue::Int(items), TagValue::Int(v)) => ListValue::Int(items.push(v)),
        (ListValue::Long(items), TagValue::Long(v)) => ListValue::Long(items.push(v)),
        (ListValue::Float(items), TagValue::Float(v)) => ListValue::Float(items.push(v)),
        (ListValue::Double(items), TagValue::Double(v)) => ListValue::Double(items.push(v)),
        (ListValue::ByteArray(items), TagValue::ByteArray(v))
            => ListValue::ByteArray(items.push(v)),
        (ListValue::String(items), TagValue::String(v)) => ListValue::String(items.push(v)),
        (ListValue::List(items), TagValue::List(v)) => ListValue::List(items.push(v)),
        (ListValue::Compound(items), TagValue::Compound(v)) => ListValue::Compound(items.push(v)),
        (ListValue::IntArray(items), TagValue::IntArray(v)) => ListValue::IntArray(items.push(v)),
        (ListValue::LongArray(items), TagValue::LongArray(v))
            => ListValue::LongArray(items.push(v)),
        _ => list,
    }
}

/// The number that an item of a typed array of kind `kind` stands for, if
/// `token` is one: an integer with the suffix of the kind that fits the
/// kind, and in an array of bytes also `true` and `false` as 1 and 0.
pub open spec fn array_item(kind: ArrayType, token: TokenValue) -> Option<int> {
    match (kind, token) {
        (ArrayType::Byte, TokenValue::Integer(text, IntegerType::Byte)) => number_in(
            text,
            -128,
            127,
        ),
        (ArrayType::Byte, TokenValue::Boolean(on)) => Some(
            if on {
                1
            } else {
                0
            },
        ),
        (ArrayType::Int, TokenValue::Integer(text, IntegerType::Int)) => number_in(
            text,
            -2147483648,
            2147483647,
        ),
        (ArrayType::Long, TokenValue::Integer(text, IntegerType::Long)) => number_in(
            text,
            -9223372036854775808,
            9223372036854775807,
        ),
        _ => None,
    }
}

/// The token at `pos`, if there is one.
pub open spec fn token_at(tokens: Seq<TokenValue>, pos: int) -> Option<TokenValue> {
    if 0 <= pos < tokens.len() {
        Some(tokens[pos])
    } else {
        None
    }
}

/// The items of a typed array of kind `kind` from `pos` on, behind the items
/// `seen`: items with a comma between them, up to the closing bracket, which
/// may follow a comma. Gives all the items and the position behind the
/// bracket, or the index of the token that does not fit.
pub open spec fn parse_array(tokens: Seq<TokenValue>, pos: int, kind: ArrayType, seen: Seq<int>)
    -> Result<(Seq<int>, int), int>
    decreases tokens.len() - pos,
{
    match token_at(tokens, pos) {
        None => Err(pos),
        Some(TokenValue::CloseBracket) => Ok((seen, pos + 1)),
        Some(token) => match array_item(kind, token) {
            None => Err(pos),
            Some(item) => match token_at(tokens, pos + 1) {
                Some(TokenValue::Comma) => parse_array(tokens, pos + 2, kind, seen.push(item)),
                Some(TokenValue::CloseBracket) => Ok((seen.push(item), pos + 2)),
                _ => Err(pos + 1),
            },
        },
    }
}

/// The tag of a typed array of kind `kind` with the items `items`.
pub open spec fn array_tag(kind: ArrayType, items: Seq<int>) -> TagValue {
    match kind {
        ArrayType::Byte => TagValue::ByteArray(Seq::new(items.len(), |i: int| items[i] as i8)),
        ArrayType::Int => TagValue::IntArray(Seq::new(items.len(), |i: int| items[i] as i32)),
        ArrayType::Long => TagValue::LongArray(Seq::new(items.len(), |i: int| items[i] as i64)),
    }
}

/// The tag that starts at `pos` and the position behind it, or the index of
/// the token that does not fit (the number of tokens where they end too
/// early). `{` starts a dictionary, `[` a list, `[B;` and the like a typed
/// array; any other token must stand for a tag by itself. A list or a
/// dictionary fits only where `limit` leaves a level for it; its items lie
/// one level deeper.
pub open spec fn parse_value(
    tokens: Seq<TokenValue>,
    decimals: Seq<u64>,
    pos: int,
    limit: nat,
) -> Result<(TagValue, int), int>
    decreases tokens.len() - pos, 0nat,
{
    match token_at(tokens, pos) {
        None => Err(pos),
        Some(TokenValue::OpenBrace) => if limit == 0 {
            Err(pos)
        } else {
            match parse_entries(tokens, decimals, pos + 1, Seq::empty(), (limit - 1) as nat) {
                Ok((entries, end)) => Ok((TagValue::Compound(entries), end)),
                Err(e) => Err(e),
            }
        },
        Some(TokenValue::OpenBracket) => if limit == 0 {
            Err(pos)
        } else {
            match parse_list(tokens, decimals, pos + 1, (limit - 1) as nat) {
                Ok((list, end)) => Ok((TagValue::List(list), end)),
                Err(e) => Err(e),
            }
        },
        Some(TokenValue::ArrayStart(kind)) => match parse_array(
            tokens,
            pos + 1,
            kind,
            Seq::empty(),
        ) {
            Ok((items, end)) => Ok((array_tag(kind, items), end)),
            Err(e) => Err(e),
        },
        Some(token) => match scalar_value(token, bits_at(decimals, pos)) {
            Some(tag) => Ok((tag, pos + 1)),
            None => Err(pos),
        },
    }
}

/// The list whose first item starts at `pos`, behind the opening bracket. A
/// closing bracket there gives the list of bytes without items. Else the
/// first token fixes the kind of all the items.
pub open spec fn parse_list(
    tokens: Seq<TokenValue>,
    decimals: Seq<u64>,
    pos: int,
    limit: nat,
) -> Result<(ListValue, int), int>
    decreases tokens.len() - pos, 2nat,
{
    match token_at(tokens, pos) {
        None => Err(pos),
        Some(TokenValue::CloseBracket) => Ok((ListValue::Byte(Seq::empty()), pos + 1)),
        Some(token) => match element_kind(token) {
            None => Err(pos),
            Some(id) => parse_items(tokens, decimals, pos, empty_list(id), limit),
        },
    }
}

/// The rest of a list from `pos` on, behind the items of `seen`: a closing
/// bracket, or an item of the kind of `seen` and then a comma and the rest,
/// or the closing bracket.
pub open spec fn parse_items(
    tokens: Seq<TokenValue>,
    decimals: Seq<u64>,
    pos: int,
    seen: ListValue,
    limit: nat,
) -> Result<(ListValue, int), int>
    decreases tokens.len() - pos, 1nat,
{
    match token_at(tokens, pos) {
        None => Err(pos),
        Some(TokenValue::CloseBracket) => Ok((seen, pos + 1)),
        Some(token) => if element_kind(token) != Some(seen.id()) {
            Err(pos)
        } else {
            match parse_value(tokens, decimals, pos, limit) {
                Err(e) => Err(e),
                Ok((tag, end)) => match token_at(tokens, end) {
                    Some(TokenValue::Comma) => if pos <= end {
                        parse_items(tokens, decimals, end + 1, list_push(seen, tag), limit)
                    } else {
                        Err(end)
                    },
                    Some(TokenValue::CloseBracket) => Ok((list_push(seen, tag), end + 1)),
                    _ => Err(end),
                },
            }
        },
    }
}

/// The name that `token` gives as the key of an entry: the text of an
/// identifier or of a quoted text.
pub open spec fn key_of(token: TokenValue) -> Option<Seq<char>> {
    match token {
        TokenValue::Identifier(text) => Some(text),
        TokenValue::StringLiteral(text) => Some(text),
        _ => None,
    }
}

/// The rest of a dictionary from `pos` on, behind the entries `seen`: a
/// closing brace, or a key, a colon and a tag and then a comma and the rest,
/// or the closing brace. A value whose key was seen before takes the place
/// of the earlier one.
pub open spec fn parse_entries(
    tokens: Seq<TokenValue>,
    decimals: Seq<u64>,
    pos: int,
    seen: Entries,
    limit: nat,
) -> Result<(Entries, int), int>
    decreases tokens.len() - pos, 1nat,
{
    match token_at(tokens, pos) {
        None => Err(pos),
        Some(TokenValue::CloseBrace) => Ok((seen, pos + 1)),
        Some(token) => match key_of(token) {
            None => Err(pos),
            Some(name) => match token_at(tokens, pos + 1) {
                Some(TokenValue::Colon) => match parse_value(tokens, decimals, pos + 2, limit) {
                    Err(e) => Err(e),
                    Ok((tag, end)) => match token_at(tokens, end) {
                        Some(TokenValue::Comma) => if pos <= end {
                            parse_entries(
                                tokens,
                                decimals,
                                end + 1,
                                insert_entry(seen, name, tag),
                                limit,
                            )
                        } else {
                            Err(end)
                        },
                        Some(TokenValue::CloseBrace) => Ok(
                            (insert_entry(seen, name, tag), end + 1),
                        ),
                        _ => Err(end),
                    },
                },
                _ => Err(pos + 1),
            },
        },
    }
}

/// The tag that the tokens start with, or the index of the token that does
/// not fit the grammar, where lists and dictionaries may go `limit` deep.
/// Tokens behind the tag are not read.
pub open spec fn parse(tokens: Seq<TokenValue>, decimals: Seq<u64>, limit: nat) -> Result<
    TagValue,
    int,
> {
    match parse_value(tokens, decimals, 0, limit) {
        Ok((tag, _)) => Ok(tag),
        Err(e) => Err(e),
    }
}

/// The value of a run of digits is at least the value of each of its
/// prefixes, and none is negative.
pub proof fn lemma_digits_value_prefix(digits: Seq<char>, n: int)
    requires
        0 <= n <= digits.len(),
        forall|i: int| 0 <= i < digits.len() ==> is_digit(#[trigger] digits[i]),
    ensures
        0 <= digits_value(digits.take(n)) <= digits_value(digits),
        n < digits.len() ==> digits_value(digits.take(n + 1)) == digits_value(digits.take(n)) * 10
            + (digits[n] as u32 - 48),
    decreases digits.len() - n,
{
    if n < digits.len() {
        assert(digits.take(n + 1).drop_last() =~= digits.take(n));
        lemma_digits_value_prefix(digits, n + 1);
        lemma_digits_value_nonnegative(digits.take(n));
    } else {
        assert(digits.take(n) =~= digits);
        lemma_digits_value_nonnegative(digits);
    }
}

/// The value of a run of digits is not negative.
pub proof fn lemma_digits_value_nonnegative(digits: Seq<char>)
    requires
        forall|i: int| 0 <= i < digits.len() ==> is_digit(#[trigger] digits[i]),
    ensures
        0 <= digits_value(digits),
    decreases digits.len(),
{
    if digits.len() > 0 {
        lemma_digits_value_nonnegative(digits.drop_last());
    }
}

/// The number that `text` stands for where it lies from `low` to `high`.
pub fn number_of(text: &str, low: i64, high: i64) -> (number: Option<i64>)
    ensures
        match number_in(text@, low as int, high as int) {
            Some(v) => number == Some(v as i64),
            None => number is None,
        },
{
    let chars = chars_of(text);
    let negative = chars.len() > 0 && chars[0] == '-';
    let start: usize = if chars.len() > 0 && (chars[0] == '-' || chars[0] == '+') {
        1
    } else {
        0
    };
    let ghost digits = if start == 1 {
        chars@.skip(1)
    } else {
        chars@
    };
    if chars.len() == start {
        return None;
    }
    let mut magnitude: u128 = 0;
    let mut i: usize = start;
    proof {
        assert(digits.take(0) =~= Seq::empty());
    }
    while i < chars.len()
        invariant
            start <= i <= chars@.len(),
            start == (if chars@.len() > 0 && (chars@[0] == '-' || chars@[0] == '+') {
                1int
            } else {
                0int
            }),
            chars@ == text@,
            digits == (if start == 1 {
                chars@.skip(1)
            } else {
                chars@
            }),
            forall|k: int| 0 <= k < i - start ==> is_digit(#[trigger] digits[k]),
            magnitude == digits_value(digits.take(i - start)),
            magnitude <= 0x8000_0000_0000_0000,
        decreases chars@.len() - i,
    {
        let c = chars[i];
        let n: u32 = c as u32;
        assert(digits[i - start] == c);
        if n < 48 || n > 57 {
            assert(!is_digit(digits[i - start]));
            return None;
        }
        let next: u128 = magnitude * 10 + (n - 48) as u128;
        proof {
            assert(digits.take(i - start + 1).drop_last() =~= digits.take(i - start));
        }
        if next > 0x8000_0000_0000_0000 {
            proof {
                if all_digits(digits) {
                    lemma_digits_value_prefix(digits, i - start + 1);
                }
            }
            return None;
        }
        magnitude = next;
        i = i + 1;
    }
    proof {
        assert(digits.take(i - start) =~= digits);
    }
    let value: i128 = if negative {
        -(magnitude as i128)
    } else {
        magnitude as i128
    };
    if low as i128 <= value && value <= high as i128 {
        Some(value as i64)
    } else {
        None
    }
}

/// Whether an optional tag stands for an optional value.
pub open spec fn same_tag(found: Option<Tag>, wanted: Option<TagValue>) -> bool {
    match (found, wanted) {
        (Some(tag), Some(value)) => tag@ == value,
        (None, None) => true,
        _ => false,
    }
}

/// The tag that a single token stands for, if it stands for one.
pub fn scalar(token: &Token, bits: u64) -> (tag: Option<Tag>)
    ensures
        same_tag(tag, scalar_value(token@, bits)),
{
    match token {
        Token::Integer(text, IntegerType::Byte) => match number_of(text.as_str(), -128, 127) {
            Some(v) => Some(Tag::Byte(v as i8)),
            None => None,
        },
        Token::Integer(text, IntegerType::Short) => match number_of(text.as_str(), -32768, 32767) {
            Some(v) => Some(Tag::Short(v as i16)),
            None => None,
        },
        Token::Integer(text, IntegerType::Int) => match number_of(
            text.as_str(),
            -2147483648,
            2147483647,
        ) {
            Some(v) => Some(Tag::Int(v as i32)),
            None => None,
        },
        Token::Integer(text, IntegerType::Long) => match number_of(
            text.as_str(),
            -9223372036854775808,
            9223372036854775807,
        ) {
            Some(v) => Some(Tag::Long(v)),
            None => None,
        },
        Token::Boolean(on) => Some(
            Tag::Byte(
                if *on {
                    1
                } else {
                    0
                },
            ),
        ),
        Token::Decimal(_, DecimalType::Float) => Some(Tag::Float((bits % 0x1_0000_0000) as u32)),
        Token::Decimal(_, DecimalType::Double) => Some(Tag::Double(bits)),
        Token::Identifier(text) => Some(Tag::String(text.clone())),
        Token::StringLiteral(text) => Some(Tag::String(text.clone())),
        _ => None,
    }
}

/// The kind of the tag that starts with `token`, if one can start with it.
pub fn kind_of(token: &Token) -> (id: Option<TagID>)
    ensures
        id == element_kind(token@),
{
    match token {
        Token::Integer(_, IntegerType::Byte) => Some(TagID::Byte),
        Token::Integer(_, IntegerType::Short) => Some(TagID::Short),
        Token::Integer(_, IntegerType::Int) => Some(TagID::Int),
        Token::Integer(_, IntegerType::Long) => Some(TagID::Long),
        Token::Boolean(_) => Some(TagID::Byte),
        Token::Decimal(_, DecimalType::Float) => Some(TagID::Float),
        Token::Decimal(_, DecimalType::Double) => Some(TagID::Double),
        Token::Identifier(_) => Some(TagID::String),
        Token::StringLiteral(_) => Some(TagID::String),
        Token::ArrayStart(ArrayType::Byte) => Some(TagID::ByteArray),
        Token::ArrayStart(ArrayType::Int) => Some(TagID::IntArray),
        Token::ArrayStart(ArrayType::Long) => Some(TagID::LongArray),
        Token::OpenBracket => Some(TagID::List),
        Token::OpenBrace => Some(TagID::Compound),
        _ => None,
    }
}

/// The list of kind `id` without items.
pub fn empty_list_of(id: TagID) -> (list: ListTag)
    ensures
        list@ == empty_list(id),
{
    match id {
        TagID::Byte => ListTag::Byte(Vec::new()),
        TagID::Short => ListTag::Short(Vec::new()),
        TagID::Int => ListTag::Int(Vec::new()),
        TagID::Long => ListTag::Long(Vec::new()),
        TagID::Float => ListTag::Float(Vec::new()),
        TagID::Double => ListTag::Double(Vec::new()),
        TagID::ByteArray => {
            let list = ListTag::ByteArray(Vec::new());
            assert(list@->ByteArray_0 =~= Seq::empty());
            list
        },
        TagID::String => {
            let list = ListTag::String(Vec::new());
            assert(list@->String_0 =~= Seq::empty());
            list
        },
        TagID::List => ListTag::List(Vec::new()),
        TagID::Compound => ListTag::Compound(Vec::new()),
        TagID::IntArray => {
            let list = ListTag::IntArray(Vec::new());
            assert(list@->IntArray_0 =~= Seq::empty());
            list
        },
        TagID::LongArray => {
            let list = ListTag::LongArray(Vec::new());
            assert(list@->LongArray_0 =~= Seq::empty());
            list
        },
    }
}

/// `list` with `tag` as one more item, where `tag` is of the kind of the
/// list; else `list` as it is.
pub fn push_item(list: ListTag, tag: Tag) -> (longer: ListTag)
    ensures
        longer@ == list_push(list@, tag@),
{
    match (list, tag) {
        (ListTag::Byte(mut items), Tag::Byte(v)) => {
            items.push(v);
            ListTag::Byte(items)
        },
        (ListTag::Short(mut items), Tag::Short(v)) => {
            items.push(v);
            ListTag::Short(items)
        },
        (ListTag::Int(mut items), Tag::Int(v)) => {
            items.push(v);
            ListTag::Int(items)
        },
        (ListTag::Long(mut items), Tag::Long(v)) => {
            items.push(v);
            ListTag::Long(items)
        },
        (ListTag::Float(mut items), Tag::Float(v)) => {
            items.push(v);
            ListTag::Float(items)
        },
        (ListTag::Double(mut items), Tag::Double(v)) => {
            items.push(v);
            ListTag::Double(items)
        },
        (ListTag::ByteArray(mut items), Tag::ByteArray(v)) => {
            let ghost before = ListTag::ByteArray(items)@->ByteArray_0;
            let ghost item = v@;
            items.push(v);
            assert(ListTag::ByteArray(items)@->ByteArray_0 =~= before.push(item));
            ListTag::ByteArray(items)
        },
        (ListTag::String(mut items), Tag::String(v)) => {
            let ghost before = ListTag::String(items)@->String_0;
            let ghost item = v@;
            items.push(v);
            assert(ListTag::String(items)@->String_0 =~= before.push(item));
            ListTag::String(items)
        },
        (ListTag::List(mut items), Tag::List(v)) => {
            let ghost before = items@;
            items.push(v);
            assert(items@.drop_last() =~= before);
            ListTag::List(items)
        },
        (ListTag::Compound(mut items), Tag::Compound(v)) => {
            let ghost before = items@;
            items.push(v);
            assert(items@.drop_last() =~= before);
            ListTag::Compound(items)
        },
        (ListTag::IntArray(mut items), Tag::IntArray(v)) => {
            let ghost before = ListTag::IntArray(items)@->IntArray_0;
            let ghost item = v@;
            items.push(v);
            assert(ListTag::IntArray(items)@->IntArray_0 =~= before.push(item));
            ListTag::IntArray(items)
        },
        (ListTag::LongArray(mut items), Tag::LongArray(v)) => {
            let ghost before = ListTag::LongArray(items)@->LongArray_0;
            let ghost item = v@;
            items.push(v);
            assert(ListTag::LongArray(items)@->LongArray_0 =~= before.push(item));
            ListTag::LongArray(items)
        },
        (list, _) => list,
    }
}

/// The number that an item of a typed array of kind `kind` stands for, if
/// `token` is one.
pub fn array_element(kind: ArrayType, token: &Token) -> (item: Option<i64>)
    ensures
        match array_item(kind, token@) {
            Some(v) => item == Some(v as i64) && -9223372036854775808 <= v <= 9223372036854775807,
            None => item is None,
        },
{
    match (kind, token) {
        (ArrayType::Byte, Token::Integer(text, IntegerType::Byte)) => number_of(
            text.as_str(),
            -128,
            127,
        ),
        (ArrayType::Byte, Token::Boolean(on)) => Some(
            if *on {
                1
            } else {
                0
            },
        ),
        (ArrayType::Int, Token::Integer(text, IntegerType::Int)) => number_of(
            text.as_str(),
            -2147483648,
            2147483647,
        ),
        (ArrayType::Long, Token::Integer(text, IntegerType::Long)) => number_of(
            text.as_str(),
            -9223372036854775808,
            9223372036854775807,
        ),
        _ => None,
    }
}

/// Whether a parsing result stands for the result that the grammar gives.
pub open spec fn parsed(
    found: Result<(Tag, usize), usize>,
    wanted: Result<(TagValue, int), int>,
) -> bool {
    match (found, wanted) {
        (Ok((tag, end)), Ok((value, behind))) => tag@ == value && end == behind,
        (Err(at), Err(position)) => at == position,
        _ => false,
    }
}

/// The numbers of `items` as signed bytes.
fn narrow_bytes(items: &Vec<i64>) -> (bytes: Vec<i8>)
    requires
        forall|i: int| 0 <= i < items@.len() ==> -128 <= #[trigger] items@[i] <= 127,
    ensures
        bytes@ == Seq::new(items@.len(), |i: int| items@[i] as int as i8),
{
    let mut bytes: Vec<i8> = Vec::new();
    let mut i: usize = 0;
    while i < items.len()
        invariant
            i <= items@.len(),
            forall|i: int| 0 <= i < items@.len() ==> -128 <= #[trigger] items@[i] <= 127,
            bytes@ == Seq::new(i as nat, |k: int| items@[k] as int as i8),
        decreases items@.len() - i,
    {
        bytes.push(items[i] as i8);
        i = i + 1;
        assert(bytes@ =~= Seq::new(i as nat, |k: int| items@[k] as int as i8));
    }
    bytes
}

/// The numbers of `items` as 32-bit integers.
fn narrow_ints(items: &Vec<i64>) -> (ints: Vec<i32>)
    requires
        forall|i: int| 0 <= i < items@.len() ==> -2147483648 <= #[trigger] items@[i] <= 2147483647,
    ensures
        ints@ == Seq::new(items@.len(), |i: int| items@[i] as int as i32),
{
    let mut ints: Vec<i32> = Vec::new();
    let mut i: usize = 0;
    while i < items.len()
        invariant
            i <= items@.len(),
            forall|i: int|
                0 <= i < items@.len() ==> -2147483648 <= #[trigger] items@[i] <= 2147483647,
            ints@ == Seq::new(i as nat, |k: int| items@[k] as int as i32),
        decreases items@.len() - i,
    {
        ints.push(items[i] as i32);
        i = i + 1;
        assert(ints@ =~= Seq::new(i as nat, |k: int| items@[k] as int as i32));
    }
    ints
}

/// The numbers of a sequence as mathematical integers.
pub open spec fn as_ints(items: Seq<i64>) -> Seq<int> {
    Seq::new(items.len(), |i: int| items[i] as int)
}

/// Whether each of `items` fits the items of a typed array of kind `kind`.
pub open spec fn items_fit(kind: ArrayType, items: Seq<i64>) -> bool {
    forall|i: int|
        0 <= i < items.len() ==> match kind {
            ArrayType::Byte => -128 <= #[trigger] items[i] <= 127,
            ArrayType::Int => -2147483648 <= items[i] <= 2147483647,
            ArrayType::Long => true,
        }
}

/// What an item of a typed array stands for fits the kind of the array.
pub proof fn lemma_array_item_fits(kind: ArrayType, token: TokenValue)
    ensures
        match array_item(kind, token) {
            Some(v) => match kind {
                ArrayType::Byte => -128 <= v <= 127,
                ArrayType::Int => -2147483648 <= v <= 2147483647,
                ArrayType::Long => -9223372036854775808 <= v <= 9223372036854775807,
            },
            None => true,
        },
{
}

/// The tag of a typed array of kind `kind` with the items `items`.
fn array_of(kind: ArrayType, items: Vec<i64>) -> (tag: Tag)
    requires
        items_fit(kind, items@),
    ensures
        tag@ == array_tag(kind, as_ints(items@)),
{
    match kind {
        ArrayType::Byte => {
            let bytes = narrow_bytes(&items);
            assert(bytes@ =~= array_tag(kind, as_ints(items@))->ByteArray_0);
            Tag::ByteArray(bytes)
        },
        ArrayType::Int => {
            let ints = narrow_ints(&items);
            assert(ints@ =~= array_tag(kind, as_ints(items@))->IntArray_0);
            Tag::IntArray(ints)
        },
        ArrayType::Long => {
            assert(items@ =~= array_tag(kind, as_ints(items@))->LongArray_0);
            Tag::LongArray(items)
        },
    }
}

/// Reads the items of a typed array of kind `kind` from `pos` on, behind the
/// start of the array, up to the closing bracket.
pub fn array(tokens: &[Token], pos: usize, kind: ArrayType) -> (r: Result<(Tag, usize), usize>)
    requires
        pos <= tokens@.len(),
    ensures
        parsed(
            r,
            match parse_array(token_values(tokens@), pos as int, kind, Seq::empty()) {
                Ok((items, end)) => Ok((array_tag(kind, items), end)),
                Err(e) => Err(e),
            },
        ),
        r is Ok ==> pos < r->Ok_0.1 <= tokens@.len(),
        r is Err ==> r->Err_0 <= tokens@.len(),
{
    let ghost values = token_values(tokens@);
    let mut items: Vec<i64> = Vec::new();
    let mut at: usize = pos;
    proof {
        assert(as_ints(items@) =~= Seq::empty());
    }
    loop
        invariant
            pos <= at <= tokens@.len(),
            values == token_values(tokens@),
            items_fit(kind, items@),
            parse_array(values, pos as int, kind, Seq::empty()) == parse_array(
                values,
                at as int,
                kind,
                as_ints(items@),
            ),
        decreases tokens@.len() - at,
    {
        if at >= tokens.len() {
            return Err(at);
        }
        if let Token::CloseBracket = &tokens[at] {
            return Ok((array_of(kind, items), at + 1));
        }
        let item = match array_element(kind, &tokens[at]) {
            None => {
                return Err(at);
            },
            Some(item) => item,
        };
        proof {
            lemma_array_item_fits(kind, values[at as int]);
        }
        let ghost before = as_ints(items@);
        items.push(item);
        proof {
            assert(as_ints(items@) =~= before.push(item as int));
        }
        if at + 1 >= tokens.len() {
            return Err(at + 1);
        }
        match &tokens[at + 1] {
            Token::Comma => {
                at = at + 2;
            },
            Token::CloseBracket => {
                return Ok((array_of(kind, items), at + 2));
            },
            _ => {
                return Err(at + 1);
            },
        }
    }
}

/// Reads the tag that starts at `pos`, going no more than `limit` lists and
/// dictionaries deep.
pub fn value(tokens: &[Token], decimals: &[u64], pos: usize, limit: usize) -> (r: Result<
    (Tag, usize),
    usize,
>)
    requires
        pos <= tokens@.len(),
    ensures
        parsed(r, parse_value(token_values(tokens@), decimals@, pos as int, limit as nat)),
        r is Ok ==> pos < r->Ok_0.1 <= tokens@.len(),
        r is Err ==> r->Err_0 <= tokens@.len(),
    decreases tokens@.len() - pos, 0nat,
{
    if pos >= tokens.len() {
        return Err(pos);
    }
    match &tokens[pos] {
        Token::OpenBrace => if limit == 0 {
            Err(pos)
        } else {
            match entries(tokens, decimals, pos + 1, limit - 1) {
                Ok((map, end)) => Ok((Tag::Compound(map), end)),
                Err(e) => Err(e),
            }
        },
        Token::OpenBracket => if limit == 0 {
            Err(pos)
        } else {
            match list(tokens, decimals, pos + 1, limit - 1) {
                Ok((items, end)) => Ok((Tag::List(items), end)),
                Err(e) => Err(e),
            }
        },
        Token::ArrayStart(kind) => array(tokens, pos + 1, *kind),
        token => {
            let bits: u64 = if pos < decimals.len() {
                decimals[pos]
            } else {
                0
            };
            match scalar(token, bits) {
                Some(tag) => Ok((tag, pos + 1)),
                None => Err(pos),
            }
        },
    }
}

/// Reads the list whose first item starts at `pos`, behind the opening
/// bracket. The items may go `limit` lists and dictionaries deep.
pub fn list(tokens: &[Token], decimals: &[u64], pos: usize, limit: usize) -> (r: Result<
    (ListTag, usize),
    usize,
>)
    requires
        pos <= tokens@.len(),
    ensures
        match (r, parse_list(token_values(tokens@), decimals@, pos as int, limit as nat)) {
            (Ok((items, end)), Ok((value, behind))) => items@ == value && end == behind && pos < end
                <= tokens@.len(),
            (Err(at), Err(position)) => at == position && at <= tokens@.len(),
            _ => false,
        },
    decreases tokens@.len() - pos, 2nat,
{
    if pos >= tokens.len() {
        return Err(pos);
    }
    if let Token::CloseBracket = &tokens[pos] {
        return Ok((ListTag::Byte(Vec::new()), pos + 1));
    }
    let ghost values = token_values(tokens@);
    let mut items = match kind_of(&tokens[pos]) {
        None => {
            return Err(pos);
        },
        Some(id) => empty_list_of(id),
    };
    let mut at: usize = pos;
    loop
        invariant
            pos <= at <= tokens@.len(),
            values == token_values(tokens@),
            parse_list(values, decimals@, pos as int, limit as nat) == parse_items(
                values,
                decimals@,
                at as int,
                items@,
                limit as nat,
            ),
        decreases tokens@.len() - at,
    {
        if at >= tokens.len() {
            return Err(at);
        }
        if let Token::CloseBracket = &tokens[at] {
            return Ok((items, at + 1));
        }
        let kind = kind_of(&tokens[at]);
        let wanted = items.id();
        match kind {
            None => {
                return Err(at);
            },
            Some(id) => {
                if id != wanted {
                    return Err(at);
                }
            },
        }
        let (tag, end) = match value(tokens, decimals, at, limit) {
            Err(e) => {
                return Err(e);
            },
            Ok(read) => read,
        };
        items = push_item(items, tag);
        if end >= tokens.len() {
            return Err(end);
        }
        match &tokens[end] {
            Token::Comma => {
                at = end + 1;
            },
            Token::CloseBracket => {
                return Ok((items, end + 1));
            },
            _ => {
                return Err(end);
            },
        }
    }
}

/// Reads the entries of a dictionary from `pos` on, behind the opening
/// brace, up to the closing brace. The values may go `limit` lists and
/// dictionaries deep.
pub fn entries(tokens: &[Token], decimals: &[u64], pos: usize, limit: usize) -> (r: Result<
    (Compound, usize),
    usize,
>)
    requires
        pos <= tokens@.len(),
    ensures
        match (
            r,
            parse_entries(token_values(tokens@), decimals@, pos as int, Seq::empty(), limit as nat),
        ) {
            (Ok((map, end)), Ok((value, behind))) => map@ == value && end == behind && pos < end
                <= tokens@.len(),
            (Err(at), Err(position)) => at == position && at <= tokens@.len(),
            _ => false,
        },
    decreases tokens@.len() - pos, 1nat,
{
    let ghost values = token_values(tokens@);
    let mut map = Compound::new();
    let mut at: usize = pos;
    loop
        invariant
            pos <= at <= tokens@.len(),
            values == token_values(tokens@),
            parse_entries(values, decimals@, pos as int, Seq::empty(), limit as nat)
                == parse_entries(values, decimals@, at as int, map@, limit as nat),
        decreases tokens@.len() - at,
    {
        if at >= tokens.len() {
            return Err(at);
        }
        let name: String = match &tokens[at] {
            Token::CloseBrace => {
                return Ok((map, at + 1));
            },
            Token::Identifier(text) => text.clone(),
            Token::StringLiteral(text) => text.clone(),
            _ => {
                return Err(at);
            },
        };
        if at + 1 >= tokens.len() {
            return Err(at + 1);
        }
        match &tokens[at + 1] {
            Token::Colon => {},
            _ => {
                return Err(at + 1);
            },
        }
        let (tag, end) = match value(tokens, decimals, at + 2, limit) {
            Err(e) => {
                return Err(e);
            },
            Ok(read) => read,
        };
        map.insert(name, tag);
        if end >= tokens.len() {
            return Err(end);
        }
        match &tokens[end] {
            Token::Comma => {
                at = end + 1;
            },
            Token::CloseBrace => {
                return Ok((map, end + 1));
            },
            _ => {
                return Err(end);
            },
        }
    }
}

/// A copy of a token.
fn copy_token(token: &Token) -> (copy: Token)
    ensures
        copy@ == token@,
{
    match token {
        Token::Comma => Token::Comma,
        Token::Colon => Token::Colon,
        Token::ArrayStart(kind) => Token::ArrayStart(*kind),
        Token::OpenBracket => Token::OpenBracket,
        Token::CloseBracket => Token::CloseBracket,
        Token::OpenBrace => Token::OpenBrace,
        Token::CloseBrace => Token::CloseBrace,
        Token::Boolean(on) => Token::Boolean(*on),
        Token::Integer(digits, kind) => Token::Integer(digits.clone(), *kind),
        Token::Decimal(digits, kind) => Token::Decimal(digits.clone(), *kind),
        Token::Identifier(text) => Token::Identifier(text.clone()),
        Token::StringLiteral(text) => Token::StringLiteral(text.clone()),
    }
}

/// Whether `error` says that the token at `position` of `tokens` does not
/// fit the grammar: it names the position, and the token there, or no token
/// where the tokens end before it.
pub open spec fn fails_at(error: ParseError, tokens: Seq<TokenValue>, position: int) -> bool {
    match error {
        ParseError::ParseFailure { token, position: at } => at == position && match token {
            Some(found) => 0 <= position < tokens.len() && found@ == tokens[position],
            None => position >= tokens.len(),
        },
        ParseError::TokenizeError { .. } => false,
    }
}

/// Reads the tag that the tokens start with, going no more than `limit`
/// lists and dictionaries deep. `decimals` holds, at the index of each
/// decimal token, the bit pattern of the number that its digits stand for; a
/// decimal without an entry gets the bits 0. Tokens behind the tag are not
/// read. Fails with [`ParseError::ParseFailure`] at the first token that does
/// not fit the grammar, which a bracket or a brace beyond the limit does not.
pub fn parse_tokens_within(tokens: &[Token], decimals: &[u64], limit: usize) -> (r: Result<
    Tag,
    ParseError,
>)
    ensures
        match parse(token_values(tokens@), decimals@, limit as nat) {
            Ok(value) => r is Ok && r->Ok_0@ == value,
            Err(position) => r is Err && fails_at(r->Err_0, token_values(tokens@), position),
        },
{
    match value(tokens, decimals, 0, limit) {
        Ok((tag, _)) => Ok(tag),
        Err(position) => {
            let token = if position < tokens.len() {
                Some(copy_token(&tokens[position]))
            } else {
                None
            };
            Err(ParseError::ParseFailure { token, position })
        },
    }
}

/// Reads the tag that the tokens start with, as deep as the tokens go.
pub fn parse_tokens(tokens: &[Token], decimals: &[u64]) -> (r: Result<Tag, ParseError>)
    ensures
        match parse(token_values(tokens@), decimals@, tokens@.len()) {
            Ok(value) => r is Ok && r->Ok_0@ == value,
            Err(position) => r is Err && fails_at(r->Err_0, token_values(tokens@), position),
        },
{
    parse_tokens_within(tokens, decimals, tokens.len())
}

impl Tag {
    /// Reads a tag from its textual notation, going no more than `limit`
    /// lists and dictionaries deep: cuts `source` into tokens and reads the
    /// tag that they start with. `decimals` holds, at the index of each
    /// decimal token, the bit pattern of the number that its digits stand
    /// for. A text that cannot be cut into tokens fails with
    /// [`ParseError::TokenizeError`], tokens that do not fit the grammar with
    /// [`ParseError::ParseFailure`].
    pub fn parse_within(source: &str, decimals: &[u64], limit: usize) -> (r: Result<
        Tag,
        ParseError,
    >)
        ensures
            match lex(source@) {
                Err(position) => r is Err && r->Err_0 == (ParseError::TokenizeError {
                    position: position as usize,
                }),
                Ok(tokens) => match parse(tokens, decimals@, limit as nat) {
                    Ok(value) => r is Ok && r->Ok_0@ == value,
                    Err(position) => r is Err && fails_at(r->Err_0, tokens, position),
                },
            },
    {
        match Token::parse(source) {
            Err(e) => Err(e),
            Ok(tokens) => parse_tokens_within(tokens.as_slice(), decimals, limit),
        }
    }

    /// Reads a tag from its textual notation, as deep as its tokens go.
    pub fn parse(source: &str, decimals: &[u64]) -> (r: Result<Tag, ParseError>)
        ensures
            match lex(source@) {
                Err(position) => r is Err && r->Err_0 == (ParseError::TokenizeError {
                    position: position as usize,
                }),
                Ok(tokens) => match parse(tokens, decimals@, tokens.len()) {
                    Ok(value) => r is Ok && r->Ok_0@ == value,
                    Err(position) => r is Err && fails_at(r->Err_0, tokens, position),
                },
            },
    {
        match Token::parse(source) {
            Err(e) => Err(e),
            Ok(tokens) => parse_tokens(tokens.as_slice(), decimals),
        }
    }
}

/// A list holds items of one kind: where an item starts with a token of
/// another kind than the items before it, the list is refused at that token.
pub proof fn lemma_mixed_list_fails(
    tokens: Seq<TokenValue>,
    decimals: Seq<u64>,
    pos: int,
    seen: ListValue,
    limit: nat,
)
    requires
        0 <= pos < tokens.len(),
        tokens[pos] != TokenValue::CloseBracket,
        element_kind(tokens[pos]) != Some(seen.id()),
    ensures
        parse_items(tokens, decimals, pos, seen, limit) == Err::<(ListValue, int), int>(pos),
{
}

/// A limit of as many levels as there are tokens left is as good as any
/// larger one: each list and each dictionary takes a token of its own.
pub proof fn lemma_value_limit(
    tokens: Seq<TokenValue>,
    decimals: Seq<u64>,
    pos: int,
    limit: nat,
    larger: nat,
)
    requires
        0 <= pos,
        tokens.len() - pos <= limit <= larger,
    ensures
        parse_value(tokens, decimals, pos, limit) == parse_value(tokens, decimals, pos, larger),
    decreases tokens.len() - pos, 0nat,
{
    match token_at(tokens, pos) {
        Some(TokenValue::OpenBrace) => lemma_entries_limit(
            tokens,
            decimals,
            pos + 1,
            Seq::empty(),
            (limit - 1) as nat,
            (larger - 1) as nat,
        ),
        Some(TokenValue::OpenBracket) => lemma_list_limit(
            tokens,
            decimals,
            pos + 1,
            (limit - 1) as nat,
            (larger - 1) as nat,
        ),
        _ => {},
    }
}

/// In a list, a limit of as many levels as there are tokens left is as good
/// as any larger one.
pub proof fn lemma_list_limit(
    tokens: Seq<TokenValue>,
    decimals: Seq<u64>,
    pos: int,
    limit: nat,
    larger: nat,
)
    requires
        0 <= pos,
        tokens.len() - pos <= limit <= larger,
    ensures
        parse_list(tokens, decimals, pos, limit) == parse_list(tokens, decimals, pos, larger),
    decreases tokens.len() - pos, 2nat,
{
    match token_at(tokens, pos) {
        None => {},
        Some(TokenValue::CloseBracket) => {},
        Some(token) => match element_kind(token) {
            None => {},
            Some(id) => lemma_items_limit(tokens, decimals, pos, empty_list(id), limit, larger),
        },
    }
}

/// Among the items of a list, a limit of as many levels as there are tokens
/// left is as good as any larger one.
pub proof fn lemma_items_limit(
    tokens: Seq<TokenValue>,
    decimals: Seq<u64>,
    pos: int,
    seen: ListValue,
    limit: nat,
    larger: nat,
)
    requires
        0 <= pos,
        tokens.len() - pos <= limit <= larger,
    ensures
        parse_items(tokens, decimals, pos, seen, limit) == parse_items(
            tokens,
            decimals,
            pos,
            seen,
            larger,
        ),
    decreases tokens.len() - pos, 1nat,
{
    lemma_value_limit(tokens, decimals, pos, limit, larger);
    match parse_value(tokens, decimals, pos, limit) {
        Ok((tag, end)) => {
            if pos <= end && token_at(tokens, end) == Some(TokenValue::Comma) {
                lemma_items_limit(tokens, decimals, end + 1, list_push(seen, tag), limit, larger);
            }
        },
        Err(_) => {},
    }
}

/// Among the entries of a dictionary, a limit of as many levels as there are
/// tokens left is as good as any larger one.
pub proof fn lemma_entries_limit(
    tokens: Seq<TokenValue>,
    decimals: Seq<u64>,
    pos: int,
    seen: Entries,
    limit: nat,
    larger: nat,
)
    requires
        0 <= pos,
        tokens.len() - pos <= limit <= larger,
    ensures
        parse_entries(tokens, decimals, pos, seen, limit) == parse_entries(
            tokens,
            decimals,
            pos,
            seen,
            larger,
        ),
    decreases tokens.len() - pos, 1nat,
{
    if pos + 2 <= tokens.len() {
        lemma_value_limit(tokens, decimals, pos + 2, limit, larger);
        match (key_of(tokens[pos]), parse_value(tokens, decimals, pos + 2, limit)) {
            (Some(name), Ok((tag, end))) => {
                if pos <= end && token_at(tokens, end) == Some(TokenValue::Comma) {
                    lemma_entries_limit(
                        tokens,
                        decimals,
                        end + 1,
                        insert_entry(seen, name, tag),
                        limit,
                        larger,
                    );
                }
            },
            _ => {},
        }
    } else if pos + 1 == tokens.len() {
        assert(token_at(tokens, pos + 1) is None);
    }
}

} // verus!
