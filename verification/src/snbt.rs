//! The textual notation: its tokens and how a string is cut into them.
//!
//! | Tag        | Notation                                     |
//! |------------|----------------------------------------------|
//! | Byte       | `<number>b` or `<number>B`, `true`, `false`  |
//! | Short      | `<number>s` or `<number>S`                   |
//! | Int        | `<integer>`                                  |
//! | Long       | `<number>l` or `<number>L`                   |
//! | Float      | `<number>f` or `<number>F`                   |
//! | Double     | `<decimal>`, `<number>d` or `<number>D`      |
//! | ByteArray  | `[B; 0b, 1b, 2b]`                            |
//! | String     | `"<text>"`, `'<text>'` or an identifier      |
//! | List       | `[<tag>, ...]`                               |
//! | Compound   | `{ <name> : <tag>, ... }`                    |
//! | IntArray   | `[I; 0, 1, 2]`                               |
//! | LongArray  | `[L; 0l, 1l, 2l]`                            |
//!
//! An identifier is made of the characters `a-z A-Z 0-9 + - . _`.

use crate::text::{chars_of, push_char, string_of};
use vstd::prelude::*;

verus! {

/// The kind of the items of a typed array.
#[derive(Clone, Copy, PartialEq, Eq, Structural, PartialOrd, Ord, Hash, Debug)]
pub enum ArrayType {
    Byte,
    Int,
    Long,
}

/// The kind that the suffix of an integer names.
#[derive(Clone, Copy, PartialEq, Eq, Structural, PartialOrd, Ord, Hash, Debug)]
pub enum IntegerType {
    Byte,
    Int,
    Short,
    Long,
}

/// The kind that the suffix of a decimal names.
#[derive(Clone, Copy, PartialEq, Eq, Structural, PartialOrd, Ord, Hash, Debug)]
pub enum DecimalType {
    Float,
    Double,
}

/// A token of the textual notation.
#[derive(Clone, PartialEq, Eq, PartialOrd, Ord, Hash, Debug)]
pub enum Token {
    Comma,
    Colon,
    ArrayStart(ArrayType),
    OpenBracket,
    CloseBracket,
    OpenBrace,
    CloseBrace,
    Boolean(bool),
    /// The sign and the digits, and the kind that the suffix names.
    Integer(String, IntegerType),
    /// The sign and the digits with their point, and the kind that the suffix
    /// names.
    Decimal(String, DecimalType),
    Identifier(String),
    /// The text between the quotes, with its escapes resolved.
    StringLiteral(String),
}

/// The mathematical value of a [`Token`].
pub enum TokenValue {
    Comma,
    Colon,
    ArrayStart(ArrayType),
    OpenBracket,
    CloseBracket,
    OpenBrace,
    CloseBrace,
    Boolean(bool),
    Integer(Seq<char>, IntegerType),
    Decimal(Seq<char>, DecimalType),
    Identifier(Seq<char>),
    StringLiteral(Seq<char>),
}

impl View for Token {
    type V = TokenValue;

    open spec fn view(&self) -> TokenValue {
        match self {
            Token::Comma => TokenValue::Comma,
            Token::Colon => TokenValue::Colon,
            Token::ArrayStart(kind) => TokenValue::ArrayStart(*kind),
            Token::OpenBracket => TokenValue::OpenBracket,
            Token::CloseBracket => TokenValue::CloseBracket,
            Token::OpenBrace => TokenValue::OpenBrace,
            Token::CloseBrace => TokenValue::CloseBrace,
            Token::Boolean(on) => TokenValue::Boolean(*on),
            Token::Integer(digits, kind) => TokenValue::Integer(digits@, *kind),
            Token::Decimal(digits, kind) => TokenValue::Decimal(digits@, *kind),
            Token::Identifier(text) => TokenValue::Identifier(text@),
            Token::StringLiteral(text) => TokenValue::StringLiteral(text@),
        }
    }
}

/// The values of a sequence of tokens.
pub open spec fn token_values(tokens: Seq<Token>) -> Seq<TokenValue> {
    Seq::new(tokens.len(), |i: int| tokens[i]@)
}

/// Why a text could not be read.
#[derive(Clone, PartialEq, Eq, Debug)]
pub enum ParseError {
    /// No token starts at the character with this index.
    TokenizeError { position: usize },
    /// The token with this index, or the end of the tokens where `token` is
    /// nothing, does not fit the grammar.
    ParseFailure { token: Option<Token>, position: usize },
}

/// A set of characters that a run is made of.
#[derive(Clone, Copy, PartialEq, Eq, Structural, Debug)]
pub enum Run {
    /// The digits `0` to `9`.
    Digits,
    /// ASCII letters, digits and `_`.
    Word,
    /// ASCII letters, digits and `+ - _ .`: the characters of an identifier.
    Ident,
    /// White space.
    Blank,
}

/// Whether Unicode counts `c` as white space.
pub uninterp spec fn unicode_whitespace(c: char) -> bool;

/// Whether Unicode counts `c` as a letter or a number.
pub uninterp spec fn unicode_alphanumeric(c: char) -> bool;

/// Whether `c` is one of the digits `0` to `9`.
pub open spec fn is_digit(c: char) -> bool {
    48 <= c as u32 <= 57
}

/// Whether `c` is an ASCII letter.
pub open spec fn is_letter(c: char) -> bool {
    65 <= c as u32 <= 90 || 97 <= c as u32 <= 122
}

/// Whether `c` belongs to `run`.
pub open spec fn in_run(run: Run, c: char) -> bool {
    match run {
        Run::Digits => is_digit(c),
        Run::Word => is_letter(c) || is_digit(c) || c == '_',
        Run::Ident => is_letter(c) || is_digit(c) || c == '+' || c == '-' || c == '_' || c == '.',
        Run::Blank => unicode_whitespace(c),
    }
}

/// Where the longest run of characters of `run` that starts at `pos` ends.
pub open spec fn run_end(s: Seq<char>, pos: int, run: Run) -> int
    decreases s.len() - pos,
{
    if 0 <= pos < s.len() && in_run(run, s[pos]) {
        run_end(s, pos + 1, run)
    } else {
        pos
    }
}

/// The character at `pos` where the identifier characters that start there
/// are that one character alone.
pub open spec fn lone_letter(s: Seq<char>, pos: int) -> Option<char> {
    if 0 <= pos < s.len() && run_end(s, pos, Run::Ident) == pos + 1 {
        Some(s[pos])
    } else {
        None
    }
}

/// Whether a number may end before `pos`: the text ends there, or the
/// character there is no letter or number and none of `_ + - .`.
pub open spec fn number_may_end(s: Seq<char>, pos: int) -> bool {
    pos >= s.len() || !(unicode_alphanumeric(s[pos]) || s[pos] == '_' || s[pos] == '+' || s[pos]
        == '-' || s[pos] == '.')
}

/// Where the digits of a whole number that starts at `pos` end: behind a
/// single `0`, or behind all the digits that follow a digit from 1 to 9.
pub open spec fn whole_end(s: Seq<char>, pos: int) -> Option<int> {
    if 0 <= pos < s.len() && s[pos] == '0' {
        Some(pos + 1)
    } else if 0 <= pos < s.len() && is_digit(s[pos]) {
        Some(run_end(s, pos + 1, Run::Digits))
    } else {
        None
    }
}

/// Where the digits start in a number at `pos`: behind the sign `-` if
/// there is one.
pub open spec fn behind_sign(s: Seq<char>, pos: int) -> int {
    if 0 <= pos < s.len() && s[pos] == '-' {
        pos + 1
    } else {
        pos
    }
}

/// The kind that a suffix letter of an integer names.
pub open spec fn integer_kind(letter: Option<char>) -> Option<IntegerType> {
    match letter {
        Some(c) => if c == 'b' || c == 'B' {
            Some(IntegerType::Byte)
        } else if c == 's' || c == 'S' {
            Some(IntegerType::Short)
        } else if c == 'l' || c == 'L' {
            Some(IntegerType::Long)
        } else {
            None
        },
        None => None,
    }
}

/// The kind that a suffix letter of a decimal names.
pub open spec fn decimal_kind(letter: Option<char>) -> Option<DecimalType> {
    match letter {
        Some(c) => if c == 'd' || c == 'D' {
            Some(DecimalType::Double)
        } else if c == 'f' || c == 'F' {
            Some(DecimalType::Float)
        } else {
            None
        },
        None => None,
    }
}

/// The kind of array that the letter behind `[` names.
pub open spec fn array_kind(letter: Option<char>) -> Option<ArrayType> {
    match letter {
        Some(c) => if c == 'b' || c == 'B' {
            Some(ArrayType::Byte)
        } else if c == 'i' || c == 'I' {
            Some(ArrayType::Int)
        } else if c == 'l' || c == 'L' {
            Some(ArrayType::Long)
        } else {
            None
        },
        None => None,
    }
}

/// The start of a typed array at `pos`: `[`, one of the letters `b i l` in
/// either case, and `;`, with nothing between them.
pub open spec fn lex_array_start(s: Seq<char>, pos: int) -> Option<(TokenValue, int)> {
    if 0 <= pos && pos + 2 < s.len() && s[pos] == '[' && s[pos + 2] == ';' {
        match array_kind(lone_letter(s, pos + 1)) {
            Some(kind) => Some((TokenValue::ArrayStart(kind), pos + 3)),
            None => None,
        }
    } else {
        None
    }
}

/// Whether the word characters that start at `pos` are exactly `word`.
pub open spec fn word_at(s: Seq<char>, pos: int, word: Seq<char>) -> bool {
    0 <= pos && pos + word.len() <= s.len() && s.subrange(pos, pos + word.len()) == word
        && run_end(s, pos, Run::Word) == pos + word.len()
}

/// The word `true` or `false` at `pos`.
pub open spec fn lex_boolean(s: Seq<char>, pos: int) -> Option<(TokenValue, int)> {
    if word_at(s, pos, "true"@) {
        Some((TokenValue::Boolean(true), pos + "true"@.len()))
    } else if word_at(s, pos, "false"@) {
        Some((TokenValue::Boolean(false), pos + "false"@.len()))
    } else {
        None
    }
}

/// The mark `c` at `pos` as the token `token`.
pub open spec fn lex_mark(s: Seq<char>, pos: int, c: char, token: TokenValue) -> Option<
    (TokenValue, int),
> {
    if 0 <= pos < s.len() && s[pos] == c {
        Some((token, pos + 1))
    } else {
        None
    }
}

/// An integer at `pos`: an optional `-`, a whole number, and an optional
/// suffix `b`, `s` or `l` in either case, where a number may end behind
/// them. Without a suffix the kind is `Int`.
pub open spec fn lex_integer(s: Seq<char>, pos: int) -> Option<(TokenValue, int)> {
    match whole_end(s, behind_sign(s, pos)) {
        None => None,
        Some(digits_end) => {
            let kind = integer_kind(lone_letter(s, digits_end));
            let end = if kind is Some {
                digits_end + 1
            } else {
                digits_end
            };
            if number_may_end(s, end) {
                Some(
                    (
                        TokenValue::Integer(
                            s.subrange(pos, digits_end),
                            if kind is Some {
                                kind->0
                            } else {
                                IntegerType::Int
                            },
                        ),
                        end,
                    ),
                )
            } else {
                None
            }
        },
    }
}

/// Where the digits of a decimal end whose whole number ends at
/// `whole`: behind the digits that follow a `.`, of which there is at least
/// one; or at `whole` itself where the suffix `d` or `f` stands there.
pub open spec fn fraction_end(s: Seq<char>, whole: int) -> Option<int> {
    if 0 <= whole < s.len() && s[whole] == '.' && run_end(s, whole + 1, Run::Digits) > whole + 1 {
        Some(run_end(s, whole + 1, Run::Digits))
    } else if decimal_kind(lone_letter(s, whole)) is Some {
        Some(whole)
    } else {
        None
    }
}

/// A decimal at `pos`: an optional `-`, a whole number, then a `.` with
/// digits or a suffix, and an optional suffix `d` or `f` in either case,
/// where a number may end behind them. Without a suffix the kind is
/// `Double`.
pub open spec fn lex_decimal(s: Seq<char>, pos: int) -> Option<(TokenValue, int)> {
    match whole_end(s, behind_sign(s, pos)) {
        None => None,
        Some(whole) => match fraction_end(s, whole) {
            None => None,
            Some(digits_end) => {
                let kind = decimal_kind(lone_letter(s, digits_end));
                let end = if kind is Some {
                    digits_end + 1
                } else {
                    digits_end
                };
                if number_may_end(s, end) {
                    Some(
                        (
                            TokenValue::Decimal(
                                s.subrange(pos, digits_end),
                                if kind is Some {
                                    kind->0
                                } else {
                                    DecimalType::Double
                                },
                            ),
                            end,
                        ),
                    )
                } else {
                    None
                }
            },
        },
    }
}

/// An identifier at `pos`: the longest run of identifier characters, of
/// which there is at least one.
pub open spec fn lex_identifier(s: Seq<char>, pos: int) -> Option<(TokenValue, int)> {
    if run_end(s, pos, Run::Ident) > pos && pos >= 0 {
        Some(
            (
                TokenValue::Identifier(s.subrange(pos, run_end(s, pos, Run::Ident))),
                run_end(s, pos, Run::Ident),
            ),
        )
    } else {
        None
    }
}

/// The character that stands for `c` behind a backslash: a control character
/// for `b f n r t 0`, and `c` itself for every other character.
pub open spec fn unescape(c: char) -> char {
    if c == 'b' {
        '\x08'
    } else if c == 'f' {
        '\x0C'
    } else if c == 'n' {
        '\n'
    } else if c == 'r' {
        '\r'
    } else if c == 't' {
        '\t'
    } else if c == '0' {
        '\0'
    } else {
        c
    }
}

/// The rest of a quoted text from `pos` on, behind the characters `seen`:
/// the whole text and the position behind the closing `quote`, or nothing
/// where the text ends before the quote is closed.
pub open spec fn quoted_rest(s: Seq<char>, pos: int, quote: char, seen: Seq<char>) -> Option<
    (Seq<char>, int),
>
    decreases s.len() - pos,
{
    if pos < 0 || pos >= s.len() {
        None
    } else if s[pos] == quote {
        Some((seen, pos + 1))
    } else if s[pos] == '\\' {
        if pos + 1 >= s.len() {
            None
        } else {
            quoted_rest(s, pos + 2, quote, seen.push(unescape(s[pos + 1])))
        }
    } else {
        quoted_rest(s, pos + 1, quote, seen.push(s[pos]))
    }
}

/// A quoted text at `pos`, between two `"` or two `'`.
pub open spec fn lex_string_literal(s: Seq<char>, pos: int) -> Option<(TokenValue, int)> {
    if 0 <= pos < s.len() && (s[pos] == '"' || s[pos] == '\'') {
        match quoted_rest(s, pos + 1, s[pos], Seq::empty()) {
            Some((text, end)) => Some((TokenValue::StringLiteral(text), end)),
            None => None,
        }
    } else {
        None
    }
}

/// The token made of the single character `c`, if there is one. An opening
/// bracket is a token of its own only where no typed array starts.
pub open spec fn punctuation(c: char) -> Option<TokenValue> {
    if c == ',' {
        Some(TokenValue::Comma)
    } else if c == ':' {
        Some(TokenValue::Colon)
    } else if c == '[' {
        Some(TokenValue::OpenBracket)
    } else if c == ']' {
        Some(TokenValue::CloseBracket)
    } else if c == '{' {
        Some(TokenValue::OpenBrace)
    } else if c == '}' {
        Some(TokenValue::CloseBrace)
    } else {
        None
    }
}

/// The token that starts at `pos` and the position behind it: the first that
/// fits of the start of a typed array, a punctuation mark, a boolean, an
/// integer, a decimal, an identifier and a quoted text.
pub open spec fn lex_token(s: Seq<char>, pos: int) -> Option<(TokenValue, int)> {
    if pos < 0 || pos >= s.len() {
        None
    } else if lex_array_start(s, pos) is Some {
        lex_array_start(s, pos)
    } else if punctuation(s[pos]) is Some {
        Some((punctuation(s[pos])->0, pos + 1))
    } else if lex_boolean(s, pos) is Some {
        lex_boolean(s, pos)
    } else if lex_integer(s, pos) is Some {
        lex_integer(s, pos)
    } else if lex_decimal(s, pos) is Some {
        lex_decimal(s, pos)
    } else if lex_identifier(s, pos) is Some {
        lex_identifier(s, pos)
    } else {
        lex_string_literal(s, pos)
    }
}

/// The tokens of `s` from `pos` on, behind the tokens `seen`; or the index of
/// the character at which no token starts. White space between tokens is
/// passed over. A text without any token fails at its end.
pub open spec fn lex_from(s: Seq<char>, pos: int, seen: Seq<TokenValue>) -> Result<
    Seq<TokenValue>,
    int,
>
    decreases s.len() - pos,
{
    if pos < 0 || pos >= s.len() {
        if seen.len() > 0 {
            Ok(seen)
        } else {
            Err(s.len() as int)
        }
    } else if unicode_whitespace(s[pos]) {
        lex_from(s, pos + 1, seen)
    } else {
        match lex_token(s, pos) {
            Some((token, end)) => if pos < end <= s.len() {
                lex_from(s, end, seen.push(token))
            } else {
                Err(pos)
            },
            None => Err(pos),
        }
    }
}

/// The tokens of `s`, or the index of the character at which no token
/// starts.
pub open spec fn lex(s: Seq<char>) -> Result<Seq<TokenValue>, int> {
    lex_from(s, 0, Seq::empty())
}

/// `char::is_whitespace`: whether Unicode counts `c` as white space.
#[verifier::external_body]
fn is_whitespace(c: char) -> (blank: bool)
    ensures
        blank == unicode_whitespace(c),
{
    c.is_whitespace()
}

/// `char::is_alphanumeric`: whether Unicode counts `c` as a letter or a
/// number.
#[verifier::external_body]
fn is_alphanumeric(c: char) -> (found: bool)
    ensures
        found == unicode_alphanumeric(c),
{
    c.is_alphanumeric()
}

impl Run {
    /// Whether `c` belongs to this run.
    pub fn contains(self, c: char) -> (found: bool)
        ensures
            found == in_run(self, c),
    {
        let n: u32 = c as u32;
        let letter = (65 <= n && n <= 90) || (97 <= n && n <= 122);
        let digit = 48 <= n && n <= 57;
        match self {
            Run::Digits => digit,
            Run::Word => letter || digit || c == '_',
            Run::Ident => letter || digit || c == '+' || c == '-' || c == '_' || c == '.',
            Run::Blank => is_whitespace(c),
        }
    }
}

/// Finds where the longest run of characters of `run` that starts at `pos`
/// ends.
pub fn scan(source: &[char], pos: usize, run: Run) -> (end: usize)
    requires
        pos <= source@.len(),
    ensures
        end == run_end(source@, pos as int, run),
        pos <= end <= source@.len() <= usize::MAX,
{
    let mut end: usize = pos;
    while end < source.len() && run.contains(source[end])
        invariant
            pos <= end <= source@.len(),
            run_end(source@, pos as int, run) == run_end(source@, end as int, run),
        decreases source@.len() - end,
    {
        end = end + 1;
    }
    end
}

/// The character at `pos` where the identifier characters that start there
/// are that one character alone.
fn lone_letter_at(source: &[char], pos: usize) -> (letter: Option<char>)
    requires
        pos <= source@.len(),
    ensures
        letter == lone_letter(source@, pos as int),
        letter is Some ==> pos < source@.len(),
{
    if pos < source.len() && scan(source, pos, Run::Ident) == pos + 1 {
        Some(source[pos])
    } else {
        None
    }
}

/// Whether a number may end before `pos`.
fn may_end_number(source: &[char], pos: usize) -> (free: bool)
    requires
        pos <= source@.len(),
    ensures
        free == number_may_end(source@, pos as int),
{
    if pos >= source.len() {
        return true;
    }
    let c = source[pos];
    !(is_alphanumeric(c) || c == '_' || c == '+' || c == '-' || c == '.')
}

/// Where the digits of a whole number that starts at `pos` end.
fn whole_number_end(source: &[char], pos: usize) -> (end: Option<usize>)
    requires
        pos <= source@.len(),
    ensures
        match whole_end(source@, pos as int) {
            Some(e) => end == Some(e as usize) && pos < e <= source@.len(),
            None => end is None,
        },
{
    if pos >= source.len() {
        return None;
    }
    let c = source[pos];
    if c == '0' {
        Some(pos + 1)
    } else if Run::Digits.contains(c) {
        Some(scan(source, pos + 1, Run::Digits))
    } else {
        None
    }
}

/// Where the digits start in a number at `pos`.
fn skip_sign(source: &[char], pos: usize) -> (start: usize)
    requires
        pos <= source@.len(),
    ensures
        start == behind_sign(source@, pos as int),
        pos <= start <= source@.len() <= usize::MAX,
{
    if pos < source.len() && source[pos] == '-' {
        pos + 1
    } else {
        pos
    }
}

/// The kind that a suffix letter of an integer names.
fn integer_suffix(letter: Option<char>) -> (kind: Option<IntegerType>)
    ensures
        kind == integer_kind(letter),
{
    match letter {
        Some(c) => if c == 'b' || c == 'B' {
            Some(IntegerType::Byte)
        } else if c == 's' || c == 'S' {
            Some(IntegerType::Short)
        } else if c == 'l' || c == 'L' {
            Some(IntegerType::Long)
        } else {
            None
        },
        None => None,
    }
}

/// The kind that a suffix letter of a decimal names.
fn decimal_suffix(letter: Option<char>) -> (kind: Option<DecimalType>)
    ensures
        kind == decimal_kind(letter),
{
    match letter {
        Some(c) => if c == 'd' || c == 'D' {
            Some(DecimalType::Double)
        } else if c == 'f' || c == 'F' {
            Some(DecimalType::Float)
        } else {
            None
        },
        None => None,
    }
}

/// The kind of array that the letter behind `[` names.
fn array_letter(letter: Option<char>) -> (kind: Option<ArrayType>)
    ensures
        kind == array_kind(letter),
{
    match letter {
        Some(c) => if c == 'b' || c == 'B' {
            Some(ArrayType::Byte)
        } else if c == 'i' || c == 'I' {
            Some(ArrayType::Int)
        } else if c == 'l' || c == 'L' {
            Some(ArrayType::Long)
        } else {
            None
        },
        None => None,
    }
}

/// Whether a lexing result at `pos` stands for the value that the grammar
/// gives, and ends behind `pos` and within `s`.
pub open spec fn lexed(
    found: Option<(Token, usize)>,
    wanted: Option<(TokenValue, int)>,
    s: Seq<char>,
    pos: int,
) -> bool {
    match (found, wanted) {
        (Some((token, end)), Some((value, behind))) => token@ == value && end == behind && pos
            < end <= s.len(),
        (None, None) => true,
        _ => false,
    }
}

/// Whether the word characters that start at `pos` are exactly `word`.
fn word_is(source: &[char], pos: usize, word: &str) -> (found: bool)
    requires
        pos <= source@.len(),
    ensures
        found == word_at(source@, pos as int, word@),
        found ==> pos + word@.len() <= source@.len() <= usize::MAX,
{
    let letters = chars_of(word);
    let count = letters.len();
    if source.len() - pos < count || scan(source, pos, Run::Word) != pos + count {
        return false;
    }
    let mut i: usize = 0;
    while i < count
        invariant
            i <= count == letters@.len(),
            letters@ == word@,
            pos + count <= source@.len() <= usize::MAX,
            forall|k: int| 0 <= k < i ==> source@[pos + k] == letters@[k],
        decreases count - i,
    {
        if source[pos + i] != letters[i] {
            assert(source@.subrange(pos as int, pos + count)[i as int] != letters@[i as int]);
            return false;
        }
        i = i + 1;
    }
    assert(source@.subrange(pos as int, pos + count) =~= letters@);
    true
}

/// The mark `c` at `pos` as the token `token`.
fn mark(source: &[char], pos: usize, c: char, token: Token) -> (r: Option<(Token, usize)>)
    requires
        pos <= source@.len(),
    ensures
        lexed(r, lex_mark(source@, pos as int, c, token@), source@, pos as int),
{
    if pos < source.len() && source[pos] == c {
        Some((token, pos + 1))
    } else {
        None
    }
}

/// The character that stands for `c` behind a backslash.
fn unescape_char(c: char) -> (plain: char)
    ensures
        plain == unescape(c),
{
    if c == 'b' {
        '\x08'
    } else if c == 'f' {
        '\x0C'
    } else if c == 'n' {
        '\n'
    } else if c == 'r' {
        '\r'
    } else if c == 't' {
        '\t'
    } else if c == '0' {
        '\0'
    } else {
        c
    }
}

impl Token {
    /// A comma at `pos`.
    pub fn comma(source: &[char], pos: usize) -> (r: Option<(Token, usize)>)
        requires
            pos <= source@.len(),
        ensures
            lexed(
                r,
                lex_mark(source@, pos as int, ',', TokenValue::Comma),
                source@,
                pos as int,
            ),
    {
        mark(source, pos, ',', Token::Comma)
    }

    /// A colon at `pos`.
    pub fn colon(source: &[char], pos: usize) -> (r: Option<(Token, usize)>)
        requires
            pos <= source@.len(),
        ensures
            lexed(
                r,
                lex_mark(source@, pos as int, ':', TokenValue::Colon),
                source@,
                pos as int,
            ),
    {
        mark(source, pos, ':', Token::Colon)
    }

    /// The start of a typed array at `pos`.
    pub fn array_start(source: &[char], pos: usize) -> (r: Option<(Token, usize)>)
        requires
            pos <= source@.len(),
        ensures
            lexed(r, lex_array_start(source@, pos as int), source@, pos as int),
    {
        if source.len() - pos < 3 || source[pos] != '[' || source[pos + 2] != ';' {
            return None;
        }
        match array_letter(lone_letter_at(source, pos + 1)) {
            Some(kind) => Some((Token::ArrayStart(kind), pos + 3)),
            None => None,
        }
    }

    /// An opening bracket at `pos`.
    pub fn open_bracket(source: &[char], pos: usize) -> (r: Option<(Token, usize)>)
        requires
            pos <= source@.len(),
        ensures
            lexed(
                r,
                lex_mark(source@, pos as int, '[', TokenValue::OpenBracket),
                source@,
                pos as int,
            ),
    {
        mark(source, pos, '[', Token::OpenBracket)
    }

    /// A closing bracket at `pos`.
    pub fn close_bracket(source: &[char], pos: usize) -> (r: Option<(Token, usize)>)
        requires
            pos <= source@.len(),
        ensures
            lexed(
                r,
                lex_mark(source@, pos as int, ']', TokenValue::CloseBracket),
                source@,
                pos as int,
            ),
    {
        mark(source, pos, ']', Token::CloseBracket)
    }

    /// An opening brace at `pos`.
    pub fn open_brace(source: &[char], pos: usize) -> (r: Option<(Token, usize)>)
        requires
            pos <= source@.len(),
        ensures
            lexed(
                r,
                lex_mark(source@, pos as int, '{', TokenValue::OpenBrace),
                source@,
                pos as int,
            ),
    {
        mark(source, pos, '{', Token::OpenBrace)
    }

    /// A closing brace at `pos`.
    pub fn close_brace(source: &[char], pos: usize) -> (r: Option<(Token, usize)>)
        requires
            pos <= source@.len(),
        ensures
            lexed(
                r,
                lex_mark(source@, pos as int, '}', TokenValue::CloseBrace),
                source@,
                pos as int,
            ),
    {
        mark(source, pos, '}', Token::CloseBrace)
    }

    /// The word `true` or `false` at `pos`.
    pub fn boolean(source: &[char], pos: usize) -> (r: Option<(Token, usize)>)
        requires
            pos <= source@.len(),
        ensures
            lexed(r, lex_boolean(source@, pos as int), source@, pos as int),
    {
        proof {
            reveal_strlit("true");
            reveal_strlit("false");
        }
        if word_is(source, pos, "true") {
            Some((Token::Boolean(true), pos + 4))
        } else if word_is(source, pos, "false") {
            Some((Token::Boolean(false), pos + 5))
        } else {
            None
        }
    }

    /// An integer at `pos`, with its suffix.
    pub fn integer(source: &[char], pos: usize) -> (r: Option<(Token, usize)>)
        requires
            pos <= source@.len(),
        ensures
            lexed(r, lex_integer(source@, pos as int), source@, pos as int),
    {
        let digits_end = match whole_number_end(source, skip_sign(source, pos)) {
            None => {
                return None;
            },
            Some(end) => end,
        };
        let (kind, end) = match integer_suffix(lone_letter_at(source, digits_end)) {
            Some(kind) => (kind, digits_end + 1),
            None => (IntegerType::Int, digits_end),
        };
        if may_end_number(source, end) {
            Some((Token::Integer(string_of(source, pos, digits_end), kind), end))
        } else {
            None
        }
    }

    /// A decimal at `pos`, with its suffix.
    pub fn decimal(source: &[char], pos: usize) -> (r: Option<(Token, usize)>)
        requires
            pos <= source@.len(),
        ensures
            lexed(r, lex_decimal(source@, pos as int), source@, pos as int),
    {
        let whole = match whole_number_end(source, skip_sign(source, pos)) {
            None => {
                return None;
            },
            Some(end) => end,
        };
        let digits_end = if whole < source.len() && source[whole] == '.' && scan(
            source,
            whole + 1,
            Run::Digits,
        ) > whole + 1 {
            scan(source, whole + 1, Run::Digits)
        } else if decimal_suffix(lone_letter_at(source, whole)).is_some() {
            whole
        } else {
            return None;
        };
        let (kind, end) = match decimal_suffix(lone_letter_at(source, digits_end)) {
            Some(kind) => (kind, digits_end + 1),
            None => (DecimalType::Double, digits_end),
        };
        if may_end_number(source, end) {
            Some((Token::Decimal(string_of(source, pos, digits_end), kind), end))
        } else {
            None
        }
    }

    /// An identifier at `pos`.
    pub fn identifier(source: &[char], pos: usize) -> (r: Option<(Token, usize)>)
        requires
            pos <= source@.len(),
        ensures
            lexed(r, lex_identifier(source@, pos as int), source@, pos as int),
    {
        let end = scan(source, pos, Run::Ident);
        if end > pos {
            Some((Token::Identifier(string_of(source, pos, end)), end))
        } else {
            None
        }
    }

    /// A quoted text at `pos`.
    pub fn string_literal(source: &[char], pos: usize) -> (r: Option<(Token, usize)>)
        requires
            pos <= source@.len(),
        ensures
            lexed(r, lex_string_literal(source@, pos as int), source@, pos as int),
    {
        if pos >= source.len() {
            return None;
        }
        let quote = source[pos];
        if quote != '"' && quote != '\'' {
            return None;
        }
        let mut text = String::new();
        let mut at: usize = pos + 1;
        loop
            invariant
                pos < at <= source@.len(),
                quote == source@[pos as int],
                quote == '"' || quote == '\'',
                quoted_rest(source@, pos + 1, quote, Seq::empty()) == quoted_rest(
                    source@,
                    at as int,
                    quote,
                    text@,
                ),
            decreases source@.len() - at,
        {
            if at >= source.len() {
                return None;
            }
            let c = source[at];
            if c == quote {
                return Some((Token::StringLiteral(text), at + 1));
            }
            if c == '\\' {
                if at + 1 >= source.len() {
                    return None;
                }
                push_char(&mut text, unescape_char(source[at + 1]));
                at = at + 2;
            } else {
                push_char(&mut text, c);
                at = at + 1;
            }
        }
    }

    /// The token that starts at `pos` and the position behind it.
    pub fn next(source: &[char], pos: usize) -> (r: Option<(Token, usize)>)
        requires
            pos < source@.len(),
        ensures
            lexed(r, lex_token(source@, pos as int), source@, pos as int),
    {
        let c = source[pos];
        let found = Token::array_start(source, pos);
        if found.is_some() {
            return found;
        }
        if c == ',' {
            return Some((Token::Comma, pos + 1));
        }
        if c == ':' {
            return Some((Token::Colon, pos + 1));
        }
        if c == '[' {
            return Some((Token::OpenBracket, pos + 1));
        }
        if c == ']' {
            return Some((Token::CloseBracket, pos + 1));
        }
        if c == '{' {
            return Some((Token::OpenBrace, pos + 1));
        }
        if c == '}' {
            return Some((Token::CloseBrace, pos + 1));
        }
        let found = Token::boolean(source, pos);
        if found.is_some() {
            return found;
        }
        let found = Token::integer(source, pos);
        if found.is_some() {
            return found;
        }
        let found = Token::decimal(source, pos);
        if found.is_some() {
            return found;
        }
        let found = Token::identifier(source, pos);
        if found.is_some() {
            return found;
        }
        Token::string_literal(source, pos)
    }

    /// Cuts `source` into tokens. White space between tokens is passed over.
    /// Fails with [`ParseError::TokenizeError`] and the index of the
    /// character at which no token starts; a text without any token fails at
    /// its end.
    pub fn parse(source: &str) -> (r: Result<Vec<Token>, ParseError>)
        ensures
            match lex(source@) {
                Ok(tokens) => r is Ok && token_values(r->Ok_0@) == tokens,
                Err(position) => r is Err && r->Err_0 == (ParseError::TokenizeError {
                    position: position as usize,
                }) && 0 <= position <= source@.len() <= usize::MAX,
            },
    {
        let chars = chars_of(source);
        let mut tokens: Vec<Token> = Vec::new();
        let mut at: usize = 0;
        proof {
            assert(token_values(tokens@) =~= Seq::empty());
        }
        while at < chars.len()
            invariant
                at <= chars@.len(),
                chars@ == source@,
                lex(source@) == lex_from(chars@, at as int, token_values(tokens@)),
            decreases chars@.len() - at,
        {
            if is_whitespace(chars[at]) {
                at = at + 1;
            } else {
                match Token::next(chars.as_slice(), at) {
                    None => {
                        return Err(ParseError::TokenizeError { position: at });
                    },
                    Some((token, end)) => {
                        let ghost before = token_values(tokens@);
                        tokens.push(token);
                        proof {
                            assert(token_values(tokens@) =~= before.push(token@));
                        }
                        at = end;
                    },
                }
            }
        }
        if tokens.len() > 0 {
            Ok(tokens)
        } else {
            Err(ParseError::TokenizeError { position: at })
        }
    }
}

} // verus!
