//! Writing values in the textual notation, and the indentation that goes
//! with it.

use crate::parse::{all_digits, digits_value, number_value};
use crate::snbt::{in_run, is_digit, lex_string_literal, quoted_rest, Run, TokenValue};
use crate::text::{chars_of, push_char};
use vstd::prelude::*;
use vstd::utf8::encode_utf8;

verus! {

/// A number of spaces: a power of two up to 32, or any number.
#[derive(Clone, Copy, PartialEq, Eq, Structural, Debug)]
pub enum SpaceCount {
    One,
    Two,
    Four,
    Eight,
    Sixteen,
    ThirtyTwo,
    Exact(usize),
}

/// What one level of indentation is made of.
#[derive(Clone, Copy, PartialEq, Eq, Debug)]
pub enum Indent {
    /// A single tab.
    Tabs,
    Spaces(SpaceCount),
    Text(&'static str),
}

/// An indentation: what one level is made of, and the number of levels.
#[derive(Clone, Copy, PartialEq, Eq, Debug)]
pub struct Indentation {
    indent: Indent,
    level: u32,
}

/// `text` written `count` times.
pub open spec fn repeated(text: Seq<char>, count: nat) -> Seq<char>
    decreases count,
{
    if count == 0 {
        Seq::empty()
    } else {
        repeated(text, (count - 1) as nat) + text
    }
}

/// The length of a repeated text is the product of length and count.
pub proof fn lemma_repeated_len(text: Seq<char>, count: nat)
    ensures
        repeated(text, count).len() == text.len() * count,
    decreases count,
{
    if count > 0 {
        lemma_repeated_len(text, (count - 1) as nat);
        assert(text.len() * count == text.len() * (count - 1) + text.len()) by (nonlinear_arith);
    } else {
        assert(text.len() * count == 0) by (nonlinear_arith)
            requires
                count == 0,
        ;
    }
}

impl SpaceCount {
    /// The number of spaces.
    pub open spec fn spec_len(self) -> nat {
        match self {
            SpaceCount::One => 1,
            SpaceCount::Two => 2,
            SpaceCount::Four => 4,
            SpaceCount::Eight => 8,
            SpaceCount::Sixteen => 16,
            SpaceCount::ThirtyTwo => 32,
            SpaceCount::Exact(count) => count as nat,
        }
    }

    /// The number of spaces.
    pub fn len(&self) -> (len: usize)
        ensures
            len == self.spec_len(),
    {
        match self {
            SpaceCount::One => 1,
            SpaceCount::Two => 2,
            SpaceCount::Four => 4,
            SpaceCount::Eight => 8,
            SpaceCount::Sixteen => 16,
            SpaceCount::ThirtyTwo => 32,
            SpaceCount::Exact(count) => *count,
        }
    }
}

impl Default for SpaceCount {
    /// Four spaces.
    fn default() -> (count: SpaceCount)
        ensures
            count == SpaceCount::Four,
    {
        SpaceCount::Four
    }
}

impl Default for Indent {
    /// A tab.
    fn default() -> (indent: Indent)
        ensures
            indent == Indent::Tabs,
    {
        Indent::Tabs
    }
}

impl Indent {
    /// The characters of one level.
    pub open spec fn text(self) -> Seq<char> {
        match self {
            Indent::Tabs => seq!['\t'],
            Indent::Spaces(count) => repeated(seq![' '], count.spec_len()),
            Indent::Text(text) => text@,
        }
    }

    /// The length of one level: 1 for a tab, the number of spaces, or the
    /// number of bytes of the text in UTF-8.
    pub open spec fn spec_len(self) -> nat {
        match self {
            Indent::Tabs => 1,
            Indent::Spaces(count) => count.spec_len(),
            Indent::Text(text) => (encode_utf8(text@).len() as usize) as nat,
        }
    }

    /// The length of one level: 1 for a tab, the number of spaces, or the
    /// number of bytes of the text.
    pub fn len(&self) -> (len: usize)
        ensures
            len == self.spec_len(),
    {
        match self {
            Indent::Tabs => 1,
            Indent::Spaces(count) => count.len(),
            Indent::Text(text) => text.len(),
        }
    }

    /// The indentation of this kind at level 0.
    pub fn indentation(self) -> (start: Indentation)
        ensures
            start.kind() == self,
            start.depth() == 0,
    {
        Indentation::new(self)
    }

    /// One space a level.
    pub fn space() -> (indent: Indent)
        ensures
            indent == Indent::Spaces(SpaceCount::One),
    {
        Indent::Spaces(SpaceCount::One)
    }

    /// Two spaces a level.
    pub fn two_spaces() -> (indent: Indent)
        ensures
            indent == Indent::Spaces(SpaceCount::Two),
    {
        Indent::Spaces(SpaceCount::Two)
    }

    /// Four spaces a level.
    pub fn four_spaces() -> (indent: Indent)
        ensures
            indent == Indent::Spaces(SpaceCount::Four),
    {
        Indent::Spaces(SpaceCount::Four)
    }

    /// Eight spaces a level.
    pub fn eight_spaces() -> (indent: Indent)
        ensures
            indent == Indent::Spaces(SpaceCount::Eight),
    {
        Indent::Spaces(SpaceCount::Eight)
    }

    /// Appends the characters of one level.
    pub fn write(&self, writer: &mut String)
        ensures
            final(writer)@ == old(writer)@ + self.text(),
    {
        match self {
            Indent::Tabs => {
                push_char(writer, '\t');
                assert(writer@ =~= old(writer)@ + self.text());
            },
            Indent::Spaces(count) => {
                let total = count.len();
                let mut i: usize = 0;
                assert(writer@ =~= old(writer)@ + repeated(seq![' '], 0));
                while i < total
                    invariant
                        i <= total,
                        writer@ == old(writer)@ + repeated(seq![' '], i as nat),
                    decreases total - i,
                {
                    push_char(writer, ' ');
                    i = i + 1;
                    assert(writer@ =~= old(writer)@ + repeated(seq![' '], i as nat));
                }
            },
            Indent::Text(text) => {
                writer.append(text);
            },
        }
    }
}

impl Indentation {
    /// What one level is made of.
    pub closed spec fn kind(self) -> Indent {
        self.indent
    }

    /// The number of levels.
    pub closed spec fn depth(self) -> nat {
        self.level as nat
    }

    /// The characters of the indentation: those of one level, once for each
    /// level.
    pub open spec fn text(self) -> Seq<char> {
        repeated(self.kind().text(), self.depth())
    }

    /// The number of levels.
    pub fn levels(&self) -> (levels: u32)
        ensures
            levels == self.depth(),
    {
        self.level
    }

    /// What one level is made of.
    pub fn unit(&self) -> (indent: Indent)
        ensures
            indent == self.kind(),
    {
        self.indent
    }

    /// The length of the indentation: the length of one level times the
    /// number of levels.
    pub fn len(&self) -> (len: usize)
        requires
            self.kind().spec_len() * self.depth() <= usize::MAX,
        ensures
            len == self.kind().spec_len() * self.depth(),
    {
        self.indent.len() * (self.level as usize)
    }

    /// The indentation of kind `indent` at level 0.
    pub fn new(indent: Indent) -> (start: Indentation)
        ensures
            start.kind() == indent,
            start.depth() == 0,
    {
        Indentation { indent, level: 0 }
    }

    /// This indentation at the level `level`.
    pub fn level(self, level: u32) -> (moved: Indentation)
        ensures
            moved.kind() == self.kind(),
            moved.depth() == level,
    {
        Indentation { indent: self.indent, level }
    }

    /// One space a level, at level 0.
    pub fn space() -> (start: Indentation)
        ensures
            start.kind() == Indent::Spaces(SpaceCount::One),
            start.depth() == 0,
    {
        Indentation::new(Indent::space())
    }

    /// Two spaces a level, at level 0.
    pub fn two_spaces() -> (start: Indentation)
        ensures
            start.kind() == Indent::Spaces(SpaceCount::Two),
            start.depth() == 0,
    {
        Indentation::new(Indent::two_spaces())
    }

    /// Four spaces a level, at level 0.
    pub fn four_spaces() -> (start: Indentation)
        ensures
            start.kind() == Indent::Spaces(SpaceCount::Four),
            start.depth() == 0,
    {
        Indentation::new(Indent::four_spaces())
    }

    /// Eight spaces a level, at level 0.
    pub fn eight_spaces() -> (start: Indentation)
        ensures
            start.kind() == Indent::Spaces(SpaceCount::Eight),
            start.depth() == 0,
    {
        Indentation::new(Indent::eight_spaces())
    }

    /// `count` spaces a level, at level 0.
    pub fn spaces(count: SpaceCount) -> (start: Indentation)
        ensures
            start.kind() == Indent::Spaces(count),
            start.depth() == 0,
    {
        Indentation::new(Indent::Spaces(count))
    }

    /// A tab a level, at level 0.
    pub fn tabs() -> (start: Indentation)
        ensures
            start.kind() == Indent::Tabs,
            start.depth() == 0,
    {
        Indentation::new(Indent::Tabs)
    }

    /// This indentation one level deeper.
    pub fn indent(self) -> (deeper: Indentation)
        requires
            self.depth() < u32::MAX,
        ensures
            deeper.kind() == self.kind(),
            deeper.depth() == self.depth() + 1,
    {
        Indentation { indent: self.indent, level: self.level + 1 }
    }

    /// This indentation one level less deep; at level 0, as it is.
    pub fn outdent(self) -> (higher: Indentation)
        ensures
            higher.kind() == self.kind(),
            higher.depth() == if self.depth() > 0 {
                self.depth() - 1
            } else {
                0
            },
    {
        if self.level > 0 {
            Indentation { indent: self.indent, level: self.level - 1 }
        } else {
            self
        }
    }

    /// Appends the characters of the indentation.
    pub fn write(&self, writer: &mut String)
        ensures
            final(writer)@ == old(writer)@ + self.text(),
    {
        let mut i: u32 = 0;
        assert(writer@ =~= old(writer)@ + repeated(self.kind().text(), 0));
        while i < self.level
            invariant
                i <= self.level,
                writer@ == old(writer)@ + repeated(self.kind().text(), i as nat),
            decreases self.level - i,
        {
            self.indent.write(writer);
            i = i + 1;
            assert(writer@ =~= old(writer)@ + repeated(self.kind().text(), i as nat));
        }
    }
}

/// The character of the digit `d`.
pub open spec fn digit_char(d: int) -> char {
    (48 + d) as char
}

/// The digits of `n` in decimal, without leading zeros.
pub open spec fn digits_of(n: nat) -> Seq<char>
    decreases n,
{
    if n < 10 {
        seq![digit_char(n as int)]
    } else {
        digits_of(n / 10).push(digit_char((n % 10) as int))
    }
}

/// The decimal text of `v`: a `-` before a negative number, and the digits.
pub open spec fn decimal_text(v: int) -> Seq<char> {
    if v < 0 {
        seq!['-'] + digits_of((-v) as nat)
    } else {
        digits_of(v as nat)
    }
}

/// Appends the digits of `n` in decimal.
pub fn write_digits(writer: &mut String, n: u64)
    ensures
        final(writer)@ == old(writer)@ + digits_of(n as nat),
    decreases n,
{
    if n >= 10 {
        write_digits(writer, n / 10);
    }
    let digit: u8 = (n % 10) as u8;
    push_char(writer, (48 + digit) as char);
    assert(writer@ =~= old(writer)@ + digits_of(n as nat));
}

/// Appends the decimal text of `v`.
pub fn write_decimal(writer: &mut String, v: i64)
    ensures
        final(writer)@ == old(writer)@ + decimal_text(v as int),
{
    if v < 0 {
        push_char(writer, '-');
        let magnitude: u64 = if v == i64::MIN {
            9223372036854775808
        } else {
            (-v) as u64
        };
        write_digits(writer, magnitude);
        assert(writer@ =~= old(writer)@ + decimal_text(v as int));
    } else {
        write_digits(writer, v as u64);
    }
}

/// The number of digits of `n` in decimal.
fn digits_width(n: u64) -> (width: usize)
    ensures
        width == digits_of(n as nat).len(),
        1 <= width <= 20,
    decreases n,
{
    if n >= 10 {
        let shorter = digits_width(n / 10);
        proof {
            lemma_digits_width(n as nat);
        }
        shorter + 1
    } else {
        1
    }
}

/// A number below 10 to the power 20 has at most 20 digits.
proof fn lemma_digits_width(n: nat)
    requires
        n <= u64::MAX,
    ensures
        digits_of(n).len() <= 20,
{
    reveal_with_fuel(digits_of, 21);
}

/// The length of the decimal text of `n`.
pub fn num_width(n: i64) -> (width: usize)
    ensures
        width == decimal_text(n as int).len(),
{
    if n < 0 {
        let magnitude: u64 = if n == i64::MIN {
            9223372036854775808
        } else {
            (-n) as u64
        };
        digits_width(magnitude) + 1
    } else {
        digits_width(n as u64)
    }
}

/// Appends `indent_string` `indent` times.
pub fn write_indent(buffer: &mut String, indent: usize, indent_string: &str)
    ensures
        final(buffer)@ == old(buffer)@ + repeated(indent_string@, indent as nat),
{
    let mut i: usize = 0;
    assert(buffer@ =~= old(buffer)@ + repeated(indent_string@, 0));
    while i < indent
        invariant
            i <= indent,
            buffer@ == old(buffer)@ + repeated(indent_string@, i as nat),
        decreases indent - i,
    {
        buffer.append(indent_string);
        i = i + 1;
        assert(buffer@ =~= old(buffer)@ + repeated(indent_string@, i as nat));
    }
}

/// Whether `value` is made of identifier characters alone.
pub open spec fn identifier_text(value: Seq<char>) -> bool {
    forall|i: int| 0 <= i < value.len() ==> in_run(Run::Ident, #[trigger] value[i])
}

/// Whether `value` is made of identifier characters alone: ASCII letters,
/// digits and `+ - _ .`.
pub fn is_identifier(value: &str) -> (plain: bool)
    ensures
        plain == identifier_text(value@),
{
    let chars = chars_of(value);
    let mut i: usize = 0;
    while i < chars.len()
        invariant
            i <= chars@.len(),
            chars@ == value@,
            forall|k: int| 0 <= k < i ==> in_run(Run::Ident, #[trigger] chars@[k]),
        decreases chars@.len() - i,
    {
        if !Run::Ident.contains(chars[i]) {
            return false;
        }
        i = i + 1;
    }
    true
}

/// How a character is written inside a quoted text: behind a backslash the
/// characters `\ / " '` themselves and the letters `b f n r t 0` for the
/// control characters that they name; every other character as it is.
pub open spec fn escaped_char(c: char) -> Seq<char> {
    if c == '\\' {
        seq!['\\', '\\']
    } else if c == '/' {
        seq!['\\', '/']
    } else if c == '"' {
        seq!['\\', '"']
    } else if c == '\'' {
        seq!['\\', '\'']
    } else if c == '\x08' {
        seq!['\\', 'b']
    } else if c == '\x0C' {
        seq!['\\', 'f']
    } else if c == '\n' {
        seq!['\\', 'n']
    } else if c == '\r' {
        seq!['\\', 'r']
    } else if c == '\t' {
        seq!['\\', 't']
    } else if c == '\0' {
        seq!['\\', '0']
    } else {
        seq![c]
    }
}

/// How a text is written inside quotes: each character escaped.
pub open spec fn escaped(text: Seq<char>) -> Seq<char>
    decreases text.len(),
{
    if text.len() == 0 {
        Seq::empty()
    } else {
        escaped(text.drop_last()) + escaped_char(text.last())
    }
}

/// The letter that names `c` behind a backslash, if `c` is written with one.
fn escape_letter(c: char) -> (letter: Option<char>)
    ensures
        match letter {
            Some(l) => escaped_char(c) == seq!['\\', l],
            None => escaped_char(c) == seq![c],
        },
{
    if c == '\\' || c == '/' || c == '"' || c == '\'' {
        Some(c)
    } else if c == '\x08' {
        Some('b')
    } else if c == '\x0C' {
        Some('f')
    } else if c == '\n' {
        Some('n')
    } else if c == '\r' {
        Some('r')
    } else if c == '\t' {
        Some('t')
    } else if c == '\0' {
        Some('0')
    } else {
        None
    }
}

/// Appends `unescaped` with each character escaped.
pub fn write_escaped_string(writer: &mut String, unescaped: &str)
    ensures
        final(writer)@ == old(writer)@ + escaped(unescaped@),
{
    let chars = chars_of(unescaped);
    let mut i: usize = 0;
    assert(chars@.take(0) =~= Seq::empty());
    assert(writer@ =~= old(writer)@ + escaped(chars@.take(0)));
    while i < chars.len()
        invariant
            i <= chars@.len(),
            chars@ == unescaped@,
            writer@ == old(writer)@ + escaped(chars@.take(i as int)),
        decreases chars@.len() - i,
    {
        let c = chars[i];
        let ghost before = writer@;
        match escape_letter(c) {
            Some(letter) => {
                push_char(writer, '\\');
                push_char(writer, letter);
                assert(writer@ =~= before + seq!['\\', letter]);
            },
            None => {
                push_char(writer, c);
                assert(writer@ =~= before + seq![c]);
            },
        }
        proof {
            assert(chars@.take(i + 1).drop_last() =~= chars@.take(i as int));
            assert(writer@ =~= old(writer)@ + escaped(chars@.take(i + 1)));
        }
        i = i + 1;
    }
    assert(chars@.take(i as int) =~= chars@);
}

/// How a text is written as a quoted text: its characters escaped, between
/// two `"`.
pub open spec fn quoted(text: Seq<char>) -> Seq<char> {
    seq!['"'] + escaped(text) + seq!['"']
}

/// Appends `value` as a quoted text.
pub fn write_string(writer: &mut String, value: &str)
    ensures
        final(writer)@ == old(writer)@ + quoted(value@),
{
    push_char(writer, '"');
    write_escaped_string(writer, value);
    push_char(writer, '"');
    assert(writer@ =~= old(writer)@ + quoted(value@));
}

/// Appends `ident` as a name: as it is where it is made of identifier
/// characters alone, else as a quoted text.
pub fn write_identifier(writer: &mut String, ident: &str)
    ensures
        final(writer)@ == old(writer)@ + (if identifier_text(ident@) {
            ident@
        } else {
            quoted(ident@)
        }),
{
    if is_identifier(ident) {
        writer.append(ident);
    } else {
        write_string(writer, ident);
    }
}

/// Appends `value` as a byte: its decimal text and `B`.
pub fn write_byte(writer: &mut String, value: i8)
    ensures
        final(writer)@ == old(writer)@ + decimal_text(value as int).push('B'),
{
    write_decimal(writer, value as i64);
    push_char(writer, 'B');
    assert(writer@ =~= old(writer)@ + decimal_text(value as int).push('B'));
}

/// Appends `value` as a short: its decimal text and `S`.
pub fn write_short(writer: &mut String, value: i16)
    ensures
        final(writer)@ == old(writer)@ + decimal_text(value as int).push('S'),
{
    write_decimal(writer, value as i64);
    push_char(writer, 'S');
    assert(writer@ =~= old(writer)@ + decimal_text(value as int).push('S'));
}

/// Appends `value` as an int: its decimal text.
pub fn write_int(writer: &mut String, value: i32)
    ensures
        final(writer)@ == old(writer)@ + decimal_text(value as int),
{
    write_decimal(writer, value as i64);
}

/// Appends `value` as a long: its decimal text and `L`.
pub fn write_long(writer: &mut String, value: i64)
    ensures
        final(writer)@ == old(writer)@ + decimal_text(value as int).push('L'),
{
    write_decimal(writer, value);
    push_char(writer, 'L');
    assert(writer@ =~= old(writer)@ + decimal_text(value as int).push('L'));
}

/// The items of a typed array from the second on, each behind `separator`.
pub open spec fn joined_tail(items: Seq<int>, separator: Seq<char>) -> Seq<char>
    decreases items.len(),
{
    if items.len() <= 1 {
        Seq::empty()
    } else {
        joined_tail(items.drop_last(), separator) + separator + decimal_text(items.last())
    }
}

/// A typed array with the letter `letter` in the textual notation. Without
/// items it is `[B;]`. On one line, or with a single item, the items stand
/// behind `[B; ` with `, ` between them. Else each item stands on a line of
/// its own, one level deeper than `indentation`, and the closing bracket on
/// a line of its own at the level of `indentation`.
pub open spec fn array_text(
    letter: char,
    items: Seq<int>,
    sameline: bool,
    indentation: Indentation,
) -> Seq<char> {
    if items.len() == 0 {
        seq!['[', letter, ';', ']']
    } else if sameline || items.len() == 1 {
        seq!['[', letter, ';', ' '] + decimal_text(items[0]) + joined_tail(items, seq![',', ' '])
            + seq![']']
    } else {
        let deeper = repeated(indentation.kind().text(), indentation.depth() + 1);
        seq!['[', letter, ';', '\n'] + deeper + decimal_text(items[0]) + joined_tail(
            items,
            seq![',', '\n'] + deeper,
        ) + seq!['\n'] + indentation.text() + seq![']']
    }
}

/// The numbers of a sequence as mathematical integers.
pub open spec fn longs(items: Seq<i64>) -> Seq<int> {
    Seq::new(items.len(), |i: int| items[i] as int)
}

/// Appends a typed array of the numbers `items` with the letter `letter`.
fn write_array(
    writer: &mut String,
    letter: char,
    items: &Vec<i64>,
    sameline: bool,
    indentation: Indentation,
)
    requires
        indentation.depth() < u32::MAX,
    ensures
        final(writer)@ == old(writer)@ + array_text(letter, longs(items@), sameline, indentation),
{
    let ghost values = longs(items@);
    push_char(writer, '[');
    push_char(writer, letter);
    push_char(writer, ';');
    if items.len() == 0 {
        push_char(writer, ']');
        assert(writer@ =~= old(writer)@ + array_text(letter, values, sameline, indentation));
        return;
    }
    let inline = sameline || items.len() == 1;
    let deeper = indentation.indent();
    let ghost separator = if inline {
        seq![',', ' ']
    } else {
        seq![',', '\n'] + deeper.text()
    };
    let ghost head = if inline {
        seq!['[', letter, ';', ' ']
    } else {
        seq!['[', letter, ';', '\n'] + deeper.text()
    };
    if inline {
        push_char(writer, ' ');
    } else {
        push_char(writer, '\n');
        deeper.write(writer);
    }
    write_decimal(writer, items[0]);
    assert(values.take(1).len() <= 1);
    assert(writer@ =~= old(writer)@ + head + decimal_text(values[0]) + joined_tail(
        values.take(1),
        separator,
    ));
    let mut i: usize = 1;
    while i < items.len()
        invariant
            1 <= i <= items@.len(),
            values == longs(items@),
            deeper.kind() == indentation.kind(),
            deeper.depth() == indentation.depth() + 1,
            separator == (if inline {
                seq![',', ' ']
            } else {
                seq![',', '\n'] + deeper.text()
            }),
            writer@ == old(writer)@ + head + decimal_text(values[0]) + joined_tail(
                values.take(i as int),
                separator,
            ),
        decreases items@.len() - i,
    {
        let ghost before = writer@;
        push_char(writer, ',');
        if inline {
            push_char(writer, ' ');
        } else {
            push_char(writer, '\n');
            deeper.write(writer);
        }
        write_decimal(writer, items[i]);
        proof {
            assert(writer@ =~= before + separator + decimal_text(values[i as int]));
            assert(values.take(i + 1).drop_last() =~= values.take(i as int));
        }
        i = i + 1;
    }
    assert(values.take(i as int) =~= values);
    if !inline {
        push_char(writer, '\n');
        indentation.write(writer);
    }
    push_char(writer, ']');
    assert(writer@ =~= old(writer)@ + array_text(letter, values, sameline, indentation));
}

/// The numbers of `array` as 64-bit integers.
fn widen_bytes(array: &[i8]) -> (items: Vec<i64>)
    ensures
        longs(items@) == Seq::new(array@.len(), |i: int| array@[i] as int),
{
    let mut items: Vec<i64> = Vec::new();
    let mut i: usize = 0;
    while i < array.len()
        invariant
            i <= array@.len(),
            items@.len() == i,
            forall|k: int| 0 <= k < i ==> items@[k] == array@[k],
        decreases array@.len() - i,
    {
        items.push(array[i] as i64);
        i = i + 1;
    }
    assert(longs(items@) =~= Seq::new(array@.len(), |i: int| array@[i] as int));
    items
}

/// The numbers of `array` as 64-bit integers.
fn widen_ints(array: &[i32]) -> (items: Vec<i64>)
    ensures
        longs(items@) == Seq::new(array@.len(), |i: int| array@[i] as int),
{
    let mut items: Vec<i64> = Vec::new();
    let mut i: usize = 0;
    while i < array.len()
        invariant
            i <= array@.len(),
            items@.len() == i,
            forall|k: int| 0 <= k < i ==> items@[k] == array@[k],
        decreases array@.len() - i,
    {
        items.push(array[i] as i64);
        i = i + 1;
    }
    assert(longs(items@) =~= Seq::new(array@.len(), |i: int| array@[i] as int));
    items
}

/// Appends an array of bytes in the textual notation, with the letter `B`.
pub fn write_bytearray(writer: &mut String, array: &[i8], sameline: bool, indentation: Indentation)
    requires
        indentation.depth() < u32::MAX,
    ensures
        final(writer)@ == old(writer)@ + array_text(
            'B',
            Seq::new(array@.len(), |i: int| array@[i] as int),
            sameline,
            indentation,
        ),
{
    let items = widen_bytes(array);
    write_array(writer, 'B', &items, sameline, indentation);
}

/// Appends an array of ints in the textual notation, with the letter `I`.
pub fn write_intarray(writer: &mut String, array: &[i32], sameline: bool, indentation: Indentation)
    requires
        indentation.depth() < u32::MAX,
    ensures
        final(writer)@ == old(writer)@ + array_text(
            'I',
            Seq::new(array@.len(), |i: int| array@[i] as int),
            sameline,
            indentation,
        ),
{
    let items = widen_ints(array);
    write_array(writer, 'I', &items, sameline, indentation);
}

/// Appends an array of longs in the textual notation, with the letter `L`.
pub fn write_longarray(writer: &mut String, array: &[i64], sameline: bool, indentation: Indentation)
    requires
        indentation.depth() < u32::MAX,
    ensures
        final(writer)@ == old(writer)@ + array_text(
            'L',
            Seq::new(array@.len(), |i: int| array@[i] as int),
            sameline,
            indentation,
        ),
{
    let items = vstd::slice::slice_to_vec(array);
    assert(longs(items@) =~= Seq::new(array@.len(), |i: int| array@[i] as int));
    write_array(writer, 'L', &items, sameline, indentation);
}

/// The escaped text of a text is that of its first character and then that
/// of the others.
pub proof fn lemma_escaped_front(text: Seq<char>)
    requires
        text.len() > 0,
    ensures
        escaped(text) == escaped_char(text.first()) + escaped(text.drop_first()),
    decreases text.len(),
{
    let init = text.drop_last();
    let others = text.drop_first();
    if text.len() == 1 {
        assert(init =~= Seq::empty());
        assert(others =~= Seq::empty());
        assert(escaped(text) =~= escaped_char(text.first()) + escaped(others));
    } else {
        lemma_escaped_front(init);
        assert(init.drop_first() =~= others.drop_last());
        assert(escaped(text) =~= escaped_char(text.first()) + escaped(others));
    }
}

/// A reader of quoted text that holds `seen` and reads an escaped text and
/// the closing `"` ends up with `seen` and the text behind it, at the
/// position behind the quote.
pub proof fn lemma_escaped_is_read_back(
    s: Seq<char>,
    pos: int,
    text: Seq<char>,
    seen: Seq<char>,
)
    requires
        0 <= pos,
        pos + escaped(text).len() < s.len(),
        s.subrange(pos, pos + escaped(text).len()) == escaped(text),
        s[pos + escaped(text).len()] == '"',
    ensures
        quoted_rest(s, pos, '"', seen) == Some((seen + text, pos + escaped(text).len() + 1)),
    decreases text.len(),
{
    if text.len() == 0 {
        assert(seen + text =~= seen);
    } else {
        let first = text.first();
        let others = text.drop_first();
        let width = escaped_char(first).len() as int;
        lemma_escaped_front(text);
        assert(forall|i: int|
            0 <= i < escaped(text).len() ==> s[pos + i] == #[trigger] s.subrange(
                pos,
                pos + escaped(text).len(),
            )[i]);
        assert(s[pos] == escaped(text)[0]);
        assert(escaped(text)[0] == escaped_char(first)[0]);
        if width == 2 {
            assert(s[pos + 1] == escaped(text)[1]);
            assert(escaped(text)[1] == escaped_char(first)[1]);
        }
        let tail = s.subrange(pos + width, pos + width + escaped(others).len());
        assert forall|i: int| 0 <= i < escaped(others).len() implies tail[i] == escaped(
            others,
        )[i] by {
            assert(s[pos + width + i] == s.subrange(pos, pos + escaped(text).len())[width + i]);
            assert(escaped(text)[width + i] == escaped(others)[i]);
        }
        assert(tail =~= escaped(others));
        assert(seen.push(first) + others =~= seen + text);
        lemma_escaped_is_read_back(s, pos + width, others, seen.push(first));
    }
}

/// A text that was written as a quoted text is read back as it was: the
/// token that starts at the opening quote is the text, and it ends behind the
/// closing quote.
pub proof fn lemma_quoted_round_trip(text: Seq<char>, rest: Seq<char>)
    ensures
        lex_string_literal(quoted(text) + rest, 0) == Some(
            (TokenValue::StringLiteral(text), quoted(text).len() as int),
        ),
{
    let s = quoted(text) + rest;
    assert(s[0] == '"');
    let width = escaped(text).len() as int;
    assert(s.subrange(1, 1 + width) =~= escaped(text));
    assert(s[1 + width] == '"');
    lemma_escaped_is_read_back(s, 1, text, Seq::empty());
    assert(Seq::<char>::empty() + text =~= text);
}

/// The digits of a number are digits, and they stand for the number.
pub proof fn lemma_digits_round_trip(n: nat)
    ensures
        all_digits(digits_of(n)),
        digits_value(digits_of(n)) == n,
    decreases n,
{
    let digits = digits_of(n);
    if n < 10 {
        assert(digits.drop_last() =~= Seq::empty());
        assert(digits[0] == digit_char(n as int));
        assert(digits_value(digits.drop_last()) == 0);
    } else {
        let init = digits_of(n / 10);
        lemma_digits_round_trip(n / 10);
        assert(digits.drop_last() =~= init);
        assert forall|i: int| 0 <= i < digits.len() implies is_digit(#[trigger] digits[i]) by {
            if i < init.len() {
                assert(digits[i] == init[i]);
            }
        }
    }
}

/// The decimal text of a number is read back as the number.
pub proof fn lemma_decimal_text_round_trip(v: int)
    ensures
        number_value(decimal_text(v)) == Some(v),
{
    let text = decimal_text(v);
    if v < 0 {
        lemma_digits_round_trip((-v) as nat);
        assert(text.skip(1) =~= digits_of((-v) as nat));
    } else {
        lemma_digits_round_trip(v as nat);
        assert(is_digit(text[0]));
    }
}

} // verus!
