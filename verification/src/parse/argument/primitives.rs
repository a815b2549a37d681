//! The values of the primitive argument categories, and their parsers.

use crate::intern::{intern_strings, symbol_for, Interner, StaticInterner, Symbol};
use crate::parse::argument::StringKind;
use crate::parse::errors::{
    ErrorList, InvalidStringCharsError, ParseBoolError, ParseDoubleError, ParseError,
    ParseFloatError, ParseIntegerError, QuotedSingleWordError, SymbolsExhaustedError,
    UnterminatedStringError,
};
use crate::parse::reader::Reader;
use crate::span::Span;
use crate::text::{
    boundary, byte_len, char_at, char_is_whitespace, is_text, is_whitespace, lemma_ascii_char,
    lemma_char_step, lemma_str_is_text, lemma_trim_scan, next_pos, peek_at, remaining, slice,
    str_eq, text_of, to_chars, trim_scan, trimmed_end, word_end,
};
use vstd::prelude::*;
use vstd::string::*;

verus! {

/// A truth value as written in the source; absent where the word is
/// neither `true` nor `false`.
#[derive(Debug, Clone, Copy, PartialEq, Eq, Structural)]
pub struct Boolean {
    pub value: Option<bool>,
}

/// A 32-bit integer as written in the source; absent where the word is no
/// such integer.
#[derive(Debug, Clone, Copy, PartialEq, Eq, Structural)]
pub struct Integer {
    pub value: Option<i32>,
}

impl Integer {
    /// The integer zero.
    pub fn zero() -> (r: Self)
        ensures
            r.value == Some(0i32),
    {
        Self::new(0)
    }

    /// The integer `value`.
    pub fn new(value: i32) -> (r: Self)
        ensures
            r.value == Some(value),
    {
        Integer { value: Some(value) }
    }
}

/// A decimal number, held as what was written rather than as a rounded
/// binary value.
#[derive(Debug, Clone, Copy, PartialEq, Eq, Structural)]
pub enum Numeral {
    /// Zero, where nothing was written.
    Zero,
    /// A whole number that was read as an integer.
    Integer(i32),
    /// The decimal numeral that stands at this place of the source.
    Written(Span),
}

/// A single-precision number; absent where the word is no decimal numeral.
#[derive(Debug, Clone, Copy, PartialEq, Eq, Structural)]
pub struct Float {
    pub value: Option<Numeral>,
}

impl Float {
    /// The number zero.
    pub fn zero() -> (r: Self)
        ensures
            r.value == Some(Numeral::Zero),
    {
        Self::new(Numeral::Zero)
    }

    /// The number `value`.
    pub fn new(value: Numeral) -> (r: Self)
        ensures
            r.value == Some(value),
    {
        Float { value: Some(value) }
    }
}

/// A double-precision number; absent where the word is no decimal numeral.
#[derive(Debug, Clone, Copy, PartialEq, Eq, Structural)]
pub struct Double {
    pub value: Option<Numeral>,
}

impl Double {
    /// The number zero.
    pub fn zero() -> (r: Self)
        ensures
            r.value == Some(Numeral::Zero),
    {
        Self::new(Numeral::Zero)
    }

    /// The number `value`.
    pub fn new(value: Numeral) -> (r: Self)
        ensures
            r.value == Some(value),
    {
        Double { value: Some(value) }
    }
}

/// A string argument: the symbol of its text, and whether it was quoted.
#[derive(Debug, Clone, Copy, PartialEq, Eq, Structural)]
pub struct Text {
    pub value: Option<Symbol>,
    pub is_quotable: bool,
}

/// What a parser made of the input: the value it read, the errors it
/// found, and the offset at which it stopped.
pub struct Outcome<V> {
    pub value: V,
    pub errors: Seq<ParseError>,
    pub end: int,
}

/// The span from `start` to `end`.
pub open spec fn span_of(start: int, end: int) -> Span {
    Span { start: start as usize, end: end as usize }
}

/// The span of the word that starts at `pos`.
pub open spec fn word_span(b: Seq<u8>, pos: int) -> Span {
    span_of(pos, word_end(b, pos))
}

/// The characters of the word that starts at `pos`.
pub open spec fn word_at(b: Seq<u8>, pos: int) -> Seq<char> {
    text_of(b, pos, word_end(b, pos))
}

/// `c` is a decimal digit.
pub open spec fn is_digit(c: char) -> bool {
    '0' <= c <= '9'
}

/// Every character of `s` is a decimal digit.
pub open spec fn all_digits(s: Seq<char>) -> bool {
    forall|i: int| 0 <= i < s.len() ==> is_digit(#[trigger] s[i])
}

/// The number that the decimal digits `s` spell.
pub open spec fn digits_value(s: Seq<char>) -> nat
    decreases s.len(),
{
    if s.len() == 0 {
        0
    } else {
        (digits_value(s.drop_last()) * 10 + (s.last() as nat - '0' as nat)) as nat
    }
}

/// `s` without its leading minus sign, if it has one.
pub open spec fn unsigned_part(s: Seq<char>) -> Seq<char> {
    if s.len() > 0 && s[0] == '-' {
        s.drop_first()
    } else {
        s
    }
}

/// The 32-bit integer that `s` spells: an optional minus sign and at least
/// one digit, with a value in range.
pub open spec fn integer_of(s: Seq<char>) -> Option<i32> {
    let digits = unsigned_part(s);
    let magnitude = digits_value(digits) as int;
    let value = if digits.len() < s.len() {
        -magnitude
    } else {
        magnitude
    };
    if digits.len() > 0 && all_digits(digits) && i32::MIN <= value <= i32::MAX {
        Some(value as i32)
    } else {
        None
    }
}

/// The number of characters of `s` that are `c`.
pub open spec fn count_of(s: Seq<char>, c: char) -> nat
    decreases s.len(),
{
    if s.len() == 0 {
        0
    } else {
        count_of(s.drop_last(), c) + (if s.last() == c {
            1nat
        } else {
            0nat
        })
    }
}

/// Every character of `s` is a decimal digit or a point.
pub open spec fn all_decimal_chars(s: Seq<char>) -> bool {
    forall|i: int| 0 <= i < s.len() ==> (is_digit(#[trigger] s[i]) || s[i] == '.')
}

/// `s` is a decimal numeral: an optional minus sign, then digits with at
/// most one point among them, and at least one digit.
pub open spec fn is_decimal(s: Seq<char>) -> bool {
    let body = unsigned_part(s);
    all_decimal_chars(body) && count_of(body, '.') <= 1 && count_of(body, '.') < body.len()
}

/// What [`parse_bool`] makes of the word at `pos`.
pub open spec fn bool_outcome(b: Seq<u8>, pos: int) -> Outcome<Boolean> {
    let word = word_at(b, pos);
    let value = if word == "true"@ {
        Some(true)
    } else if word == "false"@ {
        Some(false)
    } else {
        None
    };
    Outcome {
        value: Boolean { value },
        errors: if value is None {
            seq![ParseError::ParseBool(ParseBoolError { span: word_span(b, pos) })]
        } else {
            Seq::empty()
        },
        end: word_end(b, pos),
    }
}

/// What [`parse_integer`] makes of the word at `pos`.
pub open spec fn integer_outcome(b: Seq<u8>, pos: int) -> Outcome<Integer> {
    let value = integer_of(word_at(b, pos));
    Outcome {
        value: Integer { value },
        errors: if value is None {
            seq![ParseError::ParseInteger(ParseIntegerError { span: word_span(b, pos) })]
        } else {
            Seq::empty()
        },
        end: word_end(b, pos),
    }
}

/// The numeral read from the word at `pos`, if it is a decimal numeral.
pub open spec fn numeral_at(b: Seq<u8>, pos: int) -> Option<Numeral> {
    if is_decimal(word_at(b, pos)) {
        Some(Numeral::Written(word_span(b, pos)))
    } else {
        None
    }
}

/// What [`parse_float`] makes of the word at `pos`.
pub open spec fn float_outcome(b: Seq<u8>, pos: int) -> Outcome<Float> {
    let value = numeral_at(b, pos);
    Outcome {
        value: Float { value },
        errors: if value is None {
            seq![ParseError::ParseFloat(ParseFloatError { span: word_span(b, pos) })]
        } else {
            Seq::empty()
        },
        end: word_end(b, pos),
    }
}

/// What [`parse_double`] makes of the word at `pos`.
pub open spec fn double_outcome(b: Seq<u8>, pos: int) -> Outcome<Double> {
    let value = numeral_at(b, pos);
    Outcome {
        value: Double { value },
        errors: if value is None {
            seq![ParseError::ParseDouble(ParseDoubleError { span: word_span(b, pos) })]
        } else {
            Seq::empty()
        },
        end: word_end(b, pos),
    }
}

/// Computes [`integer_of`].
pub fn integer_from_chars(chars: &Vec<char>) -> (r: Option<i32>)
    ensures
        r == integer_of(chars@),
{
    let negative = chars.len() > 0 && chars[0] == '-';
    let first: usize = if negative {
        1
    } else {
        0
    };
    let ghost digits = unsigned_part(chars@);
    proof {
        assert(digits =~= chars@.subrange(first as int, chars@.len() as int));
    }
    if chars.len() == first {
        return None;
    }
    let mut magnitude: i64 = 0;
    let mut too_large = false;
    let mut i: usize = first;
    proof {
        assert(digits.subrange(0, 0) =~= Seq::<char>::empty());
    }
    while i < chars.len()
        invariant
            first <= i <= chars.len(),
            digits == unsigned_part(chars@),
            digits == chars@.subrange(first as int, chars@.len() as int),
            all_digits(digits.subrange(0, i - first)),
            0 <= magnitude <= 0x8000_0000,
            !too_large ==> magnitude == digits_value(digits.subrange(0, i - first)),
            too_large ==> digits_value(digits.subrange(0, i - first)) > 0x8000_0000,
        decreases chars.len() - i,
    {
        let c = chars[i];
        let ghost shorter = digits.subrange(0, i - first);
        let ghost longer = digits.subrange(0, i - first + 1);
        proof {
            assert(longer.drop_last() =~= shorter);
            assert(longer.last() == c);
        }
        if !('0' <= c && c <= '9') {
            proof {
                assert(!is_digit(digits[i - first]));
            }
            return None;
        }
        let digit: i64 = (c as u32 - '0' as u32) as i64;
        if !too_large {
            magnitude = magnitude * 10 + digit;
            if magnitude > 0x8000_0000 {
                too_large = true;
                magnitude = 0;
            }
        }
        proof {
            assert forall|k: int| 0 <= k < longer.len() implies is_digit(#[trigger] longer[k]) by {
                if k < shorter.len() {
                    assert(shorter[k] == longer[k]);
                }
            }
        }
        i += 1;
    }
    proof {
        assert(digits.subrange(0, digits.len() as int) =~= digits);
    }
    if too_large {
        return None;
    }
    if negative {
        Some((-magnitude) as i32)
    } else if magnitude <= 0x7FFF_FFFF {
        Some(magnitude as i32)
    } else {
        None
    }
}

/// Decides [`is_decimal`].
pub fn is_decimal_chars(chars: &Vec<char>) -> (r: bool)
    ensures
        r == is_decimal(chars@),
{
    let negative = chars.len() > 0 && chars[0] == '-';
    let first: usize = if negative {
        1
    } else {
        0
    };
    let ghost body = unsigned_part(chars@);
    proof {
        assert(body =~= chars@.subrange(first as int, chars@.len() as int));
        assert(body.subrange(0, 0) =~= Seq::<char>::empty());
    }
    let mut points: usize = 0;
    let mut i: usize = first;
    while i < chars.len()
        invariant
            first <= i <= chars.len(),
            body == unsigned_part(chars@),
            body == chars@.subrange(first as int, chars@.len() as int),
            all_decimal_chars(body.subrange(0, i - first)),
            points == count_of(body.subrange(0, i - first), '.'),
            points <= i - first,
        decreases chars.len() - i,
    {
        let c = chars[i];
        let ghost shorter = body.subrange(0, i - first);
        let ghost longer = body.subrange(0, i - first + 1);
        proof {
            assert(longer.drop_last() =~= shorter);
            assert(longer.last() == c);
        }
        if c == '.' {
            points += 1;
        } else if !('0' <= c && c <= '9') {
            proof {
                assert(!(is_digit(body[i - first]) || body[i - first] == '.'));
            }
            return false;
        }
        proof {
            assert forall|k: int| 0 <= k < longer.len() implies (is_digit(#[trigger] longer[k])
                || longer[k] == '.') by {
                if k < shorter.len() {
                    assert(shorter[k] == longer[k]);
                }
            }
        }
        i += 1;
    }
    proof {
        assert(body.subrange(0, body.len() as int) =~= body);
    }
    points <= 1 && points < chars.len() - first
}

/// Reads the word at the cursor: its span and its characters.
fn read_word(reader: &mut Reader) -> (r: (Span, Vec<char>))
    requires
        old(reader).wf(),
    ensures
        final(reader).wf(),
        final(reader).text() == old(reader).text(),
        final(reader).position() == word_end(old(reader).text(), old(reader).position()),
        r.0 == word_span(old(reader).text(), old(reader).position()),
        r.1@ == word_at(old(reader).text(), old(reader).position()),
{
    let start = reader.get_pos();
    let word = reader.read_literal();
    proof {
        lemma_str_is_text(word);
    }
    (Span::new(start, reader.get_pos()), to_chars(word))
}

/// Reads a truth value: the word `true` or the word `false`.
pub fn parse_bool(reader: &mut Reader, errors: &mut ErrorList) -> (r: Boolean)
    requires
        old(reader).wf(),
    ensures
        final(reader).wf(),
        final(reader).text() == old(reader).text(),
        final(reader).position() == bool_outcome(old(reader).text(), old(reader).position()).end,
        r == bool_outcome(old(reader).text(), old(reader).position()).value,
        final(errors)@ == old(errors)@ + bool_outcome(
            old(reader).text(),
            old(reader).position(),
        ).errors,
{
    let start = reader.get_pos();
    let word = reader.read_literal();
    proof {
        lemma_str_is_text(word);
    }
    let span = Span::new(start, reader.get_pos());
    let value = if str_eq(word, "true") {
        Some(true)
    } else if str_eq(word, "false") {
        Some(false)
    } else {
        None
    };
    if value.is_none() {
        errors.push(ParseError::ParseBool(ParseBoolError { span }));
    }
    proof {
        assert(old(errors)@ + Seq::<ParseError>::empty() =~= old(errors)@);
        assert(old(errors)@.push(ParseError::ParseBool(ParseBoolError { span })) =~= old(errors)@
            + seq![ParseError::ParseBool(ParseBoolError { span })]);
    }
    Boolean { value }
}

/// Reads a 32-bit integer in decimal notation.
pub fn parse_integer(reader: &mut Reader, errors: &mut ErrorList) -> (r: Integer)
    requires
        old(reader).wf(),
    ensures
        final(reader).wf(),
        final(reader).text() == old(reader).text(),
        final(reader).position() == integer_outcome(
            old(reader).text(),
            old(reader).position(),
        ).end,
        r == integer_outcome(old(reader).text(), old(reader).position()).value,
        final(errors)@ == old(errors)@ + integer_outcome(
            old(reader).text(),
            old(reader).position(),
        ).errors,
{
    let (span, chars) = read_word(reader);
    let value = integer_from_chars(&chars);
    if value.is_none() {
        errors.push(ParseError::ParseInteger(ParseIntegerError { span }));
    }
    proof {
        assert(old(errors)@ + Seq::<ParseError>::empty() =~= old(errors)@);
        assert(old(errors)@.push(ParseError::ParseInteger(ParseIntegerError { span }))
            =~= old(errors)@ + seq![ParseError::ParseInteger(ParseIntegerError { span })]);
    }
    Integer { value }
}

/// Reads a single-precision number in decimal notation.
pub fn parse_float(reader: &mut Reader, errors: &mut ErrorList) -> (r: Float)
    requires
        old(reader).wf(),
    ensures
        final(reader).wf(),
        final(reader).text() == old(reader).text(),
        final(reader).position() == float_outcome(old(reader).text(), old(reader).position()).end,
        r == float_outcome(old(reader).text(), old(reader).position()).value,
        final(errors)@ == old(errors)@ + float_outcome(
            old(reader).text(),
            old(reader).position(),
        ).errors,
{
    let (span, chars) = read_word(reader);
    let value = if is_decimal_chars(&chars) {
        Some(Numeral::Written(span))
    } else {
        errors.push(ParseError::ParseFloat(ParseFloatError { span }));
        None
    };
    proof {
        assert(old(errors)@ + Seq::<ParseError>::empty() =~= old(errors)@);
        assert(old(errors)@.push(ParseError::ParseFloat(ParseFloatError { span })) =~= old(errors)@
            + seq![ParseError::ParseFloat(ParseFloatError { span })]);
    }
    Float { value }
}

/// Reads a double-precision number in decimal notation.
pub fn parse_double(reader: &mut Reader, errors: &mut ErrorList) -> (r: Double)
    requires
        old(reader).wf(),
    ensures
        final(reader).wf(),
        final(reader).text() == old(reader).text(),
        final(reader).position() == double_outcome(
            old(reader).text(),
            old(reader).position(),
        ).end,
        r == double_outcome(old(reader).text(), old(reader).position()).value,
        final(errors)@ == old(errors)@ + double_outcome(
            old(reader).text(),
            old(reader).position(),
        ).errors,
{
    let (span, chars) = read_word(reader);
    let value = if is_decimal_chars(&chars) {
        Some(Numeral::Written(span))
    } else {
        errors.push(ParseError::ParseDouble(ParseDoubleError { span }));
        None
    };
    proof {
        assert(old(errors)@ + Seq::<ParseError>::empty() =~= old(errors)@);
        assert(old(errors)@.push(ParseError::ParseDouble(ParseDoubleError { span }))
            =~= old(errors)@ + seq![ParseError::ParseDouble(ParseDoubleError { span })]);
    }
    Double { value }
}

/// What a string parser made of the input: the text it read or the error
/// that stopped it, the errors it found besides, the offset at which it
/// stopped, and the strings that the interner holds afterwards.
pub struct TextOutcome {
    pub result: Result<Text, ParseError>,
    pub errors: Seq<ParseError>,
    pub end: int,
    pub strings: Seq<Seq<char>>,
}

/// `c` may stand in an unquoted string.
pub open spec fn is_string_char(c: char) -> bool {
    ||| 'a' <= c <= 'z'
    ||| 'A' <= c <= 'Z'
    ||| '0' <= c <= '9'
    ||| c == '_'
    ||| c == '-'
    ||| c == '.'
    ||| c == '+'
}

/// Every character of `s` may stand in an unquoted string.
pub open spec fn all_string_chars(s: Seq<char>) -> bool {
    forall|i: int| 0 <= i < s.len() ==> is_string_char(#[trigger] s[i])
}

/// An interner that holds `strings` has a symbol for `s`.
pub open spec fn can_intern(strings: Seq<Seq<char>>, s: Seq<char>) -> bool {
    strings.contains(s) || strings.len() < u32::MAX
}

/// The text argument for the string `s`, which is interned; or the error
/// that no symbol is left for it.
pub open spec fn interned(strings: Seq<Seq<char>>, s: Seq<char>, span: Span, quoted: bool) -> Result<
    Text,
    ParseError,
> {
    if can_intern(strings, s) {
        Ok(Text { value: Some(Symbol(symbol_for(strings, s) as u32)), is_quotable: quoted })
    } else {
        Err(ParseError::SymbolsExhausted(SymbolsExhaustedError { span }))
    }
}

/// The strings held after `s` was interned, if there was a symbol for it.
pub open spec fn strings_after(strings: Seq<Seq<char>>, s: Seq<char>) -> Seq<Seq<char>> {
    if can_intern(strings, s) {
        intern_strings(strings, s)
    } else {
        strings
    }
}

/// The offset of the quote that closes the string whose content starts at
/// `i`. A backslash takes the character after it along.
pub open spec fn quote_end(b: Seq<u8>, i: int, quote: char) -> Option<int>
    decreases remaining(b, i),
{
    if !(0 <= i < b.len()) {
        None
    } else if char_at(b, i) == quote {
        Some(i)
    } else if char_at(b, i) == '\\' {
        quote_end(b, next_pos(b, next_pos(b, i)), quote)
    } else {
        quote_end(b, next_pos(b, i), quote)
    }
}

/// What [`parse_text`] makes of a phrase that takes the rest of the input.
pub open spec fn greedy_outcome(b: Seq<u8>, pos: int, strings: Seq<Seq<char>>) -> TextOutcome {
    let phrase = text_of(b, pos, trimmed_end(b, pos));
    TextOutcome {
        result: interned(strings, phrase, span_of(pos, b.len() as int), false),
        errors: Seq::empty(),
        end: b.len() as int,
        strings: strings_after(strings, phrase),
    }
}

/// What [`parse_text`] makes of a string that opens with `quote` at `pos`.
/// Where no quote closes it, the text has no value, the error is recorded
/// from the opening quote to the end of the input, and the input is used up.
pub open spec fn quoted_outcome(
    b: Seq<u8>,
    pos: int,
    quote: char,
    kind: StringKind,
    strings: Seq<Seq<char>>,
) -> TextOutcome {
    match quote_end(b, pos + 1, quote) {
        Some(close) => {
            let content = text_of(b, pos + 1, close);
            TextOutcome {
                result: interned(strings, content, span_of(pos, close + 1), true),
                errors: if kind == StringKind::SingleWord {
                    seq![
                        ParseError::QuotedSingleWord(
                            QuotedSingleWordError { span: span_of(pos, close + 1) },
                        ),
                    ]
                } else {
                    Seq::empty()
                },
                end: close + 1,
                strings: strings_after(strings, content),
            }
        },
        None => TextOutcome {
            result: Ok(Text { value: None, is_quotable: true }),
            errors: seq![
                ParseError::UnterminatedString(
                    UnterminatedStringError { span: span_of(pos, b.len() as int) },
                ),
            ],
            end: b.len() as int,
            strings,
        },
    }
}

/// What [`parse_text`] makes of an unquoted word at `pos`.
pub open spec fn unquoted_outcome(b: Seq<u8>, pos: int, strings: Seq<Seq<char>>) -> TextOutcome {
    let word = word_at(b, pos);
    if all_string_chars(word) {
        TextOutcome {
            result: interned(strings, word, word_span(b, pos), false),
            errors: Seq::empty(),
            end: word_end(b, pos),
            strings: strings_after(strings, word),
        }
    } else {
        TextOutcome {
            result: Ok(Text { value: None, is_quotable: false }),
            errors: seq![
                ParseError::InvalidStringChars(InvalidStringCharsError { span: word_span(b, pos) }),
            ],
            end: word_end(b, pos),
            strings,
        }
    }
}

/// What [`parse_text`] makes of the input at `pos`.
pub open spec fn text_outcome(
    b: Seq<u8>,
    pos: int,
    kind: StringKind,
    strings: Seq<Seq<char>>,
) -> TextOutcome {
    if kind == StringKind::GreedyPhrase {
        greedy_outcome(b, pos, strings)
    } else {
        match peek_at(b, pos) {
            Some(quote) => if quote == '"' || quote == '\'' {
                quoted_outcome(b, pos, quote, kind, strings)
            } else {
                unquoted_outcome(b, pos, strings)
            },
            None => unquoted_outcome(b, pos, strings),
        }
    }
}

/// Interns `string` and gives the text argument for it, or the error that
/// no symbol is left.
fn intern_text(interner: &mut StaticInterner, string: &str, span: Span, quoted: bool) -> (r: Result<
    Text,
    ParseError,
>)
    requires
        old(interner).valid(),
    ensures
        final(interner).valid(),
        r == interned(old(interner).strings(), string@, span, quoted),
        final(interner).strings() == strings_after(old(interner).strings(), string@),
{
    match interner.try_intern(string) {
        Some(symbol) => Ok(Text { value: Some(symbol), is_quotable: quoted }),
        None => Err(ParseError::SymbolsExhausted(SymbolsExhaustedError { span })),
    }
}

/// Whether every character of `chars` may stand in an unquoted string.
fn only_string_chars(chars: &Vec<char>) -> (r: bool)
    ensures
        r == all_string_chars(chars@),
{
    let mut i: usize = 0;
    while i < chars.len()
        invariant
            i <= chars.len(),
            forall|k: int| 0 <= k < i ==> is_string_char(#[trigger] chars@[k]),
        decreases chars.len() - i,
    {
        let c = chars[i];
        let fits = ('a' <= c && c <= 'z') || ('A' <= c && c <= 'Z') || ('0' <= c && c <= '9') || c
            == '_' || c == '-' || c == '.' || c == '+';
        if !fits {
            assert(!is_string_char(chars@[i as int]));
            return false;
        }
        i += 1;
    }
    true
}

/// Where the text from the cursor on ends once trailing whitespace is
/// taken off.
pub fn trimmed_end_pos(reader: &Reader) -> (end: usize)
    requires
        reader.wf(),
    ensures
        end == trimmed_end(reader.text(), reader.position()),
        reader.position() <= end <= reader.text().len(),
        boundary(reader.text(), end as int),
        reader.position() < reader.text().len() && !is_whitespace(
            char_at(reader.text(), reader.position()),
        ) ==> reader.position() < end,
{
    let ghost b = reader.text();
    let ghost start = reader.position();
    let mut ahead = *reader;
    let mut last = reader.get_pos();
    proof {
        reader.lemma_wf();
        lemma_trim_scan(b, start, start);
    }
    loop
        invariant
            ahead.wf(),
            ahead.text() == b,
            is_text(b),
            boundary(b, last as int),
            start <= last <= ahead.position() <= b.len(),
            trim_scan(b, start, start) == trim_scan(b, ahead.position(), last as int),
        ensures
            last == trim_scan(b, start, start),
        decreases b.len() - ahead.position(),
    {
        match ahead.peek() {
            None => {
                break ;
            },
            Some(c) => {
                proof {
                    ahead.lemma_wf();
                    lemma_char_step(b, ahead.position());
                }
                ahead.advance();
                if !char_is_whitespace(c) {
                    last = ahead.get_pos();
                }
            },
        }
    }
    last
}

/// Reads a string argument of the given kind and interns its text.
pub fn parse_text(
    reader: &mut Reader,
    interner: &mut StaticInterner,
    errors: &mut ErrorList,
    kind: StringKind,
) -> (r: Result<Text, ParseError>)
    requires
        old(reader).wf(),
        old(interner).valid(),
    ensures
        final(reader).wf(),
        final(interner).valid(),
        final(reader).text() == old(reader).text(),
        final(reader).position() == text_outcome(
            old(reader).text(),
            old(reader).position(),
            kind,
            old(interner).strings(),
        ).end,
        r == text_outcome(
            old(reader).text(),
            old(reader).position(),
            kind,
            old(interner).strings(),
        ).result,
        final(errors)@ == old(errors)@ + text_outcome(
            old(reader).text(),
            old(reader).position(),
            kind,
            old(interner).strings(),
        ).errors,
        final(interner).strings() == text_outcome(
            old(reader).text(),
            old(reader).position(),
            kind,
            old(interner).strings(),
        ).strings,
{
    let ghost b = reader.text();
    let ghost pos = reader.position();
    proof {
        reader.lemma_wf();
        assert(old(errors)@ + Seq::<ParseError>::empty() =~= old(errors)@);
    }
    let src = reader.get_src();
    let start = reader.get_pos();
    let len = byte_len(src);
    match kind {
        StringKind::GreedyPhrase => {
            let end = trimmed_end_pos(reader);
            let phrase = slice(src, start, end);
            let r = intern_text(interner, phrase, Span::new(start, len), false);
            proof {
                lemma_str_is_text(src);
            }
            reader.set_pos(len);
            return r;
        },
        _ => {},
    }
    let quote = match reader.peek() {
        Some(c) => if c == '"' || c == '\'' {
            c
        } else {
            return parse_unquoted_string(reader, interner, errors);
        },
        None => {
            return parse_unquoted_string(reader, interner, errors);
        },
    };
    proof {
        lemma_char_step(b, pos);
        lemma_ascii_char(b, pos);
    }
    reader.advance();
    let content_start = reader.get_pos();
    loop
        invariant
            reader.wf(),
            reader.text() == b,
            b == old(reader).text(),
            pos == old(reader).position(),
            peek_at(b, pos) == Some(quote),
            quote == '"' || quote == '\'',
            kind != StringKind::GreedyPhrase,
            src.spec_bytes() == b,
            is_text(b),
            len == b.len(),
            start == pos,
            content_start == pos + 1,
            content_start <= reader.position() <= b.len(),
            errors@ == old(errors)@,
            *interner == *old(interner),
            old(interner).valid(),
            boundary(b, content_start as int),
            quote_end(b, content_start as int, quote) == quote_end(b, reader.position(), quote),
        ensures
            reader.wf(),
            reader.text() == b,
            reader.position() == b.len(),
            errors@ == old(errors)@,
            *interner == *old(interner),
            quote_end(b, content_start as int, quote) is None,
        decreases b.len() - reader.position(),
    {
        let at = reader.get_pos();
        match reader.peek() {
            None => {
                break ;
            },
            Some(chr) => {
                proof {
                    reader.lemma_wf();
                    lemma_char_step(b, at as int);
                }
                if chr == quote {
                    let content = slice(src, content_start, at);
                    reader.advance();
                    let span = Span::new(start, reader.get_pos());
                    if kind == StringKind::SingleWord {
                        errors.push(ParseError::QuotedSingleWord(QuotedSingleWordError { span }));
                    }
                    proof {
                        assert(old(errors)@.push(
                            ParseError::QuotedSingleWord(QuotedSingleWordError { span }),
                        ) =~= old(errors)@ + seq![
                            ParseError::QuotedSingleWord(QuotedSingleWordError { span }),
                        ]);
                    }
                    return intern_text(interner, content, span, true);
                } else if chr == '\\' {
                    reader.advance();
                    proof {
                        reader.lemma_wf();
                        if reader.position() < b.len() {
                            lemma_char_step(b, reader.position());
                        }
                    }
                }
                reader.advance();
            },
        }
    }
    let span = Span::new(start, len);
    errors.push(ParseError::UnterminatedString(UnterminatedStringError { span }));
    proof {
        assert(old(errors)@.push(
            ParseError::UnterminatedString(UnterminatedStringError { span }),
        ) =~= old(errors)@ + seq![
            ParseError::UnterminatedString(UnterminatedStringError { span }),
        ]);
    }
    Ok(Text { value: None, is_quotable: true })
}

/// Reads an unquoted word as a string argument and interns it.
fn parse_unquoted_string(
    reader: &mut Reader,
    interner: &mut StaticInterner,
    errors: &mut ErrorList,
) -> (r: Result<Text, ParseError>)
    requires
        old(reader).wf(),
        old(interner).valid(),
    ensures
        final(reader).wf(),
        final(interner).valid(),
        final(reader).text() == old(reader).text(),
        final(reader).position() == unquoted_outcome(
            old(reader).text(),
            old(reader).position(),
            old(interner).strings(),
        ).end,
        r == unquoted_outcome(
            old(reader).text(),
            old(reader).position(),
            old(interner).strings(),
        ).result,
        final(errors)@ == old(errors)@ + unquoted_outcome(
            old(reader).text(),
            old(reader).position(),
            old(interner).strings(),
        ).errors,
        final(interner).strings() == unquoted_outcome(
            old(reader).text(),
            old(reader).position(),
            old(interner).strings(),
        ).strings,
{
    let start = reader.get_pos();
    let word = reader.read_literal();
    let span = Span::new(start, reader.get_pos());
    proof {
        lemma_str_is_text(word);
        assert(old(errors)@ + Seq::<ParseError>::empty() =~= old(errors)@);
        assert(old(errors)@.push(
            ParseError::InvalidStringChars(InvalidStringCharsError { span }),
        ) =~= old(errors)@ + seq![
            ParseError::InvalidStringChars(InvalidStringCharsError { span }),
        ]);
    }
    let chars = to_chars(word);
    if only_string_chars(&chars) {
        intern_text(interner, word, span, false)
    } else {
        errors.push(ParseError::InvalidStringChars(InvalidStringCharsError { span }));
        Ok(Text { value: None, is_quotable: false })
    }
}

} // verus!
