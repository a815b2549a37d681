//! Angles: a number, relative to the current rotation where it follows `~`.

use super::primitives::{float_outcome, parse_float, Float, Numeral, Outcome};
use crate::parse::errors::{ErrorList, ParseError};
use crate::parse::reader::Reader;
use crate::text::{char_at, char_is_whitespace, is_whitespace, lemma_char_step, peek_at};
use vstd::prelude::*;

verus! {

/// An angle.
#[derive(Debug, Clone, Copy, PartialEq, Eq, Structural)]
pub struct Angle {
    pub value: Float,
    pub relative: bool,
}

/// The offset reached from `pos` once a leading `mark` is stepped over.
pub open spec fn after_mark(b: Seq<u8>, pos: int, mark: char) -> int {
    if peek_at(b, pos) == Some(mark) {
        pos + 1
    } else {
        pos
    }
}

/// A number starts at `pos`: a character stands there that is no whitespace.
pub open spec fn number_follows(b: Seq<u8>, pos: int) -> bool {
    0 <= pos < b.len() && !is_whitespace(char_at(b, pos))
}

/// What [`parse`] makes of the input at `pos`.
pub open spec fn angle_outcome(b: Seq<u8>, pos: int) -> Outcome<Angle> {
    let relative = peek_at(b, pos) == Some('~');
    let at = after_mark(b, pos, '~');
    if number_follows(b, at) {
        let number = float_outcome(b, at);
        Outcome {
            value: Angle { value: number.value, relative },
            errors: number.errors,
            end: number.end,
        }
    } else {
        Outcome {
            value: Angle { value: Float { value: Some(Numeral::Zero) }, relative },
            errors: Seq::empty(),
            end: at,
        }
    }
}

/// Whether a number starts at the cursor.
pub fn at_number(reader: &Reader) -> (r: bool)
    requires
        reader.wf(),
    ensures
        r == number_follows(reader.text(), reader.position()),
{
    match reader.peek() {
        Some(c) => !char_is_whitespace(c),
        None => false,
    }
}

/// Steps over `mark` if it stands at the cursor, and says whether it did.
pub fn skip_mark(reader: &mut Reader, mark: char) -> (found: bool)
    requires
        old(reader).wf(),
        (mark as u32) < 0x80,
    ensures
        final(reader).wf(),
        final(reader).text() == old(reader).text(),
        found == (peek_at(old(reader).text(), old(reader).position()) == Some(mark)),
        final(reader).position() == after_mark(old(reader).text(), old(reader).position(), mark),
{
    let found = match reader.peek() {
        Some(c) => c == mark,
        None => false,
    };
    if found {
        proof {
            reader.lemma_wf();
            lemma_char_step(reader.text(), reader.position());
        }
        reader.advance();
    }
    found
}

/// Reads an angle: an optional `~`, then a number if one follows.
pub fn parse(reader: &mut Reader, errors: &mut ErrorList) -> (r: Angle)
    requires
        old(reader).wf(),
    ensures
        final(reader).wf(),
        final(reader).text() == old(reader).text(),
        final(reader).position() == angle_outcome(old(reader).text(), old(reader).position()).end,
        r == angle_outcome(old(reader).text(), old(reader).position()).value,
        final(errors)@ == old(errors)@ + angle_outcome(
            old(reader).text(),
            old(reader).position(),
        ).errors,
{
    let relative = skip_mark(reader, '~');
    let mut value = Float::zero();
    if at_number(reader) {
        value = parse_float(reader, errors);
    } else {
        proof {
            assert(old(errors)@ + Seq::<ParseError>::empty() =~= old(errors)@);
        }
    }
    Angle { value, relative }
}

} // verus!
