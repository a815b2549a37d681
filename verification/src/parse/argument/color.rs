//! Color arguments.

use super::primitives::{word_at, word_span, Outcome};
use crate::arguments::color::{color_of_letters, letters_lowered, ChatColor};
use crate::parse::errors::{ErrorList, InvalidColorError, ParseError};
use crate::parse::reader::Reader;
use crate::span::Span;
use crate::text::{lemma_str_is_text, word_end};
use vstd::prelude::*;

verus! {

/// A chat color; absent where the word names none.
#[derive(Debug, Clone, Copy, PartialEq, Eq, Structural)]
pub struct Color {
    pub color: Option<ChatColor>,
}

/// What [`parse`] makes of the word at `pos`.
pub open spec fn color_outcome(b: Seq<u8>, pos: int) -> Outcome<Color> {
    let color = color_of_letters(letters_lowered(word_at(b, pos)));
    Outcome {
        value: Color { color },
        errors: if color is None {
            seq![ParseError::InvalidColor(InvalidColorError { span: word_span(b, pos) })]
        } else {
            Seq::empty()
        },
        end: word_end(b, pos),
    }
}

/// Reads the name of a chat color.
pub fn parse(reader: &mut Reader, errors: &mut ErrorList) -> (r: Color)
    requires
        old(reader).wf(),
    ensures
        final(reader).wf(),
        final(reader).text() == old(reader).text(),
        final(reader).position() == color_outcome(old(reader).text(), old(reader).position()).end,
        r == color_outcome(old(reader).text(), old(reader).position()).value,
        final(errors)@ == old(errors)@ + color_outcome(
            old(reader).text(),
            old(reader).position(),
        ).errors,
{
    let start = reader.get_pos();
    let name = reader.read_literal();
    let span = Span::new(start, reader.get_pos());
    proof {
        lemma_str_is_text(name);
        assert(old(errors)@ + Seq::<ParseError>::empty() =~= old(errors)@);
        assert(old(errors)@.push(ParseError::InvalidColor(InvalidColorError { span })) =~= old(
            errors,
        )@ + seq![ParseError::InvalidColor(InvalidColorError { span })]);
    }
    let color = ChatColor::from_string(name);
    if color.is_none() {
        errors.push(ParseError::InvalidColor(InvalidColorError { span }));
    }
    Color { color }
}

} // verus!
