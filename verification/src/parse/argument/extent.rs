//! Where an argument parser stops and where its errors lie: every parser
//! stops between its start and the end of the text, reports only spans in
//! between, and makes progress where it starts at a word.

use super::angle::{after_mark, angle_outcome, number_follows};
use super::color::color_outcome;
use super::coords::{local_axes, local_axis, scalar_outcome, world_axes, world_axis};
use super::primitives::{
    bool_outcome, double_outcome, float_outcome, integer_outcome, quote_end, text_outcome,
    word_span,
};
use super::{argument_outcome, Argument, StringKind};
use crate::parse::errors::ParseError;
use crate::text::{
    boundary, char_at, is_text, is_whitespace, lemma_char_step, lemma_word_end, lemma_word_end_ge,
    lemma_ws_end, lemma_ws_end_ge, next_pos, peek_at, remaining, word_end, ws_end,
};
use vstd::prelude::*;

verus! {

/// The span of `e` lies in `[lo, hi]`.
pub open spec fn error_within(e: ParseError, lo: int, hi: int) -> bool {
    lo <= e.span().start <= e.span().end <= hi
}

/// The span of every error of `errors` lies in `[lo, hi]`.
pub open spec fn within(errors: Seq<ParseError>, lo: int, hi: int) -> bool {
    forall|i: int| 0 <= i < errors.len() ==> error_within(#[trigger] errors[i], lo, hi)
}

/// A character that is no whitespace stands at `pos`.
pub open spec fn at_word(b: Seq<u8>, pos: int) -> bool {
    0 <= pos < b.len() && !is_whitespace(char_at(b, pos))
}

/// A parser that started at `pos` and stopped at `end` with `errors`
/// stopped on a boundary inside the text, reported only what lies between,
/// and went ahead if it started at a word.
pub open spec fn extent_ok(b: Seq<u8>, pos: int, end: int, errors: Seq<ParseError>) -> bool {
    &&& pos <= end <= b.len()
    &&& boundary(b, end)
    &&& within(errors, pos, end)
    &&& at_word(b, pos) ==> pos < end
}

/// Errors that lie in a range lie in every range around it.
pub proof fn lemma_within_widen(errors: Seq<ParseError>, lo: int, hi: int, lo2: int, hi2: int)
    requires
        within(errors, lo, hi),
        lo2 <= lo,
        hi <= hi2,
    ensures
        within(errors, lo2, hi2),
{
    assert forall|i: int| 0 <= i < errors.len() implies error_within(
        #[trigger] errors[i],
        lo2,
        hi2,
    ) by {
        assert(error_within(errors[i], lo, hi));
    }
}

/// Errors that lie in a range, followed by errors that lie in it, lie in it.
pub proof fn lemma_within_add(first: Seq<ParseError>, second: Seq<ParseError>, lo: int, hi: int)
    requires
        within(first, lo, hi),
        within(second, lo, hi),
    ensures
        within(first + second, lo, hi),
{
    assert forall|i: int| 0 <= i < (first + second).len() implies error_within(
        #[trigger] (first + second)[i],
        lo,
        hi,
    ) by {
        if i < first.len() {
            assert(error_within(first[i], lo, hi));
        } else {
            assert(error_within(second[i - first.len()], lo, hi));
        }
    }
}

/// The word at a boundary ends on a boundary inside the text, and its span
/// is what lies between.
pub proof fn lemma_word_extent(b: Seq<u8>, pos: int)
    requires
        is_text(b),
        boundary(b, pos),
        b.len() <= usize::MAX,
    ensures
        pos <= word_end(b, pos) <= b.len(),
        boundary(b, word_end(b, pos)),
        word_span(b, pos).start == pos,
        word_span(b, pos).end == word_end(b, pos),
        at_word(b, pos) ==> pos < word_end(b, pos),
{
    lemma_word_end(b, pos);
}

/// The parsers of single words keep to [`extent_ok`].
pub proof fn lemma_word_parsers(b: Seq<u8>, pos: int)
    requires
        is_text(b),
        boundary(b, pos),
        b.len() <= usize::MAX,
    ensures
        extent_ok(b, pos, bool_outcome(b, pos).end, bool_outcome(b, pos).errors),
        extent_ok(b, pos, integer_outcome(b, pos).end, integer_outcome(b, pos).errors),
        extent_ok(b, pos, float_outcome(b, pos).end, float_outcome(b, pos).errors),
        extent_ok(b, pos, double_outcome(b, pos).end, double_outcome(b, pos).errors),
        extent_ok(b, pos, color_outcome(b, pos).end, color_outcome(b, pos).errors),
        extent_ok(b, pos, scalar_outcome(b, pos, true).end, scalar_outcome(b, pos, true).errors),
        extent_ok(b, pos, scalar_outcome(b, pos, false).end, scalar_outcome(b, pos, false).errors),
{
    lemma_word_extent(b, pos);
}

/// What is known of the offset behind a mark: it is a boundary inside the
/// text, at most one past the start.
pub proof fn lemma_after_mark(b: Seq<u8>, pos: int, mark: char)
    requires
        is_text(b),
        boundary(b, pos),
        (mark as u32) < 0x80,
    ensures
        pos <= after_mark(b, pos, mark) <= pos + 1,
        after_mark(b, pos, mark) <= b.len(),
        boundary(b, after_mark(b, pos, mark)),
        peek_at(b, pos) == Some(mark) ==> next_pos(b, pos) == pos + 1,
{
    if peek_at(b, pos) == Some(mark) {
        lemma_char_step(b, pos);
    }
}

/// The angle parser keeps to [`extent_ok`].
pub proof fn lemma_angle_extent(b: Seq<u8>, pos: int)
    requires
        is_text(b),
        boundary(b, pos),
        b.len() <= usize::MAX,
    ensures
        extent_ok(b, pos, angle_outcome(b, pos).end, angle_outcome(b, pos).errors),
{
    lemma_after_mark(b, pos, '~');
    let at = after_mark(b, pos, '~');
    if number_follows(b, at) {
        lemma_word_parsers(b, at);
        lemma_within_widen(float_outcome(b, at).errors, at, float_outcome(b, at).end, pos, float_outcome(b, at).end);
    }
}

/// The offset of a closing quote lies at or after the start of the search,
/// on a boundary inside the text.
pub proof fn lemma_quote_end(b: Seq<u8>, i: int, quote: char)
    requires
        is_text(b),
        boundary(b, i),
    ensures
        quote_end(b, i, quote) matches Some(close) ==> i <= close < b.len() && boundary(b, close)
            && char_at(b, close) == quote,
    decreases remaining(b, i),
{
    if 0 <= i < b.len() {
        lemma_char_step(b, i);
        let n = next_pos(b, i);
        if char_at(b, i) == quote {
        } else if char_at(b, i) == '\\' {
            if n < b.len() {
                lemma_char_step(b, n);
            }
            lemma_quote_end(b, next_pos(b, n), quote);
        } else {
            lemma_quote_end(b, n, quote);
        }
    }
}

/// The string parser keeps to [`extent_ok`], and so does the error that
/// stops it.
pub proof fn lemma_text_extent(b: Seq<u8>, pos: int, kind: StringKind, strings: Seq<Seq<char>>)
    requires
        is_text(b),
        boundary(b, pos),
        b.len() <= usize::MAX,
    ensures
        extent_ok(
            b,
            pos,
            text_outcome(b, pos, kind, strings).end,
            text_outcome(b, pos, kind, strings).errors,
        ),
        text_outcome(b, pos, kind, strings).result matches Err(e) ==> error_within(
            e,
            pos,
            text_outcome(b, pos, kind, strings).end,
        ),
{
    lemma_word_extent(b, pos);
    crate::text::is_char_boundary_at_end(b);
    if kind == StringKind::GreedyPhrase {
    } else {
        match peek_at(b, pos) {
            Some(quote) => {
                if quote == '"' || quote == '\'' {
                    lemma_char_step(b, pos);
                    lemma_quote_end(b, pos + 1, quote);
                    match quote_end(b, pos + 1, quote) {
                        Some(close) => {
                            lemma_char_step(b, close);
                        },
                        None => {},
                    }
                }
            },
            None => {},
        }
    }
}

/// Local axes keep to [`extent_ok`], with spans from the start of the tuple on.
pub proof fn lemma_local_axes(b: Seq<u8>, start: int, pos: int, n: nat)
    requires
        is_text(b),
        boundary(b, pos),
        0 <= start <= pos,
        b.len() <= usize::MAX,
    ensures
        pos <= local_axes(b, start, pos, n).end <= b.len(),
        boundary(b, local_axes(b, start, pos, n).end),
        within(local_axes(b, start, pos, n).errors, start, local_axes(b, start, pos, n).end),
        n > 0 && at_word(b, pos) ==> pos < local_axes(b, start, pos, n).end,
    decreases n,
{
    if n > 0 {
        lemma_ws_end(b, pos);
        lemma_ws_end_ge(b, pos);
        let p = ws_end(b, pos);
        if p < b.len() {
            lemma_char_step(b, p);
            lemma_word_end_ge(b, p);
            let marked = peek_at(b, p) == Some('^') || peek_at(b, p) == Some('~');
            let at = if marked {
                p + 1
            } else {
                p
            };
            if number_follows(b, at) {
                lemma_word_parsers(b, at);
            }
            let axis = local_axis(b, p);
            assert(p < axis.end <= b.len());
            assert(boundary(b, axis.end));
            assert(within(axis.errors, p, axis.end)) by {
                let found: Seq<ParseError> = if peek_at(b, p) == Some('^') {
                    Seq::empty()
                } else if peek_at(b, p) == Some('~') {
                    seq![super::coords::mixed(b, p)]
                } else {
                    seq![super::coords::expected_local(b, p)]
                };
                lemma_word_end_ge(b, p + crate::text::width_at(b, p));
                assert(within(found, p, axis.end));
                if number_follows(b, at) {
                    let number = double_outcome(b, at);
                    lemma_within_widen(number.errors, at, number.end, p, axis.end);
                    lemma_within_add(found, number.errors, p, axis.end);
                }
            }
            lemma_local_axes(b, start, axis.end, (n - 1) as nat);
            let rest = local_axes(b, start, axis.end, (n - 1) as nat);
            lemma_within_widen(axis.errors, p, axis.end, start, rest.end);
            lemma_within_add(axis.errors, rest.errors, start, rest.end);
        }
    }
}

/// World axes keep to [`extent_ok`], with spans from the start of the tuple on.
pub proof fn lemma_world_axes(b: Seq<u8>, start: int, pos: int, n: nat, integral: bool)
    requires
        is_text(b),
        boundary(b, pos),
        0 <= start <= pos,
        b.len() <= usize::MAX,
    ensures
        pos <= world_axes(b, start, pos, n, integral).end <= b.len(),
        boundary(b, world_axes(b, start, pos, n, integral).end),
        within(
            world_axes(b, start, pos, n, integral).errors,
            start,
            world_axes(b, start, pos, n, integral).end,
        ),
        n > 0 && at_word(b, pos) ==> pos < world_axes(b, start, pos, n, integral).end,
    decreases n,
{
    if n > 0 {
        lemma_ws_end(b, pos);
        lemma_ws_end_ge(b, pos);
        let p = ws_end(b, pos);
        if p < b.len() {
            lemma_char_step(b, p);
            lemma_word_end_ge(b, p);
            let relative = peek_at(b, p) == Some('~');
            let marked = relative || peek_at(b, p) == Some('^');
            let at = if marked {
                p + 1
            } else {
                p
            };
            lemma_word_parsers(b, at);
            let axis = world_axis(b, p, integral);
            assert(p < axis.end <= b.len());
            assert(boundary(b, axis.end));
            assert(within(axis.errors, p, axis.end)) by {
                let found: Seq<ParseError> = if peek_at(b, p) == Some('^') {
                    seq![super::coords::mixed(b, p)]
                } else {
                    Seq::empty()
                };
                assert(within(found, p, axis.end));
                if number_follows(b, at) || !relative {
                    let number = scalar_outcome(b, at, integral && !relative);
                    lemma_within_widen(number.errors, at, number.end, p, axis.end);
                    lemma_within_add(found, number.errors, p, axis.end);
                }
            }
            lemma_world_axes(b, start, axis.end, (n - 1) as nat, integral);
            let rest = world_axes(b, start, axis.end, (n - 1) as nat, integral);
            lemma_within_widen(axis.errors, p, axis.end, start, rest.end);
            lemma_within_add(axis.errors, rest.errors, start, rest.end);
        }
    }
}

/// Every argument parser keeps to [`extent_ok`], and so does the error
/// that stops it.
pub proof fn lemma_argument_extent(kind: Argument, b: Seq<u8>, pos: int, strings: Seq<Seq<char>>)
    requires
        is_text(b),
        boundary(b, pos),
        b.len() <= usize::MAX,
    ensures
        extent_ok(
            b,
            pos,
            argument_outcome(kind, b, pos, strings).end,
            argument_outcome(kind, b, pos, strings).errors,
        ),
        argument_outcome(kind, b, pos, strings).result matches Err(e) ==> error_within(
            e,
            pos,
            argument_outcome(kind, b, pos, strings).end,
        ),
{
    lemma_word_parsers(b, pos);
    lemma_word_extent(b, pos);
    match kind {
        Argument::String(string_kind) => {
            lemma_text_extent(b, pos, string_kind, strings);
        },
        Argument::Angle => {
            lemma_angle_extent(b, pos);
        },
        Argument::BlockPos => {
            lemma_local_axes(b, pos, pos, 3);
            lemma_world_axes(b, pos, pos, 3, true);
        },
        Argument::ColumnPos => {
            lemma_world_axes(b, pos, pos, 2, false);
        },
        Argument::Vec2 => {
            lemma_local_axes(b, pos, pos, 2);
            lemma_world_axes(b, pos, pos, 2, false);
        },
        Argument::Vec3 => {
            lemma_local_axes(b, pos, pos, 3);
            lemma_world_axes(b, pos, pos, 3, false);
        },
        _ => {},
    }
}

} // verus!
