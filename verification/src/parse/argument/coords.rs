//! Coordinate tuples: world coordinates, absolute or relative to the
//! executor, and local coordinates along the executor's line of sight.

use super::angle::{at_number, number_follows, skip_mark};
use super::primitives::{
    double_outcome, integer_outcome, parse_double, parse_integer, span_of, Double, Numeral,
    Outcome,
};
use crate::parse::errors::{
    ErrorList, ExpectedLocalCoordinateError, IncompleteLocalCoordinatesError,
    MixedCoordiantesError, ParseError,
};
use crate::parse::reader::Reader;
use crate::span::Span;
use crate::text::{lemma_ws_end, next_pos, peek_at, ws_end};
use vstd::array::*;
use vstd::prelude::*;

verus! {

/// One axis of a world coordinate tuple.
#[derive(Debug, Clone, Copy, PartialEq, Eq, Structural)]
pub struct WorldCoordinate {
    pub value: Double,
    pub relative: bool,
}

/// A tuple of `N` coordinates.
#[derive(Debug, Clone, Copy, PartialEq, Eq)]
pub enum Coordinates<const N: usize> {
    World([WorldCoordinate; N]),
    Local([Double; N]),
}

/// What a coordinate tuple holds, axis by axis.
pub enum CoordinatesView {
    World(Seq<WorldCoordinate>),
    Local(Seq<Double>),
}

impl<const N: usize> View for Coordinates<N> {
    type V = CoordinatesView;

    open spec fn view(&self) -> CoordinatesView {
        match *self {
            Coordinates::World(axes) => CoordinatesView::World(axes@),
            Coordinates::Local(axes) => CoordinatesView::Local(axes@),
        }
    }
}

/// The double-precision number zero.
pub open spec fn zero() -> Double {
    Double { value: Some(Numeral::Zero) }
}

/// A world coordinate that nothing was written for.
pub open spec fn origin() -> WorldCoordinate {
    WorldCoordinate { value: zero(), relative: false }
}

/// The error that the input ended inside the tuple that starts at `start`.
pub open spec fn incomplete(start: int, end: int) -> ParseError {
    ParseError::IncompleteLocalCoordinates(
        IncompleteLocalCoordinatesError { span: span_of(start, end) },
    )
}

/// The error that the character at `pos` belongs to the other kind of
/// coordinates.
pub open spec fn mixed(b: Seq<u8>, pos: int) -> ParseError {
    ParseError::MixedCoordinates(MixedCoordiantesError { span: span_of(pos, next_pos(b, pos)) })
}

/// The error that the character at `pos` is no `^`.
pub open spec fn expected_local(b: Seq<u8>, pos: int) -> ParseError {
    ParseError::ExpectedLocalCoordinate(
        ExpectedLocalCoordinateError { span: span_of(pos, next_pos(b, pos)) },
    )
}

/// What is made of the number of one axis at `pos`: a double-precision
/// number, or, where `integral` holds, an integer.
pub open spec fn scalar_outcome(b: Seq<u8>, pos: int, integral: bool) -> Outcome<Double> {
    if integral {
        let number = integer_outcome(b, pos);
        Outcome {
            value: Double {
                value: match number.value.value {
                    Some(v) => Some(Numeral::Integer(v)),
                    None => None,
                },
            },
            errors: number.errors,
            end: number.end,
        }
    } else {
        double_outcome(b, pos)
    }
}

/// What is made of one local axis that starts at `p`, where a character
/// stands: the `^` may be missing or be a `~`, and the number may be missing.
pub open spec fn local_axis(b: Seq<u8>, p: int) -> Outcome<Double> {
    let marked = peek_at(b, p) == Some('^') || peek_at(b, p) == Some('~');
    let at = if marked {
        p + 1
    } else {
        p
    };
    let found: Seq<ParseError> = if peek_at(b, p) == Some('^') {
        Seq::empty()
    } else if peek_at(b, p) == Some('~') {
        seq![mixed(b, p)]
    } else {
        seq![expected_local(b, p)]
    };
    if number_follows(b, at) {
        let number = double_outcome(b, at);
        Outcome { value: number.value, errors: found + number.errors, end: number.end }
    } else {
        Outcome { value: zero(), errors: found, end: at }
    }
}

/// What is made of `n` local axes from `pos` on, in a tuple that starts at
/// `start`. Where the input ends first, the axes left are zero.
pub open spec fn local_axes(b: Seq<u8>, start: int, pos: int, n: nat) -> Outcome<Seq<Double>>
    decreases n,
{
    if n == 0 {
        Outcome { value: Seq::empty(), errors: Seq::empty(), end: pos }
    } else {
        let p = ws_end(b, pos);
        if p >= b.len() {
            Outcome {
                value: Seq::new(n, |i: int| zero()),
                errors: seq![incomplete(start, p)],
                end: p,
            }
        } else {
            let axis = local_axis(b, p);
            let rest = local_axes(b, start, axis.end, (n - 1) as nat);
            Outcome {
                value: seq![axis.value] + rest.value,
                errors: axis.errors + rest.errors,
                end: rest.end,
            }
        }
    }
}

/// What is made of one world axis that starts at `p`, where a character
/// stands: a `~` makes it relative, a `^` is an error, and only a relative
/// axis may lack its number.
pub open spec fn world_axis(b: Seq<u8>, p: int, integral: bool) -> Outcome<WorldCoordinate> {
    let relative = peek_at(b, p) == Some('~');
    let marked = relative || peek_at(b, p) == Some('^');
    let at = if marked {
        p + 1
    } else {
        p
    };
    let found: Seq<ParseError> = if peek_at(b, p) == Some('^') {
        seq![mixed(b, p)]
    } else {
        Seq::empty()
    };
    if number_follows(b, at) || !relative {
        let number = scalar_outcome(b, at, integral && !relative);
        Outcome {
            value: WorldCoordinate { value: number.value, relative },
            errors: found + number.errors,
            end: number.end,
        }
    } else {
        Outcome { value: WorldCoordinate { value: zero(), relative }, errors: found, end: at }
    }
}

/// What is made of `n` world axes from `pos` on, in a tuple that starts at
/// `start`. Where the input ends first, the axes left are absolute zeros.
pub open spec fn world_axes(b: Seq<u8>, start: int, pos: int, n: nat, integral: bool) -> Outcome<
    Seq<WorldCoordinate>,
>
    decreases n,
{
    if n == 0 {
        Outcome { value: Seq::empty(), errors: Seq::empty(), end: pos }
    } else {
        let p = ws_end(b, pos);
        if p >= b.len() {
            Outcome {
                value: Seq::new(n, |i: int| origin()),
                errors: seq![incomplete(start, p)],
                end: p,
            }
        } else {
            let axis = world_axis(b, p, integral);
            let rest = world_axes(b, start, axis.end, (n - 1) as nat, integral);
            Outcome {
                value: seq![axis.value] + rest.value,
                errors: axis.errors + rest.errors,
                end: rest.end,
            }
        }
    }
}

/// What is made of a tuple of `n` local coordinates at `pos`.
pub open spec fn local_outcome(b: Seq<u8>, pos: int, n: nat) -> Outcome<CoordinatesView> {
    let axes = local_axes(b, pos, pos, n);
    Outcome { value: CoordinatesView::Local(axes.value), errors: axes.errors, end: axes.end }
}

/// What is made of a tuple of `n` world coordinates at `pos`.
pub open spec fn world_outcome(b: Seq<u8>, pos: int, n: nat, integral: bool) -> Outcome<
    CoordinatesView,
> {
    let axes = world_axes(b, pos, pos, n, integral);
    Outcome { value: CoordinatesView::World(axes.value), errors: axes.errors, end: axes.end }
}

/// What is made of a tuple of `n` coordinates at `pos`: local coordinates
/// where it opens with `^`, else world coordinates.
pub open spec fn coordinates_outcome(b: Seq<u8>, pos: int, n: nat, integral: bool) -> Outcome<
    CoordinatesView,
> {
    if peek_at(b, pos) == Some('^') {
        local_outcome(b, pos, n)
    } else {
        world_outcome(b, pos, n, integral)
    }
}

/// Reads the number of one axis.
fn parse_scalar(reader: &mut Reader, errors: &mut ErrorList, integral: bool) -> (r: Double)
    requires
        old(reader).wf(),
    ensures
        final(reader).wf(),
        final(reader).text() == old(reader).text(),
        final(reader).position() == scalar_outcome(
            old(reader).text(),
            old(reader).position(),
            integral,
        ).end,
        r == scalar_outcome(old(reader).text(), old(reader).position(), integral).value,
        final(errors)@ == old(errors)@ + scalar_outcome(
            old(reader).text(),
            old(reader).position(),
            integral,
        ).errors,
{
    if integral {
        let integer = parse_integer(reader, errors);
        Double {
            value: match integer.value {
                Some(v) => Some(Numeral::Integer(v)),
                None => None,
            },
        }
    } else {
        parse_double(reader, errors)
    }
}

/// Reads one local axis at a character.
fn parse_local_axis(reader: &mut Reader, errors: &mut ErrorList) -> (r: Double)
    requires
        old(reader).wf(),
        old(reader).position() < old(reader).text().len(),
    ensures
        final(reader).wf(),
        final(reader).text() == old(reader).text(),
        final(reader).position() == local_axis(old(reader).text(), old(reader).position()).end,
        r == local_axis(old(reader).text(), old(reader).position()).value,
        final(errors)@ == old(errors)@ + local_axis(
            old(reader).text(),
            old(reader).position(),
        ).errors,
{
    let ghost b = reader.text();
    let ghost p = reader.position();
    let here = Span::new(reader.get_pos(), reader.get_next_pos());
    if skip_mark(reader, '^') {
        proof {
            assert(old(errors)@ + Seq::<ParseError>::empty() =~= old(errors)@);
        }
    } else if skip_mark(reader, '~') {
        errors.push(ParseError::MixedCoordinates(MixedCoordiantesError { span: here }));
        proof {
            assert(errors@ =~= old(errors)@ + seq![mixed(b, p)]);
        }
    } else {
        errors.push(
            ParseError::ExpectedLocalCoordinate(ExpectedLocalCoordinateError { span: here }),
        );
        proof {
            assert(errors@ =~= old(errors)@ + seq![expected_local(b, p)]);
        }
    }
    let ghost found = local_axis_found(b, p);
    proof {
        assert(errors@ == old(errors)@ + found);
    }
    if at_number(reader) {
        let ghost before = errors@;
        let value = parse_double(reader, errors);
        proof {
            let number = double_outcome(b, reader_at(b, p));
            assert(errors@ =~= old(errors)@ + (found + number.errors));
        }
        value
    } else {
        Double::zero()
    }
}

/// The errors that the mark of the local axis at `p` gives rise to.
pub open spec fn local_axis_found(b: Seq<u8>, p: int) -> Seq<ParseError> {
    if peek_at(b, p) == Some('^') {
        Seq::empty()
    } else if peek_at(b, p) == Some('~') {
        seq![mixed(b, p)]
    } else {
        seq![expected_local(b, p)]
    }
}

/// The offset behind the mark of the axis at `p`.
pub open spec fn reader_at(b: Seq<u8>, p: int) -> int {
    if peek_at(b, p) == Some('^') || peek_at(b, p) == Some('~') {
        p + 1
    } else {
        p
    }
}

/// Reads one world axis at a character.
fn parse_world_axis(reader: &mut Reader, errors: &mut ErrorList, integral: bool) -> (r:
    WorldCoordinate)
    requires
        old(reader).wf(),
        old(reader).position() < old(reader).text().len(),
    ensures
        final(reader).wf(),
        final(reader).text() == old(reader).text(),
        final(reader).position() == world_axis(
            old(reader).text(),
            old(reader).position(),
            integral,
        ).end,
        r == world_axis(old(reader).text(), old(reader).position(), integral).value,
        final(errors)@ == old(errors)@ + world_axis(
            old(reader).text(),
            old(reader).position(),
            integral,
        ).errors,
{
    let ghost b = reader.text();
    let ghost p = reader.position();
    let here = Span::new(reader.get_pos(), reader.get_next_pos());
    let mut relative = false;
    if skip_mark(reader, '~') {
        relative = true;
        proof {
            assert(old(errors)@ + Seq::<ParseError>::empty() =~= old(errors)@);
        }
    } else if skip_mark(reader, '^') {
        errors.push(ParseError::MixedCoordinates(MixedCoordiantesError { span: here }));
        proof {
            assert(errors@ =~= old(errors)@ + seq![mixed(b, p)]);
        }
    } else {
        proof {
            assert(old(errors)@ + Seq::<ParseError>::empty() =~= old(errors)@);
        }
    }
    let ghost found: Seq<ParseError> = if peek_at(b, p) == Some('^') {
        seq![mixed(b, p)]
    } else {
        Seq::empty()
    };
    proof {
        assert(errors@ == old(errors)@ + found);
    }
    if at_number(reader) || !relative {
        let value = parse_scalar(reader, errors, integral && !relative);
        proof {
            let number = scalar_outcome(b, reader_at(b, p), integral && !relative);
            assert(errors@ =~= old(errors)@ + (found + number.errors));
        }
        WorldCoordinate { value, relative }
    } else {
        WorldCoordinate { value: Double::zero(), relative }
    }
}

/// Reads a tuple of `N` local coordinates.
fn parse_local_coordinates<const N: usize>(reader: &mut Reader, errors: &mut ErrorList) -> (r:
    Coordinates<N>)
    requires
        old(reader).wf(),
    ensures
        final(reader).wf(),
        final(reader).text() == old(reader).text(),
        final(reader).position() == local_outcome(
            old(reader).text(),
            old(reader).position(),
            N as nat,
        ).end,
        r@ == local_outcome(old(reader).text(), old(reader).position(), N as nat).value,
        final(errors)@ == old(errors)@ + local_outcome(
            old(reader).text(),
            old(reader).position(),
            N as nat,
        ).errors,
{
    let ghost b = reader.text();
    let ghost start_pos = reader.position();
    let ghost all = local_axes(b, start_pos, start_pos, N as nat);
    let start = reader.get_pos();
    let mut coords = [Double { value: Some(Numeral::Zero) };N];
    let mut k: usize = 0;
    proof {
        assert(coords@.subrange(0, 0) + all.value =~= all.value);
        assert(old(errors)@ + Seq::<ParseError>::empty() + all.errors =~= old(errors)@
            + all.errors);
    }
    while k < N
        invariant
            k <= N,
            reader.wf(),
            reader.text() == b,
            b == old(reader).text(),
            start_pos == old(reader).position(),
            all == local_axes(b, start_pos, start_pos, N as nat),
            start == start_pos,
            coords@.len() == N,
            forall|j: int| k <= j < N ==> coords@[j] == zero(),
            all.value == coords@.subrange(0, k as int) + local_axes(
                b,
                start_pos,
                reader.position(),
                (N - k) as nat,
            ).value,
            old(errors)@ + all.errors == errors@ + local_axes(
                b,
                start_pos,
                reader.position(),
                (N - k) as nat,
            ).errors,
            all.end == local_axes(b, start_pos, reader.position(), (N - k) as nat).end,
        decreases N - k,
    {
        let ghost pos = reader.position();
        let ghost before = errors@;
        let ghost rest = local_axes(b, start_pos, pos, (N - k) as nat);
        proof {
            reader.lemma_wf();
            lemma_ws_end(b, pos);
        }
        reader.skip_whitespace();
        if !reader.has_more() {
            errors.push(
                ParseError::IncompleteLocalCoordinates(
                    IncompleteLocalCoordinatesError { span: Span::new(start, reader.get_pos()) },
                ),
            );
            proof {
                assert(coords@.subrange(0, k as int) + rest.value =~= coords@);
                assert(errors@ =~= before + rest.errors);
            }
            return Coordinates::Local(coords);
        }
        let ghost p = reader.position();
        let ghost filled = coords@;
        let value = parse_local_axis(reader, errors);
        coords[k] = value;
        proof {
            let axis = local_axis(b, p);
            let tail = local_axes(b, start_pos, axis.end, (N - k - 1) as nat);
            assert(rest.value == seq![axis.value] + tail.value);
            assert(coords@.subrange(0, k + 1) + tail.value =~= filled.subrange(0, k as int)
                + rest.value) by {
                assert(coords@.subrange(0, k + 1) =~= filled.subrange(0, k as int).push(value));
            }
            assert(errors@ + tail.errors =~= before + rest.errors);
        }
        k += 1;
    }
    proof {
        assert(coords@.subrange(0, N as int) =~= coords@);
        let tail = local_axes(b, start_pos, reader.position(), 0);
        assert(coords@ + tail.value =~= coords@);
        assert(errors@ + tail.errors =~= errors@);
    }
    Coordinates::Local(coords)
}

/// Reads a tuple of `N` world coordinates, with integers for the absolute
/// axes where `integral` holds.
fn parse_world_coordinates<const N: usize>(
    reader: &mut Reader,
    errors: &mut ErrorList,
    integral: bool,
) -> (r: Coordinates<N>)
    requires
        old(reader).wf(),
    ensures
        final(reader).wf(),
        final(reader).text() == old(reader).text(),
        final(reader).position() == world_outcome(
            old(reader).text(),
            old(reader).position(),
            N as nat,
            integral,
        ).end,
        r@ == world_outcome(old(reader).text(), old(reader).position(), N as nat, integral).value,
        final(errors)@ == old(errors)@ + world_outcome(
            old(reader).text(),
            old(reader).position(),
            N as nat,
            integral,
        ).errors,
{
    let ghost b = reader.text();
    let ghost start_pos = reader.position();
    let ghost all = world_axes(b, start_pos, start_pos, N as nat, integral);
    let start = reader.get_pos();
    let mut coords = [WorldCoordinate { value: Double { value: Some(Numeral::Zero) }, relative: false };N];
    let mut k: usize = 0;
    proof {
        assert(coords@.subrange(0, 0) + all.value =~= all.value);
        assert(old(errors)@ + Seq::<ParseError>::empty() + all.errors =~= old(errors)@
            + all.errors);
    }
    while k < N
        invariant
            k <= N,
            reader.wf(),
            reader.text() == b,
            b == old(reader).text(),
            start_pos == old(reader).position(),
            all == world_axes(b, start_pos, start_pos, N as nat, integral),
            start == start_pos,
            coords@.len() == N,
            forall|j: int| k <= j < N ==> coords@[j] == origin(),
            all.value == coords@.subrange(0, k as int) + world_axes(
                b,
                start_pos,
                reader.position(),
                (N - k) as nat,
                integral,
            ).value,
            old(errors)@ + all.errors == errors@ + world_axes(
                b,
                start_pos,
                reader.position(),
                (N - k) as nat,
                integral,
            ).errors,
            all.end == world_axes(b, start_pos, reader.position(), (N - k) as nat, integral).end,
        decreases N - k,
    {
        let ghost pos = reader.position();
        let ghost before = errors@;
        let ghost rest = world_axes(b, start_pos, pos, (N - k) as nat, integral);
        proof {
            reader.lemma_wf();
            lemma_ws_end(b, pos);
        }
        reader.skip_whitespace();
        if !reader.has_more() {
            errors.push(
                ParseError::IncompleteLocalCoordinates(
                    IncompleteLocalCoordinatesError { span: Span::new(start, reader.get_pos()) },
                ),
            );
            proof {
                assert(coords@.subrange(0, k as int) + rest.value =~= coords@);
                assert(errors@ =~= before + rest.errors);
            }
            return Coordinates::World(coords);
        }
        let ghost p = reader.position();
        let ghost filled = coords@;
        let value = parse_world_axis(reader, errors, integral);
        coords[k] = value;
        proof {
            let axis = world_axis(b, p, integral);
            let tail = world_axes(b, start_pos, axis.end, (N - k - 1) as nat, integral);
            assert(rest.value == seq![axis.value] + tail.value);
            assert(coords@.subrange(0, k + 1) + tail.value =~= filled.subrange(0, k as int)
                + rest.value) by {
                assert(coords@.subrange(0, k + 1) =~= filled.subrange(0, k as int).push(value));
            }
            assert(errors@ + tail.errors =~= before + rest.errors);
        }
        k += 1;
    }
    proof {
        assert(coords@.subrange(0, N as int) =~= coords@);
        let tail = world_axes(b, start_pos, reader.position(), 0, integral);
        assert(coords@ + tail.value =~= coords@);
        assert(errors@ + tail.errors =~= errors@);
    }
    Coordinates::World(coords)
}

/// Whether a `^` stands at the cursor.
fn at_caret(reader: &Reader) -> (r: bool)
    requires
        reader.wf(),
    ensures
        r == (peek_at(reader.text(), reader.position()) == Some('^')),
{
    match reader.peek() {
        Some(c) => c == '^',
        None => false,
    }
}

/// Reads a block position: three coordinates, whole numbers where they are
/// absolute.
pub fn parse_block_pos(reader: &mut Reader, errors: &mut ErrorList) -> (r: Coordinates<3>)
    requires
        old(reader).wf(),
    ensures
        final(reader).wf(),
        final(reader).text() == old(reader).text(),
        final(reader).position() == coordinates_outcome(
            old(reader).text(),
            old(reader).position(),
            3,
            true,
        ).end,
        r@ == coordinates_outcome(old(reader).text(), old(reader).position(), 3, true).value,
        final(errors)@ == old(errors)@ + coordinates_outcome(
            old(reader).text(),
            old(reader).position(),
            3,
            true,
        ).errors,
{
    if at_caret(reader) {
        parse_local_coordinates::<3>(reader, errors)
    } else {
        parse_world_coordinates::<3>(reader, errors, true)
    }
}

/// Reads a position in space: three coordinates.
pub fn parse_vec3(reader: &mut Reader, errors: &mut ErrorList) -> (r: Coordinates<3>)
    requires
        old(reader).wf(),
    ensures
        final(reader).wf(),
        final(reader).text() == old(reader).text(),
        final(reader).position() == coordinates_outcome(
            old(reader).text(),
            old(reader).position(),
            3,
            false,
        ).end,
        r@ == coordinates_outcome(old(reader).text(), old(reader).position(), 3, false).value,
        final(errors)@ == old(errors)@ + coordinates_outcome(
            old(reader).text(),
            old(reader).position(),
            3,
            false,
        ).errors,
{
    if at_caret(reader) {
        parse_local_coordinates::<3>(reader, errors)
    } else {
        parse_world_coordinates::<3>(reader, errors, false)
    }
}

/// Reads a position in the plane: two coordinates.
pub fn parse_vec2(reader: &mut Reader, errors: &mut ErrorList) -> (r: Coordinates<2>)
    requires
        old(reader).wf(),
    ensures
        final(reader).wf(),
        final(reader).text() == old(reader).text(),
        final(reader).position() == coordinates_outcome(
            old(reader).text(),
            old(reader).position(),
            2,
            false,
        ).end,
        r@ == coordinates_outcome(old(reader).text(), old(reader).position(), 2, false).value,
        final(errors)@ == old(errors)@ + coordinates_outcome(
            old(reader).text(),
            old(reader).position(),
            2,
            false,
        ).errors,
{
    if at_caret(reader) {
        parse_local_coordinates::<2>(reader, errors)
    } else {
        parse_world_coordinates::<2>(reader, errors, false)
    }
}

/// Reads a column position: two world coordinates.
pub fn parse_column_pos(reader: &mut Reader, errors: &mut ErrorList) -> (r: Coordinates<2>)
    requires
        old(reader).wf(),
    ensures
        final(reader).wf(),
        final(reader).text() == old(reader).text(),
        final(reader).position() == world_outcome(
            old(reader).text(),
            old(reader).position(),
            2,
            false,
        ).end,
        r@ == world_outcome(old(reader).text(), old(reader).position(), 2, false).value,
        final(errors)@ == old(errors)@ + world_outcome(
            old(reader).text(),
            old(reader).position(),
            2,
            false,
        ).errors,
{
    parse_world_coordinates::<2>(reader, errors, false)
}

} // verus!
