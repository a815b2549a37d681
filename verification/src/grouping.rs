//! Partitioning a text into commands and comments by indentation.

use crate::parse::errors::{IndentationError, IndentationErrorKind, ParseError};
use crate::parse::reader::Reader;
use crate::span::Span;
use crate::text::{
    boundary, char_at, char_at_offset, char_is_whitespace, is_text, is_whitespace, lemma_ascii_at,
    lemma_str_is_text, remaining,
};
use std::ops::Range;
use vstd::prelude::*;
use vstd::string::*;

verus! {

/// What a group of lines is.
#[derive(Debug, Clone, Copy, PartialEq, Eq, Structural)]
pub enum GroupKind {
    /// A command: a line at the indentation of its block, with the more
    /// deeply indented lines that follow it.
    Command,
    /// A comment line.
    Comment,
}

/// The byte of a space.
pub const SPACE: u8 = 0x20;

/// The byte of a line feed.
pub const LINE_FEED: u8 = 0x0A;

/// The offset of the first line feed at or after `i`, or the end of the text.
pub open spec fn line_end(b: Seq<u8>, i: int) -> int
    decreases remaining(b, i),
{
    if 0 <= i < b.len() && b[i] != LINE_FEED {
        line_end(b, i + 1)
    } else {
        i
    }
}

/// The offset of the first byte at or after `i` that is no space, or the
/// end of the text.
pub open spec fn spaces_end(b: Seq<u8>, i: int) -> int
    decreases remaining(b, i),
{
    if 0 <= i < b.len() && b[i] == SPACE {
        spaces_end(b, i + 1)
    } else {
        i
    }
}

/// The groups found so far, and the command that later lines may still
/// continue.
pub struct GroupState {
    pub open: Option<Range<usize>>,
    pub groups: Seq<(Range<usize>, GroupKind)>,
}

/// The range from `start` to `end`.
pub open spec fn range_of(start: int, end: int) -> Range<usize> {
    Range { start: start as usize, end: end as usize }
}

/// The groups of `state` once its open command is closed.
pub open spec fn flushed(state: GroupState) -> Seq<(Range<usize>, GroupKind)> {
    match state.open {
        Some(group) => state.groups.push((group, GroupKind::Command)),
        None => state.groups,
    }
}

/// The error that the line `[s, e)` breaks the indentation rules.
pub open spec fn indentation_error(s: int, e: int, kind: IndentationErrorKind) -> ParseError {
    ParseError::Indentation(
        IndentationError { span: Span { start: s as usize, end: e as usize }, kind },
    )
}

/// What the line that starts at `s` does to `state` in a block whose lines
/// are indented by `common` spaces.
pub open spec fn line_step(b: Seq<u8>, s: int, common: int, state: GroupState) -> Result<
    GroupState,
    ParseError,
> {
    let e = line_end(b, s);
    let t = spaces_end(b, s);
    let indent = t - s;
    if t >= e {
        Ok(state)
    } else if char_at(b, t) == '#' && indent <= common {
        Ok(
            GroupState {
                open: None,
                groups: flushed(state).push((range_of(s, e), GroupKind::Comment)),
            },
        )
    } else if is_whitespace(char_at(b, t)) {
        Err(indentation_error(s, e, IndentationErrorKind::MixedWhitespace))
    } else if indent < common {
        Err(indentation_error(s, e, IndentationErrorKind::InvalidIndentation))
    } else if indent > common {
        match state.open {
            Some(group) => Ok(
                GroupState { open: Some(range_of(group.start as int, e)), groups: state.groups },
            ),
            None => Err(indentation_error(s, e, IndentationErrorKind::InvalidIndentation)),
        }
    } else {
        Ok(GroupState { open: Some(range_of(s, e)), groups: flushed(state) })
    }
}

/// The groups of the text from the line that starts at `s` on, given the
/// state reached before that line.
pub open spec fn group_from(b: Seq<u8>, s: int, common: int, state: GroupState) -> Result<
    Seq<(Range<usize>, GroupKind)>,
    ParseError,
>
    decreases remaining(b, s),
{
    match line_step(b, s, common, state) {
        Err(e) => Err(e),
        Ok(next) => {
            let e = line_end(b, s);
            if s < 0 || e >= b.len() {
                Ok(flushed(next))
            } else {
                proof {
                    lemma_line_end(b, s);
                }
                group_from(b, e + 1, common, next)
            }
        },
    }
}

/// The groups of the text from `offset` on, in a block whose lines are
/// indented by `common` spaces.
pub open spec fn grouped(b: Seq<u8>, offset: int, common: int) -> Result<
    Seq<(Range<usize>, GroupKind)>,
    ParseError,
> {
    group_from(b, offset, common, GroupState { open: None, groups: Seq::empty() })
}

/// A line ends at or after its start, inside the text, at a line feed or
/// at the end of the text, with no line feed before.
pub proof fn lemma_line_end(b: Seq<u8>, i: int)
    ensures
        i <= line_end(b, i),
        0 <= i <= b.len() ==> line_end(b, i) <= b.len(),
        0 <= i && line_end(b, i) < b.len() ==> b[line_end(b, i)] == LINE_FEED,
        forall|k: int| 0 <= i <= k < line_end(b, i) ==> b[k] != LINE_FEED,
    decreases remaining(b, i),
{
    if 0 <= i < b.len() && b[i] != LINE_FEED {
        lemma_line_end(b, i + 1);
    }
}

/// Leading spaces end at or after their start, before the end of the
/// line, with only spaces before.
pub proof fn lemma_spaces_end(b: Seq<u8>, i: int)
    ensures
        i <= spaces_end(b, i),
        0 <= i <= b.len() ==> spaces_end(b, i) <= line_end(b, i),
        0 <= i && spaces_end(b, i) < b.len() ==> b[spaces_end(b, i)] != SPACE,
        forall|k: int| 0 <= i <= k < spaces_end(b, i) ==> b[k] == SPACE,
    decreases remaining(b, i),
{
    if 0 <= i < b.len() && b[i] == SPACE {
        lemma_spaces_end(b, i + 1);
        lemma_line_end(b, i);
    } else {
        lemma_line_end(b, i);
    }
}

/// From a boundary on, the bytes up to the end of the leading spaces and up
/// to the end of the line stand on boundaries, and so does the start of
/// the next line.
pub proof fn lemma_line_boundaries(b: Seq<u8>, i: int)
    requires
        is_text(b),
        boundary(b, i),
    ensures
        boundary(b, spaces_end(b, i)),
        boundary(b, line_end(b, i)),
        line_end(b, i) < b.len() ==> boundary(b, line_end(b, i) + 1),
{
    lemma_line_end(b, i);
    lemma_spaces_end(b, i);
    lemma_spaces_boundary(b, i);
    let e = line_end(b, i);
    crate::text::is_char_boundary_at_end(b);
    if e < b.len() {
        lemma_ascii_at(b, e);
    }
}

/// From a boundary on, leading spaces end on a boundary.
proof fn lemma_spaces_boundary(b: Seq<u8>, i: int)
    requires
        is_text(b),
        boundary(b, i),
    ensures
        boundary(b, spaces_end(b, i)),
    decreases remaining(b, i),
{
    if 0 <= i < b.len() && b[i] == SPACE {
        lemma_ascii_at(b, i);
        lemma_spaces_boundary(b, i + 1);
    }
}

/// Every byte of `b` in `[lo, hi)` is a space or a line feed.
pub open spec fn blank(b: Seq<u8>, lo: int, hi: int) -> bool {
    forall|k: int| lo <= k < hi ==> (#[trigger] b[k] == SPACE || b[k] == LINE_FEED)
}

/// Offset `k` lies in one of `groups`.
pub open spec fn in_groups(groups: Seq<(Range<usize>, GroupKind)>, k: int) -> bool {
    exists|g: int| 0 <= g < groups.len() && (#[trigger] groups[g]).0.start <= k < groups[g].0.end
}

/// `groups` are the lines of `b` from `offset` on, up to blank lines:
/// they follow each other in the text, each runs from the start of a line
/// to the end of a line, and every byte outside them is a space or a line
/// feed.
pub open spec fn covers(b: Seq<u8>, offset: int, groups: Seq<(Range<usize>, GroupKind)>) -> bool {
    &&& forall|g: int|
        0 <= g < groups.len() ==> {
            &&& offset <= (#[trigger] groups[g]).0.start < groups[g].0.end <= b.len()
            &&& groups[g].0.start == offset || b[groups[g].0.start - 1] == LINE_FEED
            &&& groups[g].0.end == b.len() || b[groups[g].0.end as int] == LINE_FEED
        }
    &&& forall|g: int, h: int|
        0 <= g < h < groups.len() ==> (#[trigger] groups[g]).0.end < (#[trigger] groups[h]).0.start
    &&& forall|k: int|
        offset <= k < b.len() ==> in_groups(groups, k) || #[trigger] b[k] == SPACE || b[k]
            == LINE_FEED
}

/// Offset `k` lies in the open command of `state`.
pub open spec fn in_open(state: GroupState, k: int) -> bool {
    match state.open {
        Some(group) => group.start <= k < group.end,
        None => false,
    }
}

/// The range `[start, end)` runs from the start of a line to the end of a
/// line of the text from `offset` on.
pub open spec fn whole_lines(b: Seq<u8>, offset: int, start: int, end: int) -> bool {
    &&& offset <= start < end <= b.len()
    &&& start == offset || b[start - 1] == LINE_FEED
    &&& end == b.len() || b[end] == LINE_FEED
}

/// What holds of the state after the lines before `upto` were read: the
/// groups and the open command are whole lines before `upto`, in the order
/// of the text, and every byte before `upto` lies in one of them or is a
/// space or a line feed.
pub open spec fn covered(b: Seq<u8>, offset: int, state: GroupState, upto: int) -> bool {
    &&& forall|g: int|
        0 <= g < state.groups.len() ==> whole_lines(
            b,
            offset,
            (#[trigger] state.groups[g]).0.start as int,
            state.groups[g].0.end as int,
        ) && state.groups[g].0.end <= upto
    &&& forall|g: int, h: int|
        0 <= g < h < state.groups.len() ==> (#[trigger] state.groups[g]).0.end < (
        #[trigger] state.groups[h]).0.start
    &&& match state.open {
        Some(group) => {
            &&& whole_lines(b, offset, group.start as int, group.end as int)
            &&& group.end <= upto
            &&& forall|g: int|
                0 <= g < state.groups.len() ==> (#[trigger] state.groups[g]).0.end < group.start
        },
        None => true,
    }
    &&& forall|k: int|
        offset <= k < upto ==> in_groups(state.groups, k) || in_open(state, k) || #[trigger] b[k]
            == SPACE || b[k] == LINE_FEED
}

/// An offset in one of the groups stays in one of them when a group is added.
proof fn lemma_in_groups_push(
    groups: Seq<(Range<usize>, GroupKind)>,
    added: (Range<usize>, GroupKind),
    k: int,
)
    ensures
        in_groups(groups, k) ==> in_groups(groups.push(added), k),
        added.0.start <= k < added.0.end ==> in_groups(groups.push(added), k),
{
    let more = groups.push(added);
    if in_groups(groups, k) {
        let g = choose|g: int|
            0 <= g < groups.len() && (#[trigger] groups[g]).0.start <= k < groups[g].0.end;
        assert(more[g] == groups[g]);
    }
    if added.0.start <= k < added.0.end {
        assert(more[groups.len() as int] == added);
    }
}

/// Closing the open command keeps what is covered.
proof fn lemma_flush_covered(b: Seq<u8>, offset: int, state: GroupState, upto: int)
    requires
        covered(b, offset, state, upto),
    ensures
        covered(b, offset, GroupState { open: None, groups: flushed(state) }, upto),
{
    let after = GroupState { open: None, groups: flushed(state) };
    match state.open {
        Some(group) => {
            let added = (group, GroupKind::Command);
            assert forall|k: int| offset <= k < upto implies in_groups(after.groups, k) || in_open(
                after,
                k,
            ) || #[trigger] b[k] == SPACE || b[k] == LINE_FEED by {
                lemma_in_groups_push(state.groups, added, k);
            }
        },
        None => {},
    }
}

/// Adding a group of whole lines that starts at or after `upto` extends
/// what is covered to the end of the group.
proof fn lemma_push_covered(
    b: Seq<u8>,
    offset: int,
    groups: Seq<(Range<usize>, GroupKind)>,
    upto: int,
    added: (Range<usize>, GroupKind),
)
    requires
        covered(b, offset, GroupState { open: None, groups }, upto),
        whole_lines(b, offset, added.0.start as int, added.0.end as int),
        added.0.start == upto,
        forall|g: int| 0 <= g < groups.len() ==> (#[trigger] groups[g]).0.end < upto,
    ensures
        covered(
            b,
            offset,
            GroupState { open: None, groups: groups.push(added) },
            added.0.end as int,
        ),
{
    let before = GroupState { open: None, groups };
    let after = GroupState { open: None, groups: groups.push(added) };
    assert forall|k: int| offset <= k < added.0.end implies in_groups(after.groups, k) || in_open(
        after,
        k,
    ) || #[trigger] b[k] == SPACE || b[k] == LINE_FEED by {
        lemma_in_groups_push(groups, added, k);
        if k < upto {
            assert(in_groups(before.groups, k) || in_open(before, k) || b[k] == SPACE || b[k]
                == LINE_FEED);
        }
    }
    assert forall|g: int| 0 <= g < after.groups.len() implies whole_lines(
        b,
        offset,
        (#[trigger] after.groups[g]).0.start as int,
        after.groups[g].0.end as int,
    ) && after.groups[g].0.end <= added.0.end by {
        if g < groups.len() {
            assert(after.groups[g] == before.groups[g]);
        }
    }
    assert forall|g: int, h: int| 0 <= g < h < after.groups.len() implies (
    #[trigger] after.groups[g]).0.end < (#[trigger] after.groups[h]).0.start by {
        assert(after.groups[g] == before.groups[g]);
        if h < groups.len() {
            assert(after.groups[h] == before.groups[h]);
        }
    }
}

/// Partitions the text from `offset` on into commands and comments. A
/// line that is indented like the block starts a command, which deeper
/// lines continue; a line that starts with `#` and is not indented deeper
/// than the block is a comment; blank lines belong to nothing.
pub fn group(string: &str, offset: usize, common_indent: usize) -> (r: Result<
    Vec<(Range<usize>, GroupKind)>,
    ParseError,
>)
    requires
        boundary(string.spec_bytes(), offset as int),
    ensures
        match r {
            Ok(groups) => grouped(string.spec_bytes(), offset as int, common_indent as int) == Ok::<
                Seq<(Range<usize>, GroupKind)>,
                ParseError,
            >(groups@) && covers(string.spec_bytes(), offset as int, groups@),
            Err(e) => grouped(string.spec_bytes(), offset as int, common_indent as int) == Err::<
                Seq<(Range<usize>, GroupKind)>,
                ParseError,
            >(e) && offset <= e.span().start <= e.span().end <= string.spec_bytes().len(),
        },
{
    let ghost b = string.spec_bytes();
    let ghost common = common_indent as int;
    let bytes = string.as_bytes();
    let len = bytes.len();
    let mut groups: Vec<(Range<usize>, GroupKind)> = Vec::new();
    let mut open: Option<Range<usize>> = None;
    let mut s: usize = offset;
    proof {
        lemma_str_is_text(string);
    }
    loop
        invariant_except_break
            grouped(b, offset as int, common) == group_from(
                b,
                s as int,
                common,
                GroupState { open, groups: groups@ },
            ),
            covered(b, offset as int, GroupState { open, groups: groups@ }, s as int),
            forall|g: int| 0 <= g < groups@.len() ==> (#[trigger] groups@[g]).0.end < s,
            open matches Some(o) ==> o.end < s,
        invariant
            bytes@ == b,
            b == string.spec_bytes(),
            common == common_indent,
            is_text(b),
            len == b.len(),
            offset <= s <= len,
            boundary(b, s as int),
            s == offset || b[s - 1] == LINE_FEED,
        ensures
            grouped(b, offset as int, common) == Ok::<Seq<(Range<usize>, GroupKind)>, ParseError>(
                flushed(GroupState { open, groups: groups@ }),
            ),
            covered(b, offset as int, GroupState { open, groups: groups@ }, len as int),
        decreases len - s,
    {
        let ghost before = GroupState { open, groups: groups@ };
        proof {
            lemma_line_end(b, s as int);
            lemma_spaces_end(b, s as int);
            lemma_line_boundaries(b, s as int);
        }
        let mut e: usize = s;
        while e < len && bytes[e] != LINE_FEED
            invariant
                bytes@ == b,
                len == b.len(),
                s <= e <= len,
                line_end(b, s as int) == line_end(b, e as int),
            decreases len - e,
        {
            e += 1;
        }
        let mut t: usize = s;
        while t < e && bytes[t] == SPACE
            invariant
                bytes@ == b,
                len == b.len(),
                s <= t <= e <= len,
                e == line_end(b, s as int),
                e < len ==> b[e as int] == LINE_FEED,
                spaces_end(b, s as int) == spaces_end(b, t as int),
            decreases e - t,
        {
            t += 1;
        }
        assert(t == spaces_end(b, s as int));
        if t < e {
            let first = match char_at_offset(string, t) {
                Some(c) => c,
                None => ' ',
            };
            let indent = t - s;
            let line = s..e;
            proof {
                assert(whole_lines(b, offset as int, s as int, e as int));
                assert(line == range_of(s as int, e as int));
            }
            if first == '#' && indent <= common_indent {
                proof {
                    lemma_flush_covered(b, offset as int, before, s as int);
                }
                match open {
                    Some(group) => {
                        groups.push((group, GroupKind::Command));
                    },
                    None => {},
                }
                open = None;
                proof {
                    lemma_push_covered(b, offset as int, groups@, s as int, (line, GroupKind::Comment));
                }
                groups.push((line, GroupKind::Comment));
            } else if char_is_whitespace(first) {
                return Err(
                    ParseError::Indentation(
                        IndentationError {
                            span: Span::new(s, e),
                            kind: IndentationErrorKind::MixedWhitespace,
                        },
                    ),
                );
            } else if indent < common_indent {
                return Err(
                    ParseError::Indentation(
                        IndentationError {
                            span: Span::new(s, e),
                            kind: IndentationErrorKind::InvalidIndentation,
                        },
                    ),
                );
            } else if indent > common_indent {
                match open {
                    Some(group) => {
                        open = Some(group.start..e);
                        proof {
                            let after = GroupState { open, groups: groups@ };
                            assert forall|k: int| offset <= k < e implies in_groups(
                                after.groups,
                                k,
                            ) || in_open(after, k) || #[trigger] b[k] == SPACE || b[k]
                                == LINE_FEED by {
                                if k < s {
                                    assert(in_groups(before.groups, k) || in_open(before, k)
                                        || b[k] == SPACE || b[k] == LINE_FEED);
                                }
                            }
                        }
                    },
                    None => {
                        return Err(
                            ParseError::Indentation(
                                IndentationError {
                                    span: Span::new(s, e),
                                    kind: IndentationErrorKind::InvalidIndentation,
                                },
                            ),
                        );
                    },
                }
            } else {
                proof {
                    lemma_flush_covered(b, offset as int, before, s as int);
                }
                match open {
                    Some(group) => {
                        groups.push((group, GroupKind::Command));
                    },
                    None => {},
                }
                open = Some(line);
                proof {
                    let after = GroupState { open, groups: groups@ };
                    assert forall|k: int| offset <= k < e implies in_groups(after.groups, k)
                        || in_open(after, k) || #[trigger] b[k] == SPACE || b[k] == LINE_FEED by {
                        if k < s {
                            assert(in_groups(after.groups, k) || b[k] == SPACE || b[k]
                                == LINE_FEED);
                        }
                    }
                }
            }
        } else {
            proof {
                assert forall|k: int| offset <= k < e implies in_groups(before.groups, k)
                    || in_open(before, k) || #[trigger] b[k] == SPACE || b[k] == LINE_FEED by {}
            }
        }
        proof {
            assert(covered(b, offset as int, GroupState { open, groups: groups@ }, e as int));
        }
        if e >= len {
            break ;
        }
        s = e + 1;
        proof {
            let after = GroupState { open, groups: groups@ };
            assert forall|k: int| offset <= k < s implies in_groups(after.groups, k) || in_open(
                after,
                k,
            ) || #[trigger] b[k] == SPACE || b[k] == LINE_FEED by {}
        }
    }
    proof {
        lemma_flush_covered(b, offset as int, GroupState { open, groups: groups@ }, len as int);
    }
    match open {
        Some(group) => {
            groups.push((group, GroupKind::Command));
        },
        None => {},
    }
    Ok(groups)
}

/// The number of spaces that stand directly before `pos`.
pub open spec fn spaces_before(b: Seq<u8>, pos: int) -> int
    decreases pos,
{
    if 0 < pos <= b.len() && b[pos - 1] == SPACE {
        spaces_before(b, pos - 1) + 1
    } else {
        0
    }
}

/// The start and the indentation of the line of `pos`, where only spaces
/// stand between a line feed and `pos`.
pub open spec fn indent_at(b: Seq<u8>, pos: int) -> Option<(usize, usize)> {
    let indent = spaces_before(b, pos);
    let start = pos - indent;
    if 0 < start <= b.len() && b[start - 1] == LINE_FEED {
        Some((start as usize, indent as usize))
    } else {
        None
    }
}

/// The spaces before `pos` number at most `pos`, and they are spaces.
pub proof fn lemma_spaces_before(b: Seq<u8>, pos: int)
    requires
        0 <= pos <= b.len(),
    ensures
        0 <= spaces_before(b, pos) <= pos,
        forall|k: int| pos - spaces_before(b, pos) <= k < pos ==> b[k] == SPACE,
        pos - spaces_before(b, pos) > 0 ==> b[pos - spaces_before(b, pos) - 1] != SPACE,
    decreases pos,
{
    if 0 < pos <= b.len() && b[pos - 1] == SPACE {
        lemma_spaces_before(b, pos - 1);
    }
}

/// Where only spaces stand between `start` and `pos`, the leading spaces
/// from `start` on end at `pos` or after it.
pub proof fn lemma_spaces_run(b: Seq<u8>, start: int, pos: int)
    requires
        0 <= start <= pos <= b.len(),
        forall|k: int| start <= k < pos ==> b[k] == SPACE,
    ensures
        spaces_end(b, start) == spaces_end(b, pos),
    decreases pos - start,
{
    if start < pos {
        lemma_spaces_run(b, start + 1, pos);
    }
}

/// The start and the indentation of the line at the cursor, where only
/// spaces stand between the start of the line and the cursor; nothing on
/// the first line of the text.
pub fn get_indent(reader: &Reader) -> (r: Option<(usize, usize)>)
    requires
        reader.wf(),
    ensures
        r == indent_at(reader.text(), reader.position()),
{
    let src = reader.get_src();
    let bytes = src.as_bytes();
    let pos = reader.get_pos();
    let ghost b = reader.text();
    proof {
        reader.lemma_wf();
    }
    let mut at: usize = pos;
    while at > 0 && bytes[at - 1] == SPACE
        invariant
            bytes@ == b,
            at <= pos <= b.len(),
            spaces_before(b, pos as int) == spaces_before(b, at as int) + (pos - at),
        decreases at,
    {
        at -= 1;
    }
    if at > 0 && bytes[at - 1] == LINE_FEED {
        Some((at, pos - at))
    } else {
        None
    }
}

} // verus!
