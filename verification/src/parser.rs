//! The schema-directed parser: what it makes of a text, stated as
//! functions of the text, and the functions that compute it.

use crate::grouping::{
    flushed, group, group_from, grouped, indent_at, lemma_line_end, lemma_spaces_before,
    lemma_spaces_end, lemma_spaces_run, line_end, line_step, spaces_before, spaces_end,
    GroupKind, GroupState, LINE_FEED, SPACE,
};
use crate::intern::{Interner, StaticInterner};
use crate::node::NodeKind;
use crate::parse::argument::extent::{at_word, lemma_argument_extent};
use crate::parse::argument::primitives::{span_of, trimmed_end_pos, word_at, word_span};
use crate::parse::argument::{argument_outcome, Argument};
use crate::parse::cst::{Argument as CstArgument, ArgumentValue, Block, Command, Item};
use crate::parse::cst::{ArgumentView, BlockView, CommandView, ItemView, ValueView};
use crate::parse::errors::{ErrorList, InvalidLiteralError, ParseError, TooManyArgumentsError};
use crate::parse::laws::{
    argument_local, argument_tiles, block_local, block_tiles, blocks_tile, command_tiles,
    lemma_argument_solid, lemma_argument_tiles_wider, lemma_attach, lemma_failed, lemma_word_solid,
    local, solid_before, tiles,
};
use crate::parse::reader::Reader;
use crate::parsing_tree::{node_placed, ParsingNode, ParsingTree};
use crate::span::Span;
use crate::text::{
    boundary, byte_len, char_at, is_char_boundary_at_end, is_text, lemma_ascii_at,
    lemma_ascii_char, lemma_boundary_in_prefix, lemma_word_end, lemma_ws_end, lemma_ws_end_ge,
    remaining, slice, trimmed_end, word_end, ws_end,
};
use std::ops::Range;
use vstd::prelude::*;
use vstd::string::*;

verus! {

/// A result together with the strings that the interner holds afterwards.
pub struct Parsed<T> {
    pub value: T,
    pub strings: Seq<Seq<char>>,
}

/// One of the nodes in `[lo, hi)` is a block.
pub open spec fn has_block(nodes: Seq<ParsingNode>, lo: int, hi: int) -> bool {
    exists|i: int| lo <= i < hi && 0 <= i < nodes.len() && (#[trigger] nodes[i]).node.kind is Block
}

/// One where a block is among the nodes in `[lo, hi)`, else zero.
pub open spec fn block_rank(nodes: Seq<ParsingNode>, lo: int, hi: int) -> nat {
    if has_block(nodes, lo, hi) {
        1
    } else {
        0
    }
}

/// The number of offsets in `[lo, hi)`.
pub open spec fn width(lo: int, hi: int) -> nat {
    if hi > lo {
        (hi - lo) as nat
    } else {
        0
    }
}

/// What the parser needs of its inputs: a well-formed text of a length
/// that fits the machine, an offset on a character boundary, and a schema
/// whose root has no block among its children.
pub open spec fn parse_inputs(
    nodes: Seq<ParsingNode>,
    roots: int,
    b: Seq<u8>,
    pos: int,
) -> bool {
    &&& is_text(b)
    &&& boundary(b, pos)
    &&& b.len() <= usize::MAX
    &&& !has_block(nodes, 0, roots)
}

/// The command that consists of the error `e` alone.
pub open spec fn failed(e: ParseError) -> CommandView {
    CommandView { args: Seq::empty(), error: Some(e) }
}

/// The command that starts with the argument `head` and goes on as `rest`.
pub open spec fn attach(head: ArgumentView, rest: Option<CommandView>) -> CommandView {
    match rest {
        Some(more) => CommandView { args: seq![head] + more.args, error: more.error },
        None => CommandView { args: seq![head], error: None },
    }
}

/// How good a candidate is: zero for one whose first argument has no
/// errors, one for one whose first argument has errors, two for an error.
pub open spec fn grade(c: CommandView) -> int {
    if c.args.len() == 0 {
        2
    } else if c.args[0].errors.len() > 0 {
        1
    } else {
        0
    }
}

/// The position of the first candidate among the first `n` that none of
/// them surpasses.
pub open spec fn best_of(cands: Seq<CommandView>, n: int) -> int
    decreases n,
{
    if n <= 1 {
        0
    } else {
        let k = best_of(cands, n - 1);
        if grade(cands[n - 1]) < grade(cands[k]) {
            n - 1
        } else {
            k
        }
    }
}

/// The error that the word at `p` is none of the literals in `[lo, hi)`.
pub open spec fn invalid_literal(b: Seq<u8>, p: int, lo: int, hi: int) -> ParseError {
    ParseError::InvalidLiteral(
        InvalidLiteralError {
            span: word_span(b, p),
            valid_literals: Range { start: lo as usize, end: hi as usize },
        },
    )
}

/// The error that input is left at `p` where no argument is allowed.
pub open spec fn too_many(b: Seq<u8>, p: int) -> ParseError {
    ParseError::TooManyArguments(TooManyArgumentsError { span: span_of(p, trimmed_end(b, p)) })
}

/// The candidate that is chosen: the first of the best; where there is no
/// candidate, the error that the word at `p` is no literal.
pub open spec fn chosen(cands: Seq<CommandView>, b: Seq<u8>, p: int, lo: int, hi: int) -> CommandView {
    if cands.len() == 0 {
        failed(invalid_literal(b, p, lo, hi))
    } else {
        cands[best_of(cands, cands.len() as int)]
    }
}

/// The literal argument for the word at `p`, read against node `idx`.
pub open spec fn literal_argument(b: Seq<u8>, p: int, idx: int) -> ArgumentView {
    ArgumentView {
        span: word_span(b, p),
        lin_node_id: idx as usize,
        value: ValueView::Literal,
        errors: Seq::empty(),
    }
}

/// The block argument that covers the text from `start` on, read against
/// node `idx`.
pub open spec fn block_argument(b: Seq<u8>, start: int, idx: int, block: BlockView) -> ArgumentView {
    ArgumentView {
        span: span_of(start, b.len() as int),
        lin_node_id: idx as usize,
        value: ValueView::Block(block),
        errors: Seq::empty(),
    }
}

/// The groups are ranges of the text from `pos` on, each of which starts
/// at `pos` or after the first line.
pub open spec fn groups_fit(b: Seq<u8>, pos: int, groups: Seq<(Range<usize>, GroupKind)>) -> bool {
    forall|g: int|
        0 <= g < groups.len() ==> {
            &&& pos <= (#[trigger] groups[g]).0.start <= groups[g].0.end <= b.len()
            &&& groups[g].0.start == pos || groups[g].0.start > line_end(b, pos)
            &&& groups[g].0.end == b.len() || b[groups[g].0.end as int] == LINE_FEED
            &&& groups[g].0.start == 0 || b[groups[g].0.start - 1] == LINE_FEED
                || groups[g].0.start == pos
        }
}

/// Whitespace that starts at a boundary ends at or after the leading
/// spaces from there.
pub proof fn lemma_ws_ge_spaces(b: Seq<u8>, i: int)
    requires
        is_text(b),
        boundary(b, i),
    ensures
        spaces_end(b, i) <= ws_end(b, i),
    decreases remaining(b, i),
{
    lemma_ws_end_ge(b, i);
    if 0 <= i < b.len() && b[i] == SPACE {
        lemma_ascii_at(b, i);
        lemma_ws_ge_spaces(b, i + 1);
    }
}

/// In the part of a text that ends at `e`, leading spaces end where they
/// end in the whole text, or at `e`.
pub proof fn lemma_spaces_prefix(b: Seq<u8>, a: int, e: int)
    requires
        0 <= a <= e <= b.len(),
    ensures
        spaces_end(b.subrange(0, e), a) == (if spaces_end(b, a) <= e {
            spaces_end(b, a)
        } else {
            e
        }),
    decreases e - a,
{
    let part = b.subrange(0, e);
    if a < e {
        assert(part[a] == b[a]);
        if b[a] == SPACE {
            lemma_spaces_prefix(b, a + 1, e);
        }
    } else {
        lemma_spaces_end(b, a);
    }
}

/// The groups and the open command of `state` fit the text from `pos` on.
pub open spec fn state_held(b: Seq<u8>, pos: int, state: GroupState) -> bool {
    &&& groups_fit(b, pos, state.groups)
    &&& match state.open {
        Some(o) => range_fits(b, pos, o.start as int, o.end as int),
        None => true,
    }
}

/// What holds of the state of [`group_from`] at the line that starts at
/// `s`: the groups and the open command fit, and the line is the first of
/// the text from `pos` on or a later one.
pub open spec fn state_fits(b: Seq<u8>, pos: int, s: int, state: GroupState) -> bool {
    &&& state_held(b, pos, state)
    &&& 0 <= pos <= s <= b.len()
    &&& s == pos || (s > line_end(b, pos) && b[s - 1] == LINE_FEED)
    &&& state.open matches Some(o) ==> o.start <= s
}

/// A range fits the text from `pos` on: it lies in it, starts at `pos` or
/// at a later line, and ends with a line.
pub open spec fn range_fits(b: Seq<u8>, pos: int, start: int, end: int) -> bool {
    &&& pos <= start <= end <= b.len()
    &&& start == pos || (start > line_end(b, pos) && b[start - 1] == LINE_FEED)
    &&& end == b.len() || b[end] == LINE_FEED
}

/// Groups that fit, with one more that fits, fit.
proof fn lemma_fit_push(
    b: Seq<u8>,
    pos: int,
    groups: Seq<(Range<usize>, GroupKind)>,
    added: (Range<usize>, GroupKind),
)
    requires
        groups_fit(b, pos, groups),
        range_fits(b, pos, added.0.start as int, added.0.end as int),
    ensures
        groups_fit(b, pos, groups.push(added)),
{
    let more = groups.push(added);
    assert forall|g: int| 0 <= g < more.len() implies {
        &&& pos <= (#[trigger] more[g]).0.start <= more[g].0.end <= b.len()
        &&& more[g].0.start == pos || more[g].0.start > line_end(b, pos)
        &&& more[g].0.end == b.len() || b[more[g].0.end as int] == LINE_FEED
        &&& more[g].0.start == 0 || b[more[g].0.start - 1] == LINE_FEED || more[g].0.start == pos
    } by {
        if g < groups.len() {
            assert(more[g] == groups[g]);
        }
    }
}

/// Closing the open command of a state that fits gives groups that fit.
proof fn lemma_fit_flush(b: Seq<u8>, pos: int, state: GroupState)
    requires
        state_held(b, pos, state),
    ensures
        groups_fit(b, pos, flushed(state)),
{
    match state.open {
        Some(o) => {
            lemma_fit_push(b, pos, state.groups, (o, GroupKind::Command));
        },
        None => {},
    }
}

/// The groups that [`group_from`] gives fit the text.
pub proof fn lemma_group_from_fits(b: Seq<u8>, pos: int, s: int, common: int, state: GroupState)
    requires
        state_fits(b, pos, s, state),
        b.len() <= usize::MAX,
    ensures
        group_from(b, s, common, state) matches Ok(groups) ==> groups_fit(b, pos, groups),
    decreases remaining(b, s),
{
    lemma_line_end(b, s);
    lemma_line_end(b, pos);
    lemma_spaces_end(b, s);
    let e = line_end(b, s);
    let t = spaces_end(b, s);
    lemma_fit_flush(b, pos, state);
    match line_step(b, s, common, state) {
        Err(_) => {},
        Ok(next) => {
            assert(range_fits(b, pos, s, e));
            assert(state_held(b, pos, next) && (next.open matches Some(o) ==> o.start <= e)) by {
                if t >= e {
                } else if char_at(b, t) == '#' && t - s <= common {
                    lemma_fit_push(
                        b,
                        pos,
                        flushed(state),
                        (crate::grouping::range_of(s, e), GroupKind::Comment),
                    );
                } else if t - s > common {
                    let o = state.open->0;
                    assert(next.open == Some(crate::grouping::range_of(o.start as int, e)));
                    assert(range_fits(b, pos, o.start as int, e));
                } else {
                    assert(next.open == Some(crate::grouping::range_of(s, e)));
                }
            }
            lemma_fit_flush(b, pos, next);
            if s < 0 || e >= b.len() {
            } else {
                lemma_group_from_fits(b, pos, e + 1, common, next);
            }
        },
    }
}

/// The groups of a text fit it.
pub proof fn lemma_groups_fit(b: Seq<u8>, pos: int, common: int)
    requires
        0 <= pos <= b.len(),
        b.len() <= usize::MAX,
    ensures
        grouped(b, pos, common) matches Ok(groups) ==> groups_fit(b, pos, groups),
{
    lemma_group_from_fits(b, pos, pos, common, GroupState { open: None, groups: Seq::empty() });
}

/// The text of a group is well-formed, the group starts on one of its
/// boundaries, and parsing it starts with no more text ahead than parsing
/// the text that the group was taken from.
pub proof fn lemma_group_text(
    b: Seq<u8>,
    pos: int,
    groups: Seq<(Range<usize>, GroupKind)>,
    g: int,
)
    requires
        is_text(b),
        boundary(b, pos),
        groups_fit(b, pos, groups),
        0 <= g < groups.len(),
    ensures
        is_text(b.subrange(0, groups[g].0.end as int)),
        boundary(b, groups[g].0.start as int),
        boundary(b, groups[g].0.end as int),
        boundary(b.subrange(0, groups[g].0.end as int), groups[g].0.start as int),
        remaining(
            b.subrange(0, groups[g].0.end as int),
            spaces_end(b.subrange(0, groups[g].0.end as int), groups[g].0.start as int),
        ) <= remaining(b, spaces_end(b, pos)),
{
    let a = groups[g].0.start as int;
    let e = groups[g].0.end as int;
    let part = b.subrange(0, e);
    is_char_boundary_at_end(b);
    if e < b.len() {
        lemma_ascii_at(b, e);
    }
    if a != pos {
        lemma_ascii_at(b, a - 1);
    }
    lemma_boundary_in_prefix(b, a, e);
    lemma_spaces_prefix(b, a, e);
    lemma_spaces_end(b, a);
    lemma_spaces_end(b, pos);
    lemma_line_end(b, pos);
}

/// The commands and comments of `groups` from the `k`-th on, parsed one
/// after the other. A group that holds no command is left out.
pub open spec fn items_spec(
    nodes: Seq<ParsingNode>,
    roots: int,
    b: Seq<u8>,
    pos: int,
    groups: Seq<(Range<usize>, GroupKind)>,
    k: int,
    strings: Seq<Seq<char>>,
) -> Parsed<Seq<ItemView>>
    decreases remaining(b, spaces_end(b, pos)), block_rank(nodes, 0, roots), width(0, roots) + 3
        + width(k, groups.len() as int),
    when parse_inputs(nodes, roots, b, pos) && groups_fit(b, pos, groups) && 0 <= k
{
    if k >= groups.len() {
        Parsed { value: Seq::empty(), strings }
    } else {
        let range = groups[k].0;
        let first: Parsed<Option<ItemView>> = match groups[k].1 {
            GroupKind::Comment => Parsed {
                value: Some(ItemView::Comment(Span { start: range.start, end: range.end })),
                strings,
            },
            GroupKind::Command => {
                proof {
                    lemma_group_text(b, pos, groups, k);
                }
                let command = command_spec(
                    nodes,
                    roots,
                    b.subrange(0, range.end as int),
                    range.start as int,
                    strings,
                );
                Parsed {
                    value: match command.value {
                        Some(c) => Some(ItemView::Command(c)),
                        None => None,
                    },
                    strings: command.strings,
                }
            },
        };
        let rest = items_spec(nodes, roots, b, pos, groups, k + 1, first.strings);
        Parsed {
            value: match first.value {
                Some(item) => seq![item] + rest.value,
                None => rest.value,
            },
            strings: rest.strings,
        }
    }
}

/// The block that the text from `pos` on holds, where its lines are
/// indented by `indent` spaces; or the error in its indentation.
pub open spec fn commands_spec(
    nodes: Seq<ParsingNode>,
    roots: int,
    b: Seq<u8>,
    pos: int,
    indent: int,
    strings: Seq<Seq<char>>,
) -> Parsed<Result<BlockView, ParseError>>
    decreases remaining(b, spaces_end(b, pos)), block_rank(nodes, 0, roots), width(0, roots) + 4
        + (match grouped(b, pos, indent) {
        Ok(groups) => groups.len(),
        Err(_) => 0,
    }),
    when parse_inputs(nodes, roots, b, pos)
{
    match grouped(b, pos, indent) {
        Err(e) => Parsed { value: Err(e), strings },
        Ok(groups) => {
            let items = items_spec(nodes, roots, b, pos, groups, 0, strings);
            Parsed { value: Ok(BlockView { items: items.value }), strings: items.strings }
        },
    }
}

/// The command that the text from `pos` on holds; nothing where only
/// whitespace is left.
pub open spec fn command_spec(
    nodes: Seq<ParsingNode>,
    roots: int,
    b: Seq<u8>,
    pos: int,
    strings: Seq<Seq<char>>,
) -> Parsed<Option<CommandView>>
    decreases remaining(b, spaces_end(b, pos)), block_rank(nodes, 0, roots), width(0, roots) + 2,
    when parse_inputs(nodes, roots, b, pos)
{
    proof {
        lemma_ws_ge_spaces(b, pos);
        lemma_spaces_end(b, pos);
        lemma_ws_end(b, pos);
    }
    children_spec(nodes, roots, b, pos, 0, roots, strings)
}

/// The rest of a command from `pos` on, read against the nodes in
/// `[lo, hi)`; nothing where only whitespace is left.
pub open spec fn children_spec(
    nodes: Seq<ParsingNode>,
    roots: int,
    b: Seq<u8>,
    pos: int,
    lo: int,
    hi: int,
    strings: Seq<Seq<char>>,
) -> Parsed<Option<CommandView>>
    decreases remaining(b, ws_end(b, pos)), block_rank(nodes, lo, hi), width(lo, hi) + 1,
    when parse_inputs(nodes, roots, b, pos)
{
    let p = ws_end(b, pos);
    if p >= b.len() {
        Parsed { value: None, strings }
    } else if lo >= hi {
        Parsed { value: Some(failed(too_many(b, p))), strings }
    } else {
        proof {
            lemma_ws_end(b, pos);
        }
        scan_spec(nodes, roots, b, p, lo, hi, lo, Seq::empty(), strings)
    }
}

/// The rest of a command that starts with the word at `p`, read against
/// the nodes in `[lo, hi)`, of which those before `idx` were tried and
/// gave the candidates `cands`.
///
/// A literal that is the word at `p` settles the matter. An argument is
/// parsed, with the rest of the command behind it, and becomes a
/// candidate. A block takes the rest of the text: the lines from the
/// current one on, where only spaces stand before `p` on its line, else
/// one command from `p` on. Where the nodes are used up, the first of the
/// best candidates is chosen.
pub open spec fn scan_spec(
    nodes: Seq<ParsingNode>,
    roots: int,
    b: Seq<u8>,
    p: int,
    lo: int,
    hi: int,
    idx: int,
    cands: Seq<CommandView>,
    strings: Seq<Seq<char>>,
) -> Parsed<Option<CommandView>>
    decreases remaining(b, p), block_rank(nodes, lo, hi), width(idx, hi),
    when parse_inputs(nodes, roots, b, p) && at_word(b, p) && lo <= idx && 0 <= lo
{
    if idx >= hi || idx >= nodes.len() {
        Parsed { value: Some(chosen(cands, b, p, lo, hi)), strings }
    } else {
        let child = nodes[idx];
        match child.node.kind {
            NodeKind::Literal(name) => {
                if name@ == word_at(b, p) {
                    proof {
                        lemma_word_end(b, p);
                        lemma_ws_end_ge(b, word_end(b, p));
                    }
                    let next = children_spec(
                        nodes,
                        roots,
                        b,
                        word_end(b, p),
                        child.children.start as int,
                        child.children.end as int,
                        strings,
                    );
                    Parsed {
                        value: Some(attach(literal_argument(b, p, idx), next.value)),
                        strings: next.strings,
                    }
                } else {
                    scan_spec(nodes, roots, b, p, lo, hi, idx + 1, cands, strings)
                }
            },
            NodeKind::Argument { name, arg } => {
                let made = argument_outcome(arg, b, p, strings);
                proof {
                    lemma_argument_extent(arg, b, p, strings);
                    lemma_ws_end_ge(b, made.end);
                }
                let candidate: Parsed<CommandView> = match made.result {
                    Ok(value) => {
                        let next = children_spec(
                            nodes,
                            roots,
                            b,
                            made.end,
                            child.children.start as int,
                            child.children.end as int,
                            made.strings,
                        );
                        Parsed {
                            value: attach(
                                ArgumentView {
                                    span: span_of(p, made.end),
                                    lin_node_id: idx as usize,
                                    value,
                                    errors: made.errors,
                                },
                                next.value,
                            ),
                            strings: next.strings,
                        }
                    },
                    Err(e) => Parsed { value: failed(e), strings: made.strings },
                };
                scan_spec(
                    nodes,
                    roots,
                    b,
                    p,
                    lo,
                    hi,
                    idx + 1,
                    cands.push(candidate.value),
                    candidate.strings,
                )
            },
            NodeKind::Block => {
                proof {
                    assert(has_block(nodes, lo, hi));
                    lemma_block_start(b, p);
                }
                match indent_at(b, p) {
                    None => {
                        let inner = command_spec(nodes, roots, b, p, strings);
                        let block = BlockView {
                            items: match inner.value {
                                Some(c) => seq![ItemView::Command(c)],
                                None => Seq::empty(),
                            },
                        };
                        Parsed {
                            value: Some(attach(block_argument(b, p, idx, block), None)),
                            strings: inner.strings,
                        }
                    },
                    Some((line_start, indent)) => {
                        let inner = commands_spec(
                            nodes,
                            roots,
                            b,
                            line_start as int,
                            indent as int,
                            strings,
                        );
                        Parsed {
                            value: Some(
                                match inner.value {
                                    Ok(block) => attach(
                                        block_argument(b, line_start as int, idx, block),
                                        None,
                                    ),
                                    Err(e) => failed(e),
                                },
                            ),
                            strings: inner.strings,
                        }
                    },
                }
            },
        }
    }
}

/// At a word, the leading spaces end where they start; and where only
/// spaces stand between the start of the line and the word, the leading
/// spaces of the line end at the word, and the line starts on a boundary.
pub proof fn lemma_block_start(b: Seq<u8>, p: int)
    requires
        is_text(b),
        boundary(b, p),
        at_word(b, p),
        b.len() <= usize::MAX,
    ensures
        spaces_end(b, p) == p,
        indent_at(b, p) matches Some((line_start, indent)) ==> spaces_end(b, line_start as int)
            == p && boundary(b, line_start as int) && line_start <= p && indent == p
            - line_start,
{
    lemma_ascii_char(b, p);
    assert(b[p] != SPACE) by {
        if b[p] == SPACE {
            assert(char_at(b, p) as u32 == 0x20);
        }
    }
    lemma_spaces_before(b, p);
    let start = p - spaces_before(b, p);
    if 0 < start <= b.len() && b[start - 1] == LINE_FEED {
        lemma_spaces_run(b, start, p);
        lemma_ascii_at(b, start - 1);
    }
}

/// One argument of a command with what follows it: the rest of the
/// command, or the error that ended it.
#[derive(Debug)]
pub struct ParseResult {
    pub value: CstArgument,
    pub next: Option<Box<Result<ParseResult, ParseError>>>,
}

/// The command that a chain of parse results holds.
pub open spec fn chain_view(r: Result<ParseResult, ParseError>) -> CommandView
    decreases r,
{
    match r {
        Err(e) => failed(e),
        Ok(found) => attach(
            found.value@,
            match found.next {
                Some(boxed) => Some(chain_view(*boxed)),
                None => None,
            },
        ),
    }
}

/// The command that the rest of a chain holds.
pub open spec fn rest_view(next: Option<Box<Result<ParseResult, ParseError>>>) -> Option<
    CommandView,
> {
    match next {
        Some(boxed) => Some(chain_view(*boxed)),
        None => None,
    }
}

/// The command that an optional chain of parse results holds.
pub open spec fn outcome_view(r: Option<Result<ParseResult, ParseError>>) -> Option<CommandView> {
    match r {
        Some(chain) => Some(chain_view(chain)),
        None => None,
    }
}

/// The commands that a list of candidates holds.
pub open spec fn candidate_views(cands: Seq<Result<ParseResult, ParseError>>) -> Seq<CommandView> {
    Seq::new(cands.len(), |i: int| chain_view(cands[i]))
}

/// What a parse function needs: a well-formed schema without a block
/// among the children of its root, a well-formed reader and a consistent
/// interner.
pub open spec fn ready(tree: &ParsingTree, reader: Reader, interner: StaticInterner) -> bool {
    &&& tree.wf()
    &&& !has_block(tree.nodes@, 0, tree.num_roots as int)
    &&& reader.wf()
    &&& interner.valid()
}

/// Computes [`best_of`] for all candidates.
fn best_candidate(candidates: &Vec<Result<ParseResult, ParseError>>) -> (k: usize)
    requires
        candidates@.len() > 0,
    ensures
        k == best_of(candidate_views(candidates@), candidates@.len() as int),
        k < candidates@.len(),
{
    let ghost views = candidate_views(candidates@);
    let mut best: usize = 0;
    let mut best_grade = candidate_grade(&candidates[0]);
    let mut i: usize = 1;
    while i < candidates.len()
        invariant
            1 <= i <= candidates@.len(),
            views == candidate_views(candidates@),
            best == best_of(views, i as int),
            best < i,
            best_grade == grade(views[best as int]),
        decreases candidates@.len() - i,
    {
        let g = candidate_grade(&candidates[i]);
        if g < best_grade {
            best = i;
            best_grade = g;
        }
        i += 1;
    }
    best
}

/// Computes [`grade`].
fn candidate_grade(candidate: &Result<ParseResult, ParseError>) -> (g: u8)
    ensures
        g == grade(chain_view(*candidate)),
{
    match candidate {
        Err(_) => 2,
        Ok(found) => {
            proof {
                let rest = rest_view(found.next);
                assert(attach(found.value@, rest).args[0] == found.value@);
            }
            if found.value.has_errors() {
                1
            } else {
                0
            }
        },
    }
}

/// The children of the root lie inside the schema.
pub open spec fn node_roots_fit(tree: &ParsingTree) -> bool {
    tree.num_roots <= tree.nodes@.len()
}

/// The cursor stands where a block may follow: at the end of the text or
/// behind a byte that is neither a space nor a line feed; or no block is
/// among the schema nodes in `[lo, hi)`.
pub open spec fn starts_clear(nodes: Seq<ParsingNode>, b: Seq<u8>, pos: int, lo: int, hi: int) -> bool {
    solid_before(b, pos) || !has_block(nodes, lo, hi)
}

impl ParsingTree {
    /// Reads the rest of a command against the schema nodes in `children`.
    /// Gives nothing where only whitespace is left. The arguments cover the
    /// text from the cursor on where the cursor stands clear of a block:
    /// a block begins with its line, which may lie before a cursor that
    /// stands among the spaces that indent it.
    pub fn parse_children(
        &self,
        reader: Reader,
        children: Range<usize>,
        interner: &mut StaticInterner,
    ) -> (r: Option<Result<ParseResult, ParseError>>)
        requires
            ready(self, reader, *old(interner)),
            children.end <= self.nodes@.len(),
        ensures
            final(interner).valid(),
            outcome_view(r) == children_spec(
                self.nodes@,
                self.num_roots as int,
                reader.text(),
                reader.position(),
                children.start as int,
                children.end as int,
                old(interner).strings(),
            ).value,
            final(interner).strings() == children_spec(
                self.nodes@,
                self.num_roots as int,
                reader.text(),
                reader.position(),
                children.start as int,
                children.end as int,
                old(interner).strings(),
            ).strings,
            match r {
                Some(chain) => local(chain_view(chain)) && blocks_tile(
                    chain_view(chain),
                    reader.text(),
                ) && (starts_clear(
                    self.nodes@,
                    reader.text(),
                    reader.position(),
                    children.start as int,
                    children.end as int,
                ) ==> tiles(chain_view(chain), reader.text(), reader.position())),
                None => reader.text().len() <= ws_end(reader.text(), reader.position()),
            },
        decreases
            remaining(reader.text(), ws_end(reader.text(), reader.position())),
            block_rank(self.nodes@, children.start as int, children.end as int),
            width(children.start as int, children.end as int) + 1,
    {
        let ghost nodes = self.nodes@;
        let ghost roots = self.num_roots as int;
        let ghost b = reader.text();
        let ghost pos = reader.position();
        let ghost lo = children.start as int;
        let ghost hi = children.end as int;
        let ghost strings0 = interner.strings();
        let ghost goal = children_spec(nodes, roots, b, pos, lo, hi, strings0);
        proof {
            reader.lemma_wf();
            lemma_ws_end(b, pos);
            assert(parse_inputs(nodes, roots, b, pos));
        }
        let mut cursor = reader;
        cursor.skip_whitespace();
        if !cursor.has_more() {
            return None;
        }
        let ghost p = cursor.position();
        let start = cursor.get_pos();
        if children.start >= children.end {
            let end = trimmed_end_pos(&cursor);
            proof {
                lemma_failed(too_many(b, p), b, pos);
            }
            return Some(
                Err(ParseError::TooManyArguments(TooManyArgumentsError { span: Span::new(start, end) })),
            );
        }
        let src = cursor.get_src();
        let word_end_at = {
            let mut ahead = cursor;
            let _ = ahead.read_word_range();
            ahead.get_pos()
        };
        let word = slice(src, start, word_end_at);
        proof {
            lemma_word_end(b, p);
            lemma_word_solid(b, p);
            assert(word@ == word_at(b, p));
        }
        let mut candidates: Vec<Result<ParseResult, ParseError>> = Vec::new();
        let mut idx: usize = children.start;
        proof {
            assert(candidate_views(candidates@) =~= Seq::<CommandView>::empty());
            assert(goal == scan_spec(nodes, roots, b, p, lo, hi, lo, Seq::empty(), strings0));
        }
        while idx < children.end
            invariant
                ready(self, cursor, *interner),
                nodes == self.nodes@,
                roots == self.num_roots,
                b == reader.text(),
                pos == reader.position(),
                b == cursor.text(),
                p == cursor.position(),
                p == ws_end(b, pos),
                boundary(b, word_end_at as int),
                start == p,
                pos <= p,
                lo == children.start,
                hi == children.end,
                hi <= nodes.len(),
                lo <= idx <= hi,
                is_text(b),
                boundary(b, p),
                boundary(b, pos),
                b.len() <= usize::MAX,
                at_word(b, p),
                src.spec_bytes() == b,
                word_end_at == word_end(b, p),
                p < word_end_at <= b.len(),
                solid_before(b, word_end(b, p)),
                word@ == word_at(b, p),
                goal == children_spec(nodes, roots, b, pos, lo, hi, strings0),
                strings0 == old(interner).strings(),
                goal == scan_spec(
                    nodes,
                    roots,
                    b,
                    p,
                    lo,
                    hi,
                    idx as int,
                    candidate_views(candidates@),
                    interner.strings(),
                ),
                forall|i: int|
                    0 <= i < candidates@.len() ==> local(#[trigger] chain_view(candidates@[i]))
                        && tiles(chain_view(candidates@[i]), b, pos) && blocks_tile(
                        chain_view(candidates@[i]),
                        b,
                    ),
            decreases hi - idx,
        {
            let child = &self.nodes[idx];
            let ghost views = candidate_views(candidates@);
            let ghost strings = interner.strings();
            proof {
                assert(node_placed(nodes, roots, idx as int));
                assert(parse_inputs(nodes, roots, b, p));
            }
            let ghost here = scan_spec(nodes, roots, b, p, lo, hi, idx as int, views, strings);
            let next_range = child.children.start..child.children.end;
            match &child.node.kind {
                NodeKind::Literal(literal) => {
                    if literal.eq_str(word) {
                        let mut child_reader = cursor;
                        child_reader.set_pos(word_end_at);
                        proof {
                            lemma_ws_end_ge(b, word_end(b, p));
                        }
                        let next = self.parse_children(child_reader, next_range, interner);
                        let value = CstArgument {
                            span: Span::new(start, word_end_at),
                            lin_node_id: idx,
                            value: ArgumentValue::Literal,
                            errors: ErrorList::new(),
                        };
                        proof {
                            let rest = outcome_view(next);
                            assert(value@ == literal_argument(b, p, idx as int));
                            assert(argument_local(value@));
                            lemma_attach(value@, rest, b, pos);
                            assert(here.value == Some(attach(literal_argument(b, p, idx as int), rest)));
                        }
                        let boxed = match next {
                            Some(chain) => Some(Box::new(chain)),
                            None => None,
                        };
                        return Some(Ok(ParseResult { value, next: boxed }));
                    }
                },
                NodeKind::Argument { arg, .. } => {
                    let mut child_reader = cursor;
                    let mut errors = ErrorList::new();
                    let ghost made = argument_outcome(*arg, b, p, strings);
                    proof {
                        lemma_argument_extent(*arg, b, p, strings);
                        lemma_argument_solid(*arg, b, p, strings);
                        lemma_ws_end_ge(b, made.end);
                    }
                    let parsed = arg.parse(&mut child_reader, interner, &mut errors);
                    let span = Span::new(start, child_reader.get_pos());
                    proof {
                        assert(errors@ =~= made.errors);
                    }
                    let result = match parsed {
                        Ok(value) => {
                            let next = self.parse_children(child_reader, next_range, interner);
                            let held = CstArgument { span, lin_node_id: idx, value, errors };
                            proof {
                                let rest = outcome_view(next);
                                assert(argument_local(held@)) by {
                                    match held@.value {
                                        ValueView::Block(_) => {
                                            assert(false);
                                        },
                                        _ => {},
                                    }
                                }
                                lemma_attach(held@, rest, b, pos);
                            }
                            let boxed = match next {
                                Some(chain) => Some(Box::new(chain)),
                                None => None,
                            };
                            Ok(ParseResult { value: held, next: boxed })
                        },
                        Err(e) => {
                            proof {
                                lemma_failed(e, b, pos);
                            }
                            Err(e)
                        },
                    };
                    candidates.push(result);
                    proof {
                        assert(candidate_views(candidates@) =~= views.push(chain_view(result)));
                    }
                },
                NodeKind::Block => {
                    proof {
                        assert(has_block(nodes, lo, hi));
                        lemma_block_start(b, p);
                        crate::grouping::lemma_spaces_before(b, p);
                        is_char_boundary_at_end(b);
                    }
                    let mut child_reader = cursor;
                    let block = match crate::grouping::get_indent(&child_reader) {
                        None => {
                            let items = match self.parse_command(child_reader, interner) {
                                Some(command) => {
                                    let mut items: Vec<Item> = Vec::new();
                                    items.push(Item::Command(command));
                                    items
                                },
                                None => Vec::new(),
                            };
                            let block = Block { items };
                            proof {
                                let inner = command_spec(nodes, roots, b, p, strings);
                                assert(block@.items =~= match inner.value {
                                    Some(c) => seq![ItemView::Command(c)],
                                    None => Seq::empty(),
                                });
                                if let Some(c) = inner.value {
                                    assert(b.subrange(0, b.len() as int) =~= b);
                                    assert(tiles(c, b.subrange(0, b.len() as int), p));
                                    assert(command_tiles(c, b));
                                }
                                assert(block_tiles(block@, b));
                            }
                            Ok(block)
                        },
                        Some((line_start, indent)) => {
                            child_reader.set_pos(line_start);
                            self.parse_commands(child_reader, indent, interner)
                        },
                    };
                    let span = Span::new(child_reader.get_pos(), byte_len(src));
                    return match block {
                        Ok(block) => {
                            let value = CstArgument {
                                span,
                                lin_node_id: idx,
                                value: ArgumentValue::Block(block),
                                errors: ErrorList::new(),
                            };
                            proof {
                                assert(argument_local(value@));
                                assert(argument_tiles(value@, b));
                                lemma_ws_end_ge(b, b.len() as int);
                                if solid_before(b, pos) {
                                    lemma_attach(value@, None, b, pos);
                                } else {
                                    let whole = attach(value@, None);
                                    assert(whole.args[0] == value@);
                                    assert(local(whole));
                                    assert(blocks_tile(whole, b));
                                }
                            }
                            Some(Ok(ParseResult { value, next: None }))
                        },
                        Err(e) => {
                            proof {
                                if solid_before(b, pos) {
                                    lemma_failed(e, b, pos);
                                }
                            }
                            Some(Err(e))
                        },
                    };
                },
            }
            idx += 1;
        }
        if candidates.len() == 0 {
            proof {
                lemma_failed(invalid_literal(b, p, lo, hi), b, pos);
            }
            return Some(
                Err(
                    ParseError::InvalidLiteral(
                        InvalidLiteralError {
                            span: Span::new(start, word_end_at),
                            valid_literals: children.start..children.end,
                        },
                    ),
                ),
            );
        }
        let best = best_candidate(&candidates);
        let ghost views = candidate_views(candidates@);
        proof {
            assert(views[best as int] == chain_view(candidates@[best as int]));
        }
        Some(candidates.swap_remove(best))
    }

    /// Reads one command from the cursor on. Gives nothing where only
    /// whitespace is left.
    pub fn parse_command(&self, reader: Reader, interner: &mut StaticInterner) -> (r:
        Option<Command>)
        requires
            ready(self, reader, *old(interner)),
        ensures
            final(interner).valid(),
            match r {
                Some(command) => Some(command@),
                None => None,
            } == command_spec(
                self.nodes@,
                self.num_roots as int,
                reader.text(),
                reader.position(),
                old(interner).strings(),
            ).value,
            final(interner).strings() == command_spec(
                self.nodes@,
                self.num_roots as int,
                reader.text(),
                reader.position(),
                old(interner).strings(),
            ).strings,
            r matches Some(command) ==> local(command@) && tiles(
                command@,
                reader.text(),
                reader.position(),
            ) && blocks_tile(command@, reader.text()),
        decreases
            remaining(reader.text(), spaces_end(reader.text(), reader.position())),
            block_rank(self.nodes@, 0, self.num_roots as int),
            width(0, self.num_roots as int) + 2,
    {
        proof {
            reader.lemma_wf();
            lemma_ws_ge_spaces(reader.text(), reader.position());
            lemma_spaces_end(reader.text(), reader.position());
            lemma_ws_end(reader.text(), reader.position());
            assert(node_roots_fit(self));
        }
        let result = match self.parse_children(reader, 0..self.num_roots, interner) {
            Some(result) => result,
            None => {
                return None;
            },
        };
        let ghost whole = chain_view(result);
        let mut args: Vec<CstArgument> = Vec::new();
        let mut error: Option<ParseError> = None;
        let mut current: Option<Result<ParseResult, ParseError>> = Some(result);
        let ghost mut seen: Seq<ArgumentView> = Seq::empty();
        loop
            invariant_except_break
                error is None,
                current matches Some(chain) ==> whole == (CommandView {
                    args: seen + chain_view(chain).args,
                    error: chain_view(chain).error,
                }),
                current is None ==> whole == (CommandView { args: seen, error: None }),
            invariant
                seen.len() == args@.len(),
                forall|i: int| 0 <= i < seen.len() ==> seen[i] == (#[trigger] args@[i])@,
            ensures
                whole == (CommandView { args: seen, error }),
                seen.len() == args@.len(),
                forall|i: int| 0 <= i < seen.len() ==> seen[i] == (#[trigger] args@[i])@,
            decreases current,
        {
            match current {
                None => {
                    break ;
                },
                Some(Ok(found)) => {
                    let ghost rest = rest_view(found.next);
                    proof {
                        let chain = attach(found.value@, rest);
                        assert(chain.args[0] == found.value@);
                        match rest {
                            Some(more) => {
                                assert(seen.push(found.value@) + more.args =~= seen + chain.args);
                            },
                            None => {
                                assert(seen.push(found.value@) =~= seen + chain.args);
                            },
                        }
                        seen = seen.push(found.value@);
                    }
                    args.push(found.value);
                    current = match found.next {
                        Some(boxed) => Some(*boxed),
                        None => None,
                    };
                },
                Some(Err(e)) => {
                    proof {
                        assert(seen + Seq::<ArgumentView>::empty() =~= seen);
                    }
                    error = Some(e);
                    break ;
                },
            }
        }
        let command = Command { args, error };
        proof {
            assert(command@.args =~= seen);
            assert(command@ == whole);
        }
        Some(command)
    }

    /// Reads the block that the text from the cursor on holds, where its
    /// lines are indented by `indent` spaces.
    pub fn parse_commands(
        &self,
        reader: Reader,
        indent: usize,
        interner: &mut StaticInterner,
    ) -> (r: Result<Block, ParseError>)
        requires
            ready(self, reader, *old(interner)),
        ensures
            final(interner).valid(),
            match r {
                Ok(block) => Ok(block@),
                Err(e) => Err(e),
            } == commands_spec(
                self.nodes@,
                self.num_roots as int,
                reader.text(),
                reader.position(),
                indent as int,
                old(interner).strings(),
            ).value,
            final(interner).strings() == commands_spec(
                self.nodes@,
                self.num_roots as int,
                reader.text(),
                reader.position(),
                indent as int,
                old(interner).strings(),
            ).strings,
            match r {
                Ok(block) => block_local(block@) && block_tiles(block@, reader.text()),
                Err(e) => reader.position() <= e.span().start,
            },
        decreases
            remaining(reader.text(), spaces_end(reader.text(), reader.position())),
            block_rank(self.nodes@, 0, self.num_roots as int),
            width(0, self.num_roots as int) + 4 + (match grouped(
                reader.text(),
                reader.position(),
                indent as int,
            ) {
                Ok(groups) => groups.len(),
                Err(_) => 0,
            }),
    {
        let ghost nodes = self.nodes@;
        let ghost roots = self.num_roots as int;
        let ghost b = reader.text();
        let ghost pos = reader.position();
        let ghost strings0 = interner.strings();
        proof {
            reader.lemma_wf();
            lemma_groups_fit(b, pos, indent as int);
        }
        let src = reader.get_src();
        let groups = match group(src, reader.get_pos(), indent) {
            Ok(groups) => groups,
            Err(e) => {
                return Err(e);
            },
        };
        let mut items: Vec<Item> = Vec::new();
        let ghost mut seen: Seq<ItemView> = Seq::empty();
        let mut k: usize = 0;
        proof {
            assert(seen + items_spec(nodes, roots, b, pos, groups@, 0, strings0).value
                =~= items_spec(nodes, roots, b, pos, groups@, 0, strings0).value);
        }
        while k < groups.len()
            invariant
                ready(self, reader, *interner),
                nodes == self.nodes@,
                roots == self.num_roots,
                b == reader.text(),
                pos == reader.position(),
                src.spec_bytes() == b,
                is_text(b),
                boundary(b, pos),
                b.len() <= usize::MAX,
                k <= groups@.len(),
                groups_fit(b, pos, groups@),
                grouped(b, pos, indent as int) == Ok::<Seq<(Range<usize>, GroupKind)>, ParseError>(
                    groups@,
                ),
                seen.len() == items@.len(),
                forall|i: int| 0 <= i < seen.len() ==> seen[i] == (#[trigger] items@[i])@,
                forall|i: int|
                    0 <= i < seen.len() ==> match #[trigger] seen[i] {
                        ItemView::Command(c) => local(c) && command_tiles(c, b),
                        ItemView::Comment(_) => true,
                    },
                items_spec(nodes, roots, b, pos, groups@, 0, strings0).value == seen + items_spec(
                    nodes,
                    roots,
                    b,
                    pos,
                    groups@,
                    k as int,
                    interner.strings(),
                ).value,
                items_spec(nodes, roots, b, pos, groups@, 0, strings0).strings == items_spec(
                    nodes,
                    roots,
                    b,
                    pos,
                    groups@,
                    k as int,
                    interner.strings(),
                ).strings,
            decreases groups@.len() - k,
        {
            let range = groups[k].0.start..groups[k].0.end;
            let ghost strings = interner.strings();
            let ghost here = items_spec(nodes, roots, b, pos, groups@, k as int, strings);
            proof {
                lemma_group_text(b, pos, groups@, k as int);
            }
            match groups[k].1 {
                GroupKind::Comment => {
                    let item = Item::Comment(Span::from_range(range));
                    proof {
                        let rest = items_spec(nodes, roots, b, pos, groups@, k + 1, strings);
                        assert(here.value == seq![item@] + rest.value);
                        assert(seen.push(item@) + rest.value =~= seen + here.value);
                        seen = seen.push(item@);
                    }
                    items.push(item);
                },
                GroupKind::Command => {
                    let inner = Reader::with_range(src, range);
                    match self.parse_command(inner, interner) {
                        Some(command) => {
                            let item = Item::Command(command);
                            proof {
                                let rest = items_spec(
                                    nodes,
                                    roots,
                                    b,
                                    pos,
                                    groups@,
                                    k + 1,
                                    interner.strings(),
                                );
                                assert(here.value == seq![item@] + rest.value);
                                assert(seen.push(item@) + rest.value =~= seen + here.value);
                                let c = command@;
                                let end = range.end as int;
                                assert(tiles(c, b.subrange(0, end), range.start as int));
                                assert forall|i: int| 0 <= i < c.args.len() implies argument_tiles(
                                    #[trigger] c.args[i],
                                    b,
                                ) by {
                                    lemma_argument_tiles_wider(c.args[i], b, end);
                                }
                                assert(command_tiles(c, b));
                                seen = seen.push(item@);
                            }
                            items.push(item);
                        },
                        None => {},
                    }
                },
            }
            k += 1;
        }
        let block = Block { items };
        proof {
            let rest = items_spec(nodes, roots, b, pos, groups@, groups@.len() as int, interner.strings());
            assert(seen + rest.value =~= seen);
            assert(block@.items =~= seen);
        }
        Ok(block)
    }
}

/// The block that the whole text `b` holds.
pub open spec fn parse_spec(
    nodes: Seq<ParsingNode>,
    roots: int,
    b: Seq<u8>,
    strings: Seq<Seq<char>>,
) -> Parsed<Result<BlockView, ParseError>> {
    commands_spec(nodes, roots, b, 0, 0, strings)
}

/// Parses the text `source` against the schema `tree`.
pub fn parse_source(tree: &ParsingTree, source: &str, interner: &mut StaticInterner) -> (r: Result<
    Block,
    ParseError,
>)
    requires
        tree.wf(),
        !has_block(tree.nodes@, 0, tree.num_roots as int),
        old(interner).valid(),
    ensures
        final(interner).valid(),
        match r {
            Ok(block) => Ok(block@),
            Err(e) => Err(e),
        } == parse_spec(
            tree.nodes@,
            tree.num_roots as int,
            source.spec_bytes(),
            old(interner).strings(),
        ).value,
        final(interner).strings() == parse_spec(
            tree.nodes@,
            tree.num_roots as int,
            source.spec_bytes(),
            old(interner).strings(),
        ).strings,
        r matches Ok(block) ==> block_local(block@) && block_tiles(block@, source.spec_bytes()),
{
    tree.parse_commands(Reader::new(source), 0, interner)
}

impl ParsingTree {
    /// Parses the source of `ctx` against this schema, with the interner of
    /// `ctx`.
    pub fn parse(&self, ctx: &mut crate::parse::context::ParseContext<'_>) -> (r: Result<
        Block,
        ParseError,
    >)
        requires
            self.wf(),
            !has_block(self.nodes@, 0, self.num_roots as int),
            old(ctx).interner.valid(),
        ensures
            final(ctx).interner.valid(),
            final(ctx).source == old(ctx).source,
            final(ctx).tree == old(ctx).tree,
            match r {
                Ok(block) => Ok(block@),
                Err(e) => Err(e),
            } == parse_spec(
                self.nodes@,
                self.num_roots as int,
                old(ctx).source.bytes(),
                old(ctx).interner.strings(),
            ).value,
            final(ctx).interner.strings() == parse_spec(
                self.nodes@,
                self.num_roots as int,
                old(ctx).source.bytes(),
                old(ctx).interner.strings(),
            ).strings,
            r matches Ok(block) ==> block_local(block@) && block_tiles(
                block@,
                old(ctx).source.bytes(),
            ),
    {
        parse_source(self, ctx.source.text(), &mut ctx.interner)
    }

    /// Whether a block is among the children of the root; such a schema
    /// cannot be parsed against.
    pub fn has_root_block(&self) -> (r: bool)
        requires
            self.wf(),
        ensures
            r == has_block(self.nodes@, 0, self.num_roots as int),
    {
        let mut i: usize = 0;
        while i < self.num_roots
            invariant
                i <= self.num_roots <= self.nodes@.len(),
                forall|k: int| 0 <= k < i ==> !((#[trigger] self.nodes@[k]).node.kind is Block),
            decreases self.num_roots - i,
        {
            match &self.nodes[i].node.kind {
                NodeKind::Block => {
                    return true;
                },
                _ => {},
            }
            i += 1;
        }
        false
    }
}

} // verus!
