//! What holds of every command that the parser produces: errors lie where
//! they belong, and the arguments cover the command up to whitespace.

use crate::grouping::{LINE_FEED, SPACE};
use crate::parse::argument::angle::{after_mark, number_follows};
use crate::parse::argument::coords::{local_axes, local_axis, world_axes, world_axis};
use crate::parse::argument::extent::{
    at_word, lemma_after_mark, lemma_local_axes, lemma_quote_end, within,
};
use crate::parse::argument::primitives::quote_end;
use crate::parse::argument::{argument_outcome, Argument, StringKind};
use crate::parse::cst::{ArgumentView, BlockView, CommandView, ItemView, ValueView};
use crate::parse::errors::ParseError;
use crate::text::{
    boundary, char_at, is_text, is_whitespace, lemma_ascii_char, lemma_char_step, lemma_ws_end,
    lemma_ws_end_ge, peek_at, remaining, suffix, width_at, word_end, ws_end,
};
use vstd::prelude::*;
use vstd::utf8::*;

verus! {

/// The errors of a command lie where they belong: those of an argument
/// inside the argument, the error of the command at or behind its last
/// argument, and so in every command of every block among the arguments.
pub open spec fn local(c: CommandView) -> bool
    decreases c,
{
    &&& forall|i: int| 0 <= i < c.args.len() ==> argument_local(#[trigger] c.args[i])
    &&& match c.error {
        Some(e) => c.args.len() > 0 ==> c.args.last().span.end <= e.span().start,
        None => true,
    }
}

/// The errors of an argument lie inside it, and the errors of the commands
/// of its block, if it is one, lie where they belong.
pub open spec fn argument_local(a: ArgumentView) -> bool
    decreases a,
{
    &&& within(a.errors, a.span.start as int, a.span.end as int)
    &&& match a.value {
        ValueView::Block(block) => block_local(block),
        _ => true,
    }
}

/// The errors of the commands of a block lie where they belong.
pub open spec fn block_local(block: BlockView) -> bool
    decreases block,
{
    forall|k: int|
        0 <= k < block.items.len() ==> match #[trigger] block.items[k] {
            ItemView::Command(c) => local(c),
            ItemView::Comment(_) => true,
        }
}

/// Only whitespace stands between `lo` and `hi`.
pub open spec fn gap(b: Seq<u8>, lo: int, hi: int) -> bool {
    lo <= hi <= ws_end(b, lo)
}

/// The arguments of the command cover the text `b` from `from` on, up to
/// whitespace: only whitespace stands before the first argument, between
/// two arguments, and, where the command has no error, behind the last
/// argument; the error of a command lies at or behind its last argument.
pub open spec fn tiles(c: CommandView, b: Seq<u8>, from: int) -> bool
    decreases c.args.len(),
{
    if c.args.len() == 0 {
        match c.error {
            Some(e) => from <= e.span().start,
            None => b.len() <= ws_end(b, from),
        }
    } else {
        &&& gap(b, from, c.args[0].span.start as int)
        &&& c.args[0].span.start <= c.args[0].span.end <= b.len()
        &&& tiles(
            CommandView { args: c.args.drop_first(), error: c.error },
            b,
            c.args[0].span.end as int,
        )
    }
}

/// The arguments of every command in every block among the arguments of
/// `c` cover the lines of that command in `b`, up to whitespace.
pub open spec fn blocks_tile(c: CommandView, b: Seq<u8>) -> bool
    decreases c,
{
    forall|i: int| 0 <= i < c.args.len() ==> argument_tiles(#[trigger] c.args[i], b)
}

/// If the argument is a block, the arguments of each of its commands
/// cover the lines of that command in `b`, up to whitespace.
pub open spec fn argument_tiles(a: ArgumentView, b: Seq<u8>) -> bool
    decreases a,
{
    match a.value {
        ValueView::Block(block) => block_tiles(block, b),
        _ => true,
    }
}

/// The arguments of each command of the block cover the lines of that
/// command in `b`, up to whitespace, and so in every block among them.
pub open spec fn block_tiles(block: BlockView, b: Seq<u8>) -> bool
    decreases block,
{
    forall|k: int|
        0 <= k < block.items.len() ==> match #[trigger] block.items[k] {
            ItemView::Command(c) => command_tiles(c, b),
            ItemView::Comment(_) => true,
        }
}

/// The arguments of the command cover some lines of `b`, from one offset
/// to another, up to whitespace; and so do the commands in every block
/// among them.
pub open spec fn command_tiles(c: CommandView, b: Seq<u8>) -> bool
    decreases c,
{
    &&& exists|lo: int, hi: int|
        0 <= lo <= hi <= b.len() && #[trigger] tiles(c, b.subrange(0, hi), lo)
    &&& forall|i: int| 0 <= i < c.args.len() ==> argument_tiles(#[trigger] c.args[i], b)
}

/// A block whose commands cover their lines in the first `end` bytes of
/// `b` has them cover the same lines in `b`.
pub proof fn lemma_block_tiles_wider(block: BlockView, b: Seq<u8>, end: int)
    requires
        0 <= end <= b.len(),
        block_tiles(block, b.subrange(0, end)),
    ensures
        block_tiles(block, b),
    decreases block,
{
    assert forall|k: int| 0 <= k < block.items.len() implies match #[trigger] block.items[k] {
        ItemView::Command(c) => command_tiles(c, b),
        ItemView::Comment(_) => true,
    } by {
        match block.items[k] {
            ItemView::Command(c) => {
                let t = b.subrange(0, end);
                assert(command_tiles(c, t));
                let (lo, hi) = choose|lo: int, hi: int|
                    0 <= lo <= hi <= t.len() && #[trigger] tiles(c, t.subrange(0, hi), lo);
                assert(t.subrange(0, hi) =~= b.subrange(0, hi));
                assert(tiles(c, b.subrange(0, hi), lo));
                assert forall|i: int| 0 <= i < c.args.len() implies argument_tiles(
                    #[trigger] c.args[i],
                    b,
                ) by {
                    lemma_argument_tiles_wider(c.args[i], b, end);
                }
            },
            ItemView::Comment(_) => {},
        }
    }
}

/// An argument whose block has its commands cover their lines in the first
/// `end` bytes of `b` has them cover the same lines in `b`.
pub proof fn lemma_argument_tiles_wider(a: ArgumentView, b: Seq<u8>, end: int)
    requires
        0 <= end <= b.len(),
        argument_tiles(a, b.subrange(0, end)),
    ensures
        argument_tiles(a, b),
    decreases a,
{
    match a.value {
        ValueView::Block(block) => {
            lemma_block_tiles_wider(block, b, end);
        },
        _ => {},
    }
}

/// The offset `pos` is the end of the text, or the byte before it is
/// neither a space nor a line feed.
pub open spec fn solid_before(b: Seq<u8>, pos: int) -> bool {
    pos >= b.len() || (0 < pos && b[pos - 1] != SPACE && b[pos - 1] != LINE_FEED)
}

/// The last byte of a character that is no whitespace is neither a space
/// nor a line feed.
pub proof fn lemma_char_solid(b: Seq<u8>, i: int)
    requires
        is_text(b),
        boundary(b, i),
        at_word(b, i),
    ensures
        b[i + width_at(b, i) - 1] != SPACE,
        b[i + width_at(b, i) - 1] != LINE_FEED,
{
    lemma_char_step(b, i);
    lemma_ascii_char(b, i);
    let s = suffix(b, i);
    let w = width_at(b, i);
    if w == 1 {
        if b[i] == SPACE || b[i] == LINE_FEED {
            assert(char_at(b, i) as u32 == b[i]);
        }
    } else {
        assert(s[w - 1] == b[i + w - 1]);
        assert(is_continuation_byte(s[w - 1]));
    }
}

/// The word at a character that is no whitespace ends behind a byte that
/// is neither a space nor a line feed.
pub proof fn lemma_word_solid(b: Seq<u8>, i: int)
    requires
        is_text(b),
        boundary(b, i),
        at_word(b, i),
    ensures
        i < word_end(b, i),
        solid_before(b, word_end(b, i)),
    decreases remaining(b, i),
{
    lemma_char_step(b, i);
    lemma_char_solid(b, i);
    let n = i + width_at(b, i);
    if n < b.len() && !is_whitespace(char_at(b, n)) {
        lemma_word_solid(b, n);
    }
}

/// The offset behind a mark that was found is solid.
proof fn lemma_mark_solid(b: Seq<u8>, p: int, mark: char)
    requires
        is_text(b),
        boundary(b, p),
        peek_at(b, p) == Some(mark),
        mark == '^' || mark == '~',
    ensures
        solid_before(b, p + 1),
{
    lemma_ascii_char(b, p);
}

/// Local axes end at a solid offset, where they start at one or at a word.
proof fn lemma_local_solid(b: Seq<u8>, start: int, pos: int, n: nat)
    requires
        is_text(b),
        boundary(b, pos),
        0 <= start <= pos,
        b.len() <= usize::MAX,
        solid_before(b, pos) || (n > 0 && at_word(b, pos)),
    ensures
        solid_before(b, local_axes(b, start, pos, n).end),
    decreases n,
{
    if n > 0 {
        lemma_ws_end(b, pos);
        lemma_ws_end_ge(b, pos);
        let p = ws_end(b, pos);
        if p < b.len() {
            let marked = peek_at(b, p) == Some('^') || peek_at(b, p) == Some('~');
            let at = if marked {
                p + 1
            } else {
                p
            };
            lemma_char_step(b, p);
            if peek_at(b, p) == Some('^') {
                lemma_mark_solid(b, p, '^');
            } else if peek_at(b, p) == Some('~') {
                lemma_mark_solid(b, p, '~');
            }
            if number_follows(b, at) {
                lemma_word_solid(b, at);
            }
            let axis = local_axis(b, p);
            lemma_local_axes(b, start, pos, n);
            crate::parse::argument::extent::lemma_word_extent(b, at);
            lemma_local_solid(b, start, axis.end, (n - 1) as nat);
        }
    }
}

/// World axes end at a solid offset, where they start at one or at a word.
proof fn lemma_world_solid(b: Seq<u8>, start: int, pos: int, n: nat, integral: bool)
    requires
        is_text(b),
        boundary(b, pos),
        0 <= start <= pos,
        b.len() <= usize::MAX,
        solid_before(b, pos) || (n > 0 && at_word(b, pos)),
    ensures
        solid_before(b, world_axes(b, start, pos, n, integral).end),
    decreases n,
{
    if n > 0 {
        lemma_ws_end(b, pos);
        lemma_ws_end_ge(b, pos);
        let p = ws_end(b, pos);
        if p < b.len() {
            let relative = peek_at(b, p) == Some('~');
            let marked = relative || peek_at(b, p) == Some('^');
            let at = if marked {
                p + 1
            } else {
                p
            };
            lemma_char_step(b, p);
            if peek_at(b, p) == Some('^') {
                lemma_mark_solid(b, p, '^');
            } else if peek_at(b, p) == Some('~') {
                lemma_mark_solid(b, p, '~');
            }
            if number_follows(b, at) {
                lemma_word_solid(b, at);
            } else {
                crate::text::lemma_word_end_ge(b, at);
            }
            let axis = world_axis(b, p, integral);
            crate::parse::argument::extent::lemma_word_extent(b, at);
            lemma_world_solid(b, start, axis.end, (n - 1) as nat, integral);
        }
    }
}

/// An argument that was read at a word ends at a solid offset.
pub proof fn lemma_argument_solid(kind: Argument, b: Seq<u8>, p: int, strings: Seq<Seq<char>>)
    requires
        is_text(b),
        boundary(b, p),
        at_word(b, p),
        b.len() <= usize::MAX,
    ensures
        argument_outcome(kind, b, p, strings).result is Ok ==> solid_before(
            b,
            argument_outcome(kind, b, p, strings).end,
        ),
{
    lemma_word_solid(b, p);
    lemma_char_step(b, p);
    match kind {
        Argument::String(string_kind) => {
            if string_kind != StringKind::GreedyPhrase {
                let quote = char_at(b, p);
                if quote == '"' || quote == '\'' {
                    lemma_quote_end(b, p + 1, quote);
                    match quote_end(b, p + 1, quote) {
                        Some(close) => {
                            lemma_ascii_char(b, close);
                        },
                        None => {},
                    }
                }
            }
        },
        Argument::Angle => {
            lemma_after_mark(b, p, '~');
            let at = after_mark(b, p, '~');
            if peek_at(b, p) == Some('~') {
                lemma_ascii_char(b, p);
            }
            if number_follows(b, at) {
                lemma_word_solid(b, at);
            }
        },
        Argument::BlockPos => {
            lemma_local_solid(b, p, p, 3);
            lemma_world_solid(b, p, p, 3, true);
        },
        Argument::ColumnPos => {
            lemma_world_solid(b, p, p, 2, false);
        },
        Argument::Vec2 => {
            lemma_local_solid(b, p, p, 2);
            lemma_world_solid(b, p, p, 2, false);
        },
        Argument::Vec3 => {
            lemma_local_solid(b, p, p, 3);
            lemma_world_solid(b, p, p, 3, false);
        },
        _ => {},
    }
}

/// A command that consists of an error at or behind `from` has its errors
/// where they belong and covers the text from `from` on.
pub proof fn lemma_failed(e: ParseError, b: Seq<u8>, from: int)
    requires
        from <= e.span().start,
    ensures
        local(CommandView { args: Seq::empty(), error: Some(e) }),
        tiles(CommandView { args: Seq::empty(), error: Some(e) }, b, from),
        blocks_tile(CommandView { args: Seq::empty(), error: Some(e) }, b),
{
}

/// An argument with its errors inside, in front of a rest that has its
/// errors where they belong and covers the text behind the argument,
/// makes a command of which the same holds from `from` on; and the
/// commands in its blocks cover their lines where those of the argument
/// and of the rest do.
pub proof fn lemma_attach(head: ArgumentView, rest: Option<CommandView>, b: Seq<u8>, from: int)
    requires
        argument_local(head),
        argument_tiles(head, b),
        gap(b, from, head.span.start as int),
        head.span.start <= head.span.end <= b.len(),
        match rest {
            Some(more) => local(more) && tiles(more, b, head.span.end as int) && blocks_tile(
                more,
                b,
            ),
            None => b.len() <= ws_end(b, head.span.end as int),
        },
    ensures
        local(crate::parser::attach(head, rest)),
        tiles(crate::parser::attach(head, rest), b, from),
        blocks_tile(crate::parser::attach(head, rest), b),
{
    let whole = crate::parser::attach(head, rest);
    match rest {
        Some(more) => {
            assert(whole.args.drop_first() =~= more.args);
            assert forall|i: int| 0 <= i < whole.args.len() implies argument_tiles(
                #[trigger] whole.args[i],
                b,
            ) by {
                if i > 0 {
                    assert(whole.args[i] == more.args[i - 1]);
                    assert(argument_tiles(more.args[i - 1], b));
                }
            }
            assert forall|i: int| 0 <= i < whole.args.len() implies argument_local(
                #[trigger] whole.args[i],
            ) by {
                if i > 0 {
                    assert(whole.args[i] == more.args[i - 1]);
                    assert(argument_local(more.args[i - 1]));
                }
            }
            if more.args.len() > 0 {
                assert(whole.args.last() == more.args.last());
            }
            assert(whole.args[0] == head);
            assert(CommandView { args: whole.args.drop_first(), error: whole.error } == more);
        },
        None => {
            assert(whole.args.drop_first() =~= Seq::<ArgumentView>::empty());
            assert(whole.args[0] == head);
            let tail = CommandView { args: whole.args.drop_first(), error: whole.error };
            assert(tail.args.len() == 0);
            assert(tiles(tail, b, head.span.end as int));
        },
    }
}

} // verus!
