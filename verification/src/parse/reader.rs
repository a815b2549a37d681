//! A cursor over a source text, with one character of lookahead.

use crate::text::{
    boundary, byte_len, char_at_offset, char_is_whitespace, char_width, is_text, is_whitespace,
    lemma_boundary_in_prefix, lemma_boundary_in_suffix, lemma_char_step, lemma_prefix_boundary,
    lemma_scan_is_word_end, lemma_scan_is_ws_end, lemma_slice_is_text, lemma_str_is_text, next_pos,
    peek_at, scan_until, slice, suffix, width_at, word_end, ws_end,
};
use std::ops::Range;
use vstd::prelude::*;
use vstd::string::*;

verus! {

/// The bytes `p` stand in `b` at offset `i`.
pub open spec fn has_prefix_at(b: Seq<u8>, i: int, p: Seq<u8>) -> bool {
    0 <= i && i + p.len() <= b.len() && b.subrange(i, i + p.len()) == p
}

/// A result with the range taken off its value.
pub open spec fn without_span<T, E>(res: Result<(Range<usize>, T), E>) -> Result<T, E> {
    match res {
        Ok((_, value)) => Ok(value),
        Err(e) => Err(e),
    }
}

/// Where `f` answers anything but `skipped`, `stop` holds, and only there.
pub open spec fn stops<F: Fn(char) -> bool>(
    f: F,
    skipped: bool,
    stop: spec_fn(char) -> bool,
) -> bool {
    forall|c: char, r: bool| #[trigger] f.ensures((c,), r) ==> (r != skipped) == stop(c)
}

/// A position in a text, together with the character found there.
#[derive(Clone, Copy)]
pub struct Reader<'a> {
    src: &'a str,
    pos: usize,
    cur: Option<char>,
}

impl<'a> Reader<'a> {
    /// The bytes of the text that is read.
    pub closed spec fn text(&self) -> Seq<u8> {
        self.src.spec_bytes()
    }

    /// The byte offset of the cursor.
    pub closed spec fn position(&self) -> int {
        self.pos as int
    }

    /// The cursor sits on a character boundary and the cached character is
    /// the one found there.
    pub closed spec fn wf(&self) -> bool {
        &&& boundary(self.src.spec_bytes(), self.pos as int)
        &&& self.cur == peek_at(self.src.spec_bytes(), self.pos as int)
        &&& self.src.spec_bytes().len() <= usize::MAX
    }

    /// What well-formedness says in terms of the public model.
    pub proof fn lemma_wf(&self)
        requires
            self.wf(),
        ensures
            is_text(self.text()),
            boundary(self.text(), self.position()),
            0 <= self.position() <= self.text().len(),
            self.text().len() <= usize::MAX,
    {
        lemma_str_is_text(self.src);
    }

    /// A reader at the start of `src`.
    pub fn new(src: &'a str) -> (r: Self)
        ensures
            r.wf(),
            r.text() == src.spec_bytes(),
            r.position() == 0,
    {
        proof {
            lemma_str_is_text(src);
        }
        Self::with_pos(src, 0)
    }

    /// A reader at byte offset `pos` of `src`.
    pub fn with_pos(src: &'a str, pos: usize) -> (r: Self)
        requires
            boundary(src.spec_bytes(), pos as int),
        ensures
            r.wf(),
            r.text() == src.spec_bytes(),
            r.position() == pos,
    {
        let _ = byte_len(src);
        Reader { src, pos, cur: char_at_offset(src, pos) }
    }

    /// A reader at `range.start` over the text of `src` that ends at `range.end`.
    pub fn with_range(src: &'a str, range: Range<usize>) -> (r: Self)
        requires
            boundary(src.spec_bytes(), range.start as int),
            boundary(src.spec_bytes(), range.end as int),
            range.start <= range.end,
        ensures
            r.wf(),
            r.text() == src.spec_bytes().subrange(0, range.end as int),
            r.position() == range.start,
    {
        proof {
            lemma_str_is_text(src);
            lemma_boundary_in_prefix(src.spec_bytes(), range.start as int, range.end as int);
        }
        let head = slice(src, 0, range.end);
        Self::with_pos(head, range.start)
    }

    /// The text from the cursor to the end.
    pub fn remaining_src(&self) -> (r: &'a str)
        requires
            self.wf(),
        ensures
            r.spec_bytes() == suffix(self.text(), self.position()),
    {
        proof {
            lemma_str_is_text(self.src);
        }
        slice(self.src, self.pos, byte_len(self.src))
    }

    /// The whole text.
    pub fn get_src(&self) -> (r: &'a str)
        ensures
            r.spec_bytes() == self.text(),
    {
        self.src
    }

    /// The byte offset of the cursor.
    pub fn get_pos(&self) -> (r: usize)
        ensures
            r == self.position(),
    {
        self.pos
    }

    /// Moves the cursor to byte offset `pos`.
    pub fn set_pos(&mut self, pos: usize)
        requires
            boundary(old(self).text(), pos as int),
        ensures
            final(self).wf(),
            final(self).text() == old(self).text(),
            final(self).position() == pos,
    {
        *self = Self::with_pos(self.src, pos);
    }

    /// The byte offset just past the current character.
    pub fn get_next_pos(&self) -> (r: usize)
        requires
            self.wf(),
        ensures
            r == next_pos(self.text(), self.position()),
    {
        match self.cur {
            Some(c) => {
                proof {
                    lemma_str_is_text(self.src);
                    lemma_char_step(self.src.spec_bytes(), self.pos as int);
                }
                self.pos + char_width(c)
            },
            None => self.pos,
        }
    }

    /// Whether a character is left to read.
    pub fn has_more(&self) -> (r: bool)
        requires
            self.wf(),
        ensures
            r == (self.position() < self.text().len()),
    {
        self.cur.is_some()
    }

    /// The current character.
    pub fn peek(&self) -> (r: Option<char>)
        requires
            self.wf(),
        ensures
            r == peek_at(self.text(), self.position()),
    {
        self.cur
    }

    /// The character after the current one.
    pub fn peek2(&self) -> (r: Option<char>)
        requires
            self.wf(),
        ensures
            r == peek_at(self.text(), next_pos(self.text(), self.position())),
    {
        let mut ahead = *self;
        ahead.advance();
        ahead.peek()
    }

    /// Steps over the current character, if there is one.
    pub fn advance(&mut self)
        requires
            old(self).wf(),
        ensures
            final(self).wf(),
            final(self).text() == old(self).text(),
            final(self).position() == next_pos(old(self).text(), old(self).position()),
    {
        if let Some(c) = self.cur {
            proof {
                lemma_str_is_text(self.src);
                lemma_char_step(self.src.spec_bytes(), self.pos as int);
            }
            let pos = self.pos + char_width(c);
            *self = Self::with_pos(self.src, pos);
        }
    }

    /// Steps over `string` if the text at the cursor starts with it.
    pub fn skip(&mut self, string: &str) -> (found: bool)
        requires
            old(self).wf(),
        ensures
            final(self).wf(),
            final(self).text() == old(self).text(),
            found == has_prefix_at(old(self).text(), old(self).position(), string.spec_bytes()),
            final(self).position() == old(self).position() + (if found {
                string.spec_bytes().len()
            } else {
                0
            }),
    {
        let text = self.src.as_bytes();
        let want = string.as_bytes();
        if want.len() > text.len() - self.pos {
            return false;
        }
        let mut i: usize = 0;
        while i < want.len()
            invariant
                *self == *old(self),
                self.wf(),
                i <= want.len(),
                self.pos + want.len() <= text.len(),
                text@ == self.src.spec_bytes(),
                want@ == string.spec_bytes(),
                forall|k: int| 0 <= k < i ==> text@[self.pos + k] == want@[k],
            decreases want.len() - i,
        {
            if text[self.pos + i] != want[i] {
                proof {
                    let b = text@;
                    assert(b.subrange(self.pos as int, self.pos + want.len())[i as int] == b[self.pos
                        + i]);
                }
                return false;
            }
            i += 1;
        }
        proof {
            let b = text@;
            let p = self.pos as int;
            assert(b.subrange(p, p + want.len()) =~= want@);
            lemma_str_is_text(self.src);
            lemma_str_is_text(string);
            lemma_slice_is_text(b, p, b.len() as int);
            assert(suffix(b, p).subrange(0, want@.len() as int) =~= want@);
            lemma_prefix_boundary(suffix(b, p), want@);
            lemma_boundary_in_suffix(b, p, want@.len() as int);
        }
        let pos = self.pos + want.len();
        *self = Self::with_pos(self.src, pos);
        true
    }

    /// Steps over the whitespace at the cursor.
    pub fn skip_whitespace(&mut self)
        requires
            old(self).wf(),
        ensures
            final(self).wf(),
            final(self).text() == old(self).text(),
            final(self).position() == ws_end(old(self).text(), old(self).position()),
    {
        let ghost b = self.text();
        let ghost start = self.position();
        let f = |c: char| -> (r: bool)
            ensures
                r == is_whitespace(c),
            { char_is_whitespace(c) };
        let _ = self.read_span_while(f);
        proof {
            let stop = |c: char| !is_whitespace(c);
            assert(scan_until(b, start, stop) == self.position());
            lemma_scan_is_ws_end(b, start, stop);
        }
    }

    /// Steps over the characters for which `f` answers `skipped`, and gives
    /// the range stepped over.
    fn scan<F: Fn(char) -> bool>(&mut self, f: &F, skipped: bool) -> (range: Range<usize>)
        requires
            old(self).wf(),
            forall|c: char| #[trigger] f.requires((c,)),
        ensures
            final(self).wf(),
            final(self).text() == old(self).text(),
            range.start == old(self).position(),
            range.end == final(self).position(),
            range.start <= range.end <= old(self).text().len(),
            boundary(old(self).text(), range.end as int),
            forall|stop: spec_fn(char) -> bool|
                stops(*f, skipped, stop) ==> #[trigger] scan_until(
                    old(self).text(),
                    old(self).position(),
                    stop,
                ) == range.end,
    {
        let start = self.pos;
        let ghost b = self.src.spec_bytes();
        proof {
            lemma_str_is_text(self.src);
        }
        loop
            invariant
                self.wf(),
                is_text(b),
                self.src.spec_bytes() == b,
                start <= self.pos <= b.len(),
                forall|c: char| #[trigger] f.requires((c,)),
                forall|stop: spec_fn(char) -> bool|
                    stops(*f, skipped, stop) ==> #[trigger] scan_until(b, start as int, stop)
                        == scan_until(b, self.pos as int, stop),
            ensures
                self.wf(),
                self.src.spec_bytes() == b,
                start <= self.pos <= b.len(),
                forall|stop: spec_fn(char) -> bool|
                    stops(*f, skipped, stop) ==> #[trigger] scan_until(b, start as int, stop)
                        == self.pos,
            decreases b.len() - self.pos,
        {
            match self.cur {
                None => {
                    break ;
                },
                Some(c) => {
                    let answer = f(c);
                    if answer != skipped {
                        assert forall|stop: spec_fn(char) -> bool|
                            stops(*f, skipped, stop) implies #[trigger] scan_until(
                            b,
                            start as int,
                            stop,
                        ) == self.pos by {
                            assert(f.ensures((c,), answer));
                            assert(scan_until(b, self.pos as int, stop) == self.pos);
                        }
                        break ;
                    }
                    let ghost before = self.pos as int;
                    proof {
                        lemma_char_step(b, before);
                    }
                    self.advance();
                    assert forall|stop: spec_fn(char) -> bool|
                        stops(*f, skipped, stop) implies #[trigger] scan_until(
                        b,
                        start as int,
                        stop,
                    ) == scan_until(b, self.pos as int, stop) by {
                        assert(f.ensures((c,), answer));
                        assert(scan_until(b, before, stop) == scan_until(
                            b,
                            before + width_at(b, before),
                            stop,
                        ));
                    }
                },
            }
        }
        start..self.pos
    }

    /// Steps to the first character for which `f` holds, or to the end, and
    /// gives the range stepped over.
    pub fn read_range_until<F: Fn(char) -> bool>(&mut self, f: F) -> (range: Range<usize>)
        requires
            old(self).wf(),
            forall|c: char| #[trigger] f.requires((c,)),
        ensures
            final(self).wf(),
            final(self).text() == old(self).text(),
            range.start == old(self).position(),
            range.end == final(self).position(),
            range.start <= range.end <= old(self).text().len(),
            boundary(old(self).text(), range.end as int),
            forall|stop: spec_fn(char) -> bool|
                stops(f, false, stop) ==> #[trigger] scan_until(
                    old(self).text(),
                    old(self).position(),
                    stop,
                ) == range.end,
    {
        self.scan(&f, false)
    }

    /// Steps to the first character for which `f` holds, or to the end, and
    /// gives the text stepped over.
    pub fn read_until<F: Fn(char) -> bool>(&mut self, f: F) -> (r: &'a str)
        requires
            old(self).wf(),
            forall|c: char| #[trigger] f.requires((c,)),
        ensures
            final(self).wf(),
            final(self).text() == old(self).text(),
            old(self).position() <= final(self).position() <= old(self).text().len(),
            r.spec_bytes() == old(self).text().subrange(
                old(self).position(),
                final(self).position(),
            ),
            forall|stop: spec_fn(char) -> bool|
                stops(f, false, stop) ==> #[trigger] scan_until(
                    old(self).text(),
                    old(self).position(),
                    stop,
                ) == final(self).position(),
    {
        let range = self.read_range_until(f);
        slice(self.src, range.start, range.end)
    }

    /// Steps over the characters for which `f` holds and gives the range
    /// stepped over.
    pub fn read_span_while<F: Fn(char) -> bool>(&mut self, f: F) -> (range: Range<usize>)
        requires
            old(self).wf(),
            forall|c: char| #[trigger] f.requires((c,)),
        ensures
            final(self).wf(),
            final(self).text() == old(self).text(),
            range.start == old(self).position(),
            range.end == final(self).position(),
            range.start <= range.end <= old(self).text().len(),
            boundary(old(self).text(), range.end as int),
            forall|stop: spec_fn(char) -> bool|
                stops(f, true, stop) ==> #[trigger] scan_until(
                    old(self).text(),
                    old(self).position(),
                    stop,
                ) == range.end,
    {
        self.scan(&f, true)
    }

    /// Steps over the characters for which `f` holds and gives the text
    /// stepped over.
    pub fn read_while<F: Fn(char) -> bool>(&mut self, f: F) -> (r: &'a str)
        requires
            old(self).wf(),
            forall|c: char| #[trigger] f.requires((c,)),
        ensures
            final(self).wf(),
            final(self).text() == old(self).text(),
            old(self).position() <= final(self).position() <= old(self).text().len(),
            r.spec_bytes() == old(self).text().subrange(
                old(self).position(),
                final(self).position(),
            ),
            forall|stop: spec_fn(char) -> bool|
                stops(f, true, stop) ==> #[trigger] scan_until(
                    old(self).text(),
                    old(self).position(),
                    stop,
                ) == final(self).position(),
    {
        let range = self.read_span_while(f);
        slice(self.src, range.start, range.end)
    }

    /// Steps to the next whitespace, or to the end, and gives the range
    /// stepped over.
    pub fn read_word_range(&mut self) -> (range: Range<usize>)
        requires
            old(self).wf(),
        ensures
            final(self).wf(),
            final(self).text() == old(self).text(),
            range.start == old(self).position(),
            range.end == final(self).position(),
            range.end == word_end(old(self).text(), old(self).position()),
            range.start <= range.end <= old(self).text().len(),
            boundary(old(self).text(), range.end as int),
    {
        let ghost b = self.text();
        let ghost start = self.position();
        let f = |c: char| -> (r: bool)
            ensures
                r == is_whitespace(c),
            { char_is_whitespace(c) };
        let range = self.read_range_until(f);
        proof {
            let stop = |c: char| is_whitespace(c);
            assert(scan_until(b, start, stop) == range.end);
            lemma_scan_is_word_end(b, start, stop);
        }
        range
    }

    /// Steps to the next whitespace, or to the end, and gives the text
    /// stepped over.
    pub fn read_literal(&mut self) -> (r: &'a str)
        requires
            old(self).wf(),
        ensures
            final(self).wf(),
            final(self).text() == old(self).text(),
            final(self).position() == word_end(old(self).text(), old(self).position()),
            old(self).position() <= final(self).position() <= old(self).text().len(),
            r.spec_bytes() == old(self).text().subrange(
                old(self).position(),
                final(self).position(),
            ),
    {
        let range = self.read_word_range();
        slice(self.src, range.start, range.end)
    }
    /// Runs `f` on the reader and gives its result with the range that it
    /// stepped over. Whatever `f` promises of the reader it was given, of the
    /// reader it left and of its result holds of this reader before the call,
    /// after it, and of the result.
    pub fn parse_with_span<R, F: FnOnce(&mut Self) -> R>(&mut self, f: F) -> (res: (
        Range<usize>,
        R,
    ))
        requires
            forall|r: &mut Self| *r == *old(self) ==> #[trigger] f.requires((r,)),
        ensures
            forall|holds: spec_fn(Self, Self, R) -> bool|
                (forall|r: &mut Self, out: R| #[trigger]
                    f.ensures((r,), out) ==> holds(*r, *final(r), out)) ==> #[trigger] holds(
                    *old(self),
                    *final(self),
                    res.1,
                ),
            res.0.start == old(self).position(),
            res.0.end == final(self).position(),
    {
        let start = self.pos;
        let result = f(self);
        (start..self.pos, result)
    }
    /// Runs `f` on the reader and, where it succeeds, gives its value with
    /// the range that it stepped over.
    pub fn try_parse_with_span<T, E, F: FnOnce(&mut Self) -> Result<T, E>>(
        &mut self,
        f: F,
    ) -> (res: Result<(Range<usize>, T), E>)
        requires
            forall|r: &mut Self| *r == *old(self) ==> #[trigger] f.requires((r,)),
        ensures
            forall|holds: spec_fn(Self, Self, Result<T, E>) -> bool|
                (forall|r: &mut Self, out: Result<T, E>| #[trigger]
                    f.ensures((r,), out) ==> holds(*r, *final(r), out)) ==> #[trigger] holds(
                    *old(self),
                    *final(self),
                    without_span(res),
                ),
            res matches Ok((range, _)) ==> range.start == old(self).position() && range.end
                == final(self).position(),
    {
        let (span, result) = self.parse_with_span(f);
        match result {
            Ok(value) => Ok((span, value)),
            Err(e) => Err(e),
        }
    }
}

} // verus!
