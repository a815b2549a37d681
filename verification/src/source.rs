//! A source text with an index of its line endings.

use crate::text::{boundary, byte_len, is_text};
use std::ops::Range;
use std::path::PathBuf;
use vstd::prelude::*;
use vstd::string::*;
use vstd::utf8::*;

verus! {

/// A file system path of the standard library; the library only carries it.
#[verifier::external_type_specification]
#[verifier::external_body]
pub struct ExPathBuf(PathBuf);

/// The offsets below `n` at which `b` holds a line feed, in ascending order.
pub open spec fn newlines_before(b: Seq<u8>, n: int) -> Seq<usize>
    decreases n,
{
    if n <= 0 {
        Seq::empty()
    } else if n <= b.len() && b[n - 1] == 0x0A {
        newlines_before(b, n - 1).push((n - 1) as usize)
    } else {
        newlines_before(b, n - 1)
    }
}

/// The zero-based line of byte offset `idx`: the number of line feeds before it.
pub open spec fn line_of(b: Seq<u8>, idx: int) -> int {
    newlines_before(b, idx).len() as int
}

/// `b` with the bytes in `[start, end)` replaced by `with`.
pub open spec fn spliced(b: Seq<u8>, start: int, end: int, with: Seq<u8>) -> Seq<u8> {
    b.subrange(0, start) + with + b.subrange(end, b.len() as int)
}

/// Every offset listed by [`newlines_before`] lies below `n` and holds a line
/// feed; the offsets ascend; and the list for a smaller bound is a prefix.
pub proof fn lemma_newlines(b: Seq<u8>, n: int)
    requires
        0 <= n <= b.len(),
        b.len() <= usize::MAX,
    ensures
        newlines_before(b, n).len() <= n,
        forall|k: int|
            0 <= k < newlines_before(b, n).len() ==> {
                &&& 0 <= #[trigger] newlines_before(b, n)[k] < n
                &&& b[newlines_before(b, n)[k] as int] == 0x0A
            },
        forall|j: int, k: int|
            0 <= j < k < newlines_before(b, n).len() ==> newlines_before(b, n)[j]
                < newlines_before(b, n)[k],
        forall|m: int|
            0 <= m <= n ==> {
                &&& #[trigger] newlines_before(b, m).len() <= newlines_before(b, n).len()
                &&& newlines_before(b, m) == newlines_before(b, n).subrange(
                    0,
                    newlines_before(b, m).len() as int,
                )
            },
        forall|m: int, k: int|
            0 <= m <= n && #[trigger] newlines_before(b, m).len() <= k < newlines_before(
                b,
                n,
            ).len() ==> m <= #[trigger] newlines_before(b, n)[k],
    decreases n,
{
    if n > 0 {
        lemma_newlines(b, n - 1);
        let prev = newlines_before(b, n - 1);
        let cur = newlines_before(b, n);
        assert forall|m: int| 0 <= m <= n implies {
            &&& #[trigger] newlines_before(b, m).len() <= cur.len()
            &&& newlines_before(b, m) == cur.subrange(0, newlines_before(b, m).len() as int)
        } by {
            if m < n {
                assert(newlines_before(b, m) == prev.subrange(
                    0,
                    newlines_before(b, m).len() as int,
                ));
                assert(newlines_before(b, m) =~= cur.subrange(
                    0,
                    newlines_before(b, m).len() as int,
                ));
            } else {
                assert(cur =~= cur.subrange(0, cur.len() as int));
            }
        }
    } else {
        assert(newlines_before(b, 0) =~= newlines_before(b, 0).subrange(0, 0));
    }
}

/// Two texts that agree below `n` have the same line feeds below `n`.
pub proof fn lemma_newlines_agree(a: Seq<u8>, b: Seq<u8>, n: int)
    requires
        0 <= n <= a.len(),
        n <= b.len(),
        forall|k: int| 0 <= k < n ==> a[k] == b[k],
    ensures
        newlines_before(a, n) == newlines_before(b, n),
    decreases n,
{
    if n > 0 {
        lemma_newlines_agree(a, b, n - 1);
    }
}

/// `String::replace_range`: the bytes in `[start, end)` give way to the
/// bytes of `with`; `start` and `end` must be character boundaries of the
/// string, in this order.
#[verifier::external_body]
fn string_replace_range(s: &mut String, start: usize, end: usize, with: &str)
    requires
        start <= end,
        boundary(encode_utf8(old(s)@), start as int),
        boundary(encode_utf8(old(s)@), end as int),
    ensures
        encode_utf8(final(s)@) == spliced(
            encode_utf8(old(s)@),
            start as int,
            end as int,
            with.spec_bytes(),
        ),
{
    s.replace_range(start..end, with)
}

/// A source text, the path it was read from if there is one, and the
/// offsets of its line feeds.
pub struct SourceFile {
    path: Option<PathBuf>,
    text: String,
    line_endings: Vec<usize>,
}

impl SourceFile {
    /// The bytes of the text.
    pub closed spec fn bytes(&self) -> Seq<u8> {
        encode_utf8(self.text@)
    }

    /// The recorded line feed offsets.
    pub closed spec fn line_ends(&self) -> Seq<usize> {
        self.line_endings@
    }

    /// The path given at construction.
    pub closed spec fn origin(&self) -> Option<PathBuf> {
        self.path
    }

    /// The index lists exactly the line feeds of the text, in ascending order.
    pub closed spec fn wf(&self) -> bool {
        &&& self.bytes().len() <= usize::MAX
        &&& self.line_endings@ == newlines_before(self.bytes(), self.bytes().len() as int)
    }

    /// What well-formedness means for the index: it ascends strictly, and
    /// each entry is the offset of a line feed inside the text.
    pub proof fn lemma_index(&self)
        requires
            self.wf(),
        ensures
            is_text(self.bytes()),
            self.line_ends() == newlines_before(self.bytes(), self.bytes().len() as int),
            forall|j: int, k: int|
                0 <= j < k < self.line_ends().len() ==> self.line_ends()[j] < self.line_ends()[k],
            forall|k: int|
                0 <= k < self.line_ends().len() ==> {
                    &&& #[trigger] self.line_ends()[k] < self.bytes().len()
                    &&& self.bytes()[self.line_ends()[k] as int] == 0x0A
                },
    {
        encode_utf8_valid_utf8(self.text@);
        lemma_newlines(self.bytes(), self.bytes().len() as int);
    }

    /// A source with the given text.
    pub fn new(path: Option<PathBuf>, text: String) -> (source: Self)
        ensures
            source.wf(),
            source.bytes() == encode_utf8(text@),
            source.origin() == path,
    {
        let mut line_endings: Vec<usize> = Vec::new();
        index_from(text.as_str(), 0, &mut line_endings);
        SourceFile { path, text, line_endings }
    }

    /// The path given at construction.
    pub fn path(&self) -> (r: Option<&PathBuf>)
        ensures
            r is Some == self.origin() is Some,
            r matches Some(p) ==> *p == self.origin()->0,
    {
        self.path.as_ref()
    }

    /// The text.
    pub fn text(&self) -> (r: &str)
        ensures
            r.spec_bytes() == self.bytes(),
    {
        self.text.as_str()
    }

    /// Whether byte offset `idx` lies in the text, or at its end, between
    /// characters.
    pub fn is_boundary(&self, idx: usize) -> (r: bool)
        ensures
            r == boundary(self.bytes(), idx as int),
    {
        crate::text::is_boundary(self.text.as_str(), idx)
    }

    /// Replaces the bytes in `range` by `new_text` and brings the index up
    /// to date.
    pub fn replace_range(&mut self, range: Range<usize>, new_text: &str)
        requires
            old(self).wf(),
            range.start <= range.end,
            boundary(old(self).bytes(), range.start as int),
            boundary(old(self).bytes(), range.end as int),
            old(self).bytes().len() - (range.end - range.start) + new_text.spec_bytes().len()
                <= usize::MAX,
        ensures
            final(self).wf(),
            final(self).bytes() == spliced(
                old(self).bytes(),
                range.start as int,
                range.end as int,
                new_text.spec_bytes(),
            ),
            final(self).origin() == old(self).origin(),
    {
        let ghost before = self.bytes();
        let line = self.line_index(range.start);
        string_replace_range(&mut self.text, range.start, range.end, new_text);
        self.line_endings.truncate(line);
        proof {
            let after = self.bytes();
            lemma_newlines(before, before.len() as int);
            lemma_newlines_agree(before, after, range.start as int);
            assert(self.line_endings@ =~= newlines_before(after, range.start as int));
        }
        index_from(self.text.as_str(), range.start, &mut self.line_endings);
    }

    /// The number of line feeds before byte offset `idx`.
    fn line_index(&self, idx: usize) -> (line: usize)
        requires
            self.wf(),
            idx <= self.bytes().len(),
        ensures
            line == line_of(self.bytes(), idx as int),
            line <= self.line_ends().len(),
    {
        let ghost b = self.bytes();
        let ghost target = newlines_before(b, idx as int).len() as int;
        proof {
            lemma_newlines(b, b.len() as int);
            lemma_newlines(b, idx as int);
            let all = newlines_before(b, b.len() as int);
            let head = newlines_before(b, idx as int);
            assert(head == all.subrange(0, target));
            assert forall|k: int| 0 <= k < target implies #[trigger] self.line_endings@[k]
                < idx by {
                assert(head[k] == all[k]);
            }
        }
        let mut lo: usize = 0;
        let mut hi: usize = self.line_endings.len();
        while lo < hi
            invariant
                self.wf(),
                b == self.bytes(),
                idx <= b.len(),
                target == newlines_before(b, idx as int).len(),
                0 <= lo <= target <= hi <= self.line_endings@.len(),
                forall|j: int, k: int|
                    0 <= j < k < self.line_endings@.len() ==> self.line_endings@[j]
                        < self.line_endings@[k],
                forall|k: int|
                    0 <= k < target ==> #[trigger] self.line_endings@[k] < idx,
                forall|k: int|
                    target <= k < self.line_endings@.len() ==> idx <= #[trigger] self.line_endings@[k],
            decreases hi - lo,
        {
            let mid = lo + (hi - lo) / 2;
            if self.line_endings[mid] < idx {
                lo = mid + 1;
            } else {
                hi = mid;
            }
        }
        lo
    }

    /// The zero-based line of byte offset `idx`; `None` past the end of the text.
    pub fn byte_to_line(&self, idx: usize) -> (r: Option<usize>)
        requires
            self.wf(),
        ensures
            r == (if idx <= self.bytes().len() {
                Some(line_of(self.bytes(), idx as int) as usize)
            } else {
                None
            }),
    {
        if idx <= byte_len(self.text.as_str()) {
            Some(self.line_index(idx))
        } else {
            None
        }
    }

    /// Offset zero for line zero; for a later line, the offset of the line
    /// feed that ends the line before it; `None` if there is no such line.
    pub fn line_to_byte(&self, line: usize) -> (r: Option<usize>)
        requires
            self.wf(),
        ensures
            r == (if line == 0 {
                Some(0usize)
            } else if line - 1 < self.line_ends().len() {
                Some(self.line_ends()[line - 1])
            } else {
                None
            }),
    {
        if line == 0 {
            Some(0)
        } else if line - 1 < self.line_endings.len() {
            Some(self.line_endings[line - 1])
        } else {
            None
        }
    }
}

/// Appends to `index` the offsets at or after `from` at which `text` holds a
/// line feed.
fn index_from(text: &str, from: usize, index: &mut Vec<usize>)
    requires
        from <= text.spec_bytes().len(),
        old(index)@ == newlines_before(text.spec_bytes(), from as int),
    ensures
        text.spec_bytes().len() <= usize::MAX,
        final(index)@ == newlines_before(text.spec_bytes(), text.spec_bytes().len() as int),
{
    let bytes = text.as_bytes();
    let mut i: usize = from;
    while i < bytes.len()
        invariant
            bytes@ == text.spec_bytes(),
            from <= i <= bytes.len(),
            index@ == newlines_before(bytes@, i as int),
        decreases bytes.len() - i,
    {
        if bytes[i] == 0x0A {
            index.push(i);
        }
        i += 1;
    }
}

} // verus!
