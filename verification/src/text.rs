//! Byte-level view of UTF-8 text: character boundaries, the character that
//! starts at a byte offset, and the handful of character classes the parser
//! distinguishes.

use vstd::prelude::*;
use vstd::string::*;
use vstd::utf8::*;

verus! {

/// The bytes of `b` from offset `i` to the end.
pub open spec fn suffix(b: Seq<u8>, i: int) -> Seq<u8> {
    b.subrange(i, b.len() as int)
}

/// `b` is well-formed UTF-8.
pub open spec fn is_text(b: Seq<u8>) -> bool {
    valid_utf8(b)
}

/// Offset `i` lies inside `b` (or at its end) and starts a character.
pub open spec fn boundary(b: Seq<u8>, i: int) -> bool {
    0 <= i <= b.len() && is_char_boundary(b, i)
}

/// The character whose encoding starts at byte offset `i`.
pub open spec fn char_at(b: Seq<u8>, i: int) -> char {
    decode_first_scalar(suffix(b, i)) as char
}

/// The number of bytes taken by the character that starts at offset `i`.
pub open spec fn width_at(b: Seq<u8>, i: int) -> int {
    utf8_width(char_at(b, i))
}

/// The character at offset `i`, or `None` at the end of the text.
pub open spec fn peek_at(b: Seq<u8>, i: int) -> Option<char> {
    if 0 <= i < b.len() {
        Some(char_at(b, i))
    } else {
        None
    }
}

/// The offset just past the character at `i`; `i` itself at the end of the text.
pub open spec fn next_pos(b: Seq<u8>, i: int) -> int {
    if 0 <= i < b.len() {
        i + width_at(b, i)
    } else {
        i
    }
}

/// The number of bytes in the UTF-8 encoding of `c`.
pub open spec fn utf8_width(c: char) -> int {
    let u = c as u32;
    if u < 0x80 {
        1
    } else if u < 0x800 {
        2
    } else if u < 0x10000 {
        3
    } else {
        4
    }
}

/// Membership in the Unicode `White_Space` class.
pub open spec fn is_whitespace(c: char) -> bool {
    let u = c as u32;
    ||| 0x09 <= u <= 0x0D
    ||| u == 0x20
    ||| u == 0x85
    ||| u == 0xA0
    ||| u == 0x1680
    ||| 0x2000 <= u <= 0x200A
    ||| u == 0x2028
    ||| u == 0x2029
    ||| u == 0x202F
    ||| u == 0x205F
    ||| u == 0x3000
}

/// Decides [`is_whitespace`].
pub fn char_is_whitespace(c: char) -> (b: bool)
    ensures
        b == is_whitespace(c),
{
    let u: u32 = c as u32;
    (0x09 <= u && u <= 0x0D) || u == 0x20 || u == 0x85 || u == 0xA0 || u == 0x1680 || (0x2000 <= u
        && u <= 0x200A) || u == 0x2028 || u == 0x2029 || u == 0x202F || u == 0x205F || u == 0x3000
}

/// Computes [`utf8_width`].
pub fn char_width(c: char) -> (n: usize)
    ensures
        n == utf8_width(c),
        1 <= n <= 4,
{
    let u: u32 = c as u32;
    if u < 0x80 {
        1
    } else if u < 0x800 {
        2
    } else if u < 0x10000 {
        3
    } else {
        4
    }
}

/// The encoding of a character has exactly [`utf8_width`] bytes.
pub proof fn lemma_encoded_width(c: char)
    ensures
        encode_scalar(c as u32).len() == utf8_width(c),
{
    char_is_scalar(c);
}

/// The bytes of a string slice are well-formed UTF-8, and both ends are boundaries.
pub proof fn lemma_str_is_text(s: &str)
    ensures
        is_text(s.spec_bytes()),
        boundary(s.spec_bytes(), 0),
        boundary(s.spec_bytes(), s.spec_bytes().len() as int),
        decode_utf8(s.spec_bytes()) == s@,
{
    encode_utf8_valid_utf8(s@);
    encode_utf8_decode_utf8(s@);
    is_char_boundary_start_end_of_seq(s.spec_bytes());
}

/// Two string slices with the same bytes hold the same characters.
pub proof fn lemma_same_bytes_same_chars(a: &str, b: &str)
    requires
        a.spec_bytes() == b.spec_bytes(),
    ensures
        a@ == b@,
{
    encode_utf8_decode_utf8(a@);
    encode_utf8_decode_utf8(b@);
}

/// What is known of the character that starts at a boundary inside the text:
/// it is well-formed, takes between one and four bytes, ends on a boundary,
/// and its width is that of its own encoding.
pub proof fn lemma_char_step(b: Seq<u8>, i: int)
    requires
        is_text(b),
        boundary(b, i),
        i < b.len(),
    ensures
        is_text(suffix(b, i)),
        valid_first_scalar(suffix(b, i)),
        1 <= width_at(b, i) <= 4,
        i + width_at(b, i) <= b.len(),
        boundary(b, i + width_at(b, i)),
        width_at(b, i) == length_of_first_scalar(suffix(b, i)),
        decode_utf8(suffix(b, i)).len() > 0,
        decode_utf8(suffix(b, i))[0] == char_at(b, i),
        !is_continuation_byte(b[i]),
{
    let s = suffix(b, i);
    valid_utf8_split(b, i);
    assert(s.len() > 0);
    assert(valid_first_scalar(s));
    let w = length_of_first_scalar(s);
    assert(1 <= w <= 4);
    assert(w <= s.len());
    assert(s[0] == b[i]);
    decode_utf8_first_scalar(s);
    lemma_encoded_width(char_at(b, i));
    assert(take_first_scalar(s).len() == w);
    assert(width_at(b, i) == w);
    let rest = pop_first_scalar(s);
    assert(valid_utf8(rest));
    assert(rest =~= suffix(b, i + w));
    if i + w < b.len() {
        assert(rest.len() > 0);
        assert(valid_first_scalar(rest));
        assert(rest[0] == b[i + w]);
        assert(!is_continuation_byte(b[i + w]));
        is_char_boundary_iff_not_is_continuation_byte(b, i + w);
    } else {
        is_char_boundary_start_end_of_seq(b);
    }
}

/// The text from a boundary to the end of a well-formed text is well-formed,
/// and so is the text between two boundaries.
pub proof fn lemma_slice_is_text(b: Seq<u8>, i: int, j: int)
    requires
        is_text(b),
        boundary(b, i),
        boundary(b, j),
        i <= j,
    ensures
        is_text(b.subrange(i, j)),
        is_text(b.subrange(0, j)),
        is_text(suffix(b, i)),
        boundary(b.subrange(0, j), i),
{
    valid_utf8_split(b, j);
    valid_utf8_split(b, i);
    let p = b.subrange(0, j);
    lemma_boundary_in_prefix(b, i, j);
    valid_utf8_split(p, i);
    assert(p.subrange(i, p.len() as int) =~= b.subrange(i, j));
}

/// A boundary of a text at or before a boundary `j` is a boundary of the
/// prefix that ends at `j`, and the other way round.
pub proof fn lemma_boundary_in_prefix(b: Seq<u8>, i: int, j: int)
    requires
        is_text(b),
        boundary(b, j),
        0 <= i <= j,
    ensures
        is_text(b.subrange(0, j)),
        boundary(b.subrange(0, j), i) <==> boundary(b, i),
{
    valid_utf8_split(b, j);
    let p = b.subrange(0, j);
    if i == j {
        is_char_boundary_start_end_of_seq(p);
    } else {
        assert(p[i] == b[i]);
        is_char_boundary_iff_not_is_continuation_byte(b, i);
        is_char_boundary_iff_not_is_continuation_byte(p, i);
    }
}

/// The number of bytes from offset `i` to the end of the text.
pub open spec fn remaining(b: Seq<u8>, i: int) -> nat {
    if 0 <= i <= b.len() {
        (b.len() - i) as nat
    } else {
        0
    }
}

/// The first offset at or after `i` whose character satisfies `stop`, or the
/// end of the text.
pub open spec fn scan_until(b: Seq<u8>, i: int, stop: spec_fn(char) -> bool) -> int
    decreases remaining(b, i),
{
    if 0 <= i < b.len() && !stop(char_at(b, i)) {
        scan_until(b, i + width_at(b, i), stop)
    } else {
        i
    }
}

/// The end of the run of non-whitespace characters that starts at `i`.
pub open spec fn word_end(b: Seq<u8>, i: int) -> int
    decreases remaining(b, i),
{
    if 0 <= i < b.len() && !is_whitespace(char_at(b, i)) {
        word_end(b, i + width_at(b, i))
    } else {
        i
    }
}

/// The end of the run of whitespace characters that starts at `i`.
pub open spec fn ws_end(b: Seq<u8>, i: int) -> int
    decreases remaining(b, i),
{
    if 0 <= i < b.len() && is_whitespace(char_at(b, i)) {
        ws_end(b, i + width_at(b, i))
    } else {
        i
    }
}

/// The end of the last non-whitespace character at or after `i`, given that
/// `last` is that end for the text before `i`.
pub open spec fn trim_scan(b: Seq<u8>, i: int, last: int) -> int
    decreases remaining(b, i),
{
    if 0 <= i < b.len() {
        let n = i + width_at(b, i);
        trim_scan(b, n, if is_whitespace(char_at(b, i)) { last } else { n })
    } else {
        last
    }
}

/// Where the text that starts at `i` ends once trailing whitespace is removed.
pub open spec fn trimmed_end(b: Seq<u8>, i: int) -> int {
    trim_scan(b, i, i)
}

/// A scan for whitespace is [`word_end`].
pub proof fn lemma_scan_is_word_end(b: Seq<u8>, i: int, stop: spec_fn(char) -> bool)
    requires
        forall|c: char| #[trigger] stop(c) == is_whitespace(c),
    ensures
        scan_until(b, i, stop) == word_end(b, i),
    decreases remaining(b, i),
{
    if 0 <= i < b.len() && !stop(char_at(b, i)) {
        lemma_scan_is_word_end(b, i + width_at(b, i), stop);
    }
}

/// A scan for the first character that is no whitespace is [`ws_end`].
pub proof fn lemma_scan_is_ws_end(b: Seq<u8>, i: int, stop: spec_fn(char) -> bool)
    requires
        forall|c: char| #[trigger] stop(c) == !is_whitespace(c),
    ensures
        scan_until(b, i, stop) == ws_end(b, i),
    decreases remaining(b, i),
{
    if 0 <= i < b.len() && !stop(char_at(b, i)) {
        lemma_scan_is_ws_end(b, i + width_at(b, i), stop);
    }
}

/// [`word_end`] from a boundary is a boundary at or after it; what it stops at
/// is whitespace or the end of the text.
pub proof fn lemma_word_end(b: Seq<u8>, i: int)
    requires
        is_text(b),
        boundary(b, i),
    ensures
        i <= word_end(b, i) <= b.len(),
        boundary(b, word_end(b, i)),
        word_end(b, i) < b.len() ==> is_whitespace(char_at(b, word_end(b, i))),
        i < b.len() && !is_whitespace(char_at(b, i)) ==> i < word_end(b, i),
        word_end(b, word_end(b, i)) == word_end(b, i),
    decreases remaining(b, i),
{
    if 0 <= i < b.len() && !is_whitespace(char_at(b, i)) {
        lemma_char_step(b, i);
        lemma_word_end(b, i + width_at(b, i));
    }
}

/// [`ws_end`] from a boundary is a boundary at or after it; what it stops at
/// is no whitespace, or the end of the text.
pub proof fn lemma_ws_end(b: Seq<u8>, i: int)
    requires
        is_text(b),
        boundary(b, i),
    ensures
        i <= ws_end(b, i) <= b.len(),
        boundary(b, ws_end(b, i)),
        ws_end(b, i) < b.len() ==> !is_whitespace(char_at(b, ws_end(b, i))),
        ws_end(b, ws_end(b, i)) == ws_end(b, i),
    decreases remaining(b, i),
{
    if 0 <= i < b.len() && is_whitespace(char_at(b, i)) {
        lemma_char_step(b, i);
        lemma_ws_end(b, i + width_at(b, i));
    }
}

/// [`trim_scan`] from a boundary gives a boundary between `last` and the end
/// of the text.
pub proof fn lemma_trim_scan(b: Seq<u8>, i: int, last: int)
    requires
        is_text(b),
        boundary(b, i),
        boundary(b, last),
        last <= i,
    ensures
        last <= trim_scan(b, i, last) <= b.len(),
        boundary(b, trim_scan(b, i, last)),
        i < b.len() && !is_whitespace(char_at(b, i)) ==> i < trim_scan(b, i, last),
    decreases remaining(b, i),
{
    if 0 <= i < b.len() {
        lemma_char_step(b, i);
        let n = i + width_at(b, i);
        lemma_trim_scan(b, n, if is_whitespace(char_at(b, i)) { last } else { n });
    }
}

/// A well-formed text that begins another well-formed text ends on one of
/// its boundaries.
pub proof fn lemma_prefix_boundary(x: Seq<u8>, y: Seq<u8>)
    requires
        is_text(x),
        is_text(y),
        y.len() <= x.len(),
        x.subrange(0, y.len() as int) == y,
    ensures
        boundary(x, y.len() as int),
    decreases y.len(),
{
    if y.len() > 0 {
        assert(x[0] == x.subrange(0, y.len() as int)[0]);
        let w = length_of_first_scalar(y);
        assert(w == length_of_first_scalar(x));
        let xr = pop_first_scalar(x);
        let yr = pop_first_scalar(y);
        assert(xr.subrange(0, yr.len() as int) =~= yr) by {
            assert forall|k: int| 0 <= k < yr.len() implies xr[k] == yr[k] by {
                assert(x.subrange(0, y.len() as int)[k + w] == y[k + w]);
            }
        }
        lemma_prefix_boundary(xr, yr);
    }
}

/// A boundary of the text that starts at boundary `i` is a boundary of the
/// whole text.
pub proof fn lemma_boundary_in_suffix(b: Seq<u8>, i: int, k: int)
    requires
        is_text(b),
        boundary(b, i),
        0 <= k,
        boundary(suffix(b, i), k),
    ensures
        boundary(b, i + k),
{
    valid_utf8_split(b, i);
    let s = suffix(b, i);
    if i + k == b.len() {
        is_char_boundary_start_end_of_seq(b);
    } else {
        assert(s[k] == b[i + k]);
        is_char_boundary_iff_not_is_continuation_byte(s, k);
        is_char_boundary_iff_not_is_continuation_byte(b, i + k);
    }
}

/// The number of bytes in `s`.
pub fn byte_len(s: &str) -> (n: usize)
    ensures
        n == s.spec_bytes().len(),
{
    s.as_bytes().len()
}

/// The character at byte offset `pos`, or `None` at the end of the text.
pub fn char_at_offset(s: &str, pos: usize) -> (r: Option<char>)
    requires
        boundary(s.spec_bytes(), pos as int),
    ensures
        r == peek_at(s.spec_bytes(), pos as int),
{
    broadcast use vstd::string::group_string_axioms;

    proof {
        lemma_str_is_text(s);
    }
    let (_, rest) = s.split_at(pos);
    proof {
        lemma_str_is_text(rest);
        assert(rest.spec_bytes() == suffix(s.spec_bytes(), pos as int));
        if pos < s.spec_bytes().len() {
            lemma_char_step(s.spec_bytes(), pos as int);
        } else {
            assert(rest.spec_bytes().len() == 0);
            assert(decode_utf8(rest.spec_bytes()).len() == 0);
        }
    }
    let mut it = rest.chars();
    it.next()
}

/// The text between two boundaries.
pub fn slice<'a>(s: &'a str, start: usize, end: usize) -> (r: &'a str)
    requires
        boundary(s.spec_bytes(), start as int),
        boundary(s.spec_bytes(), end as int),
        start <= end,
    ensures
        r.spec_bytes() == s.spec_bytes().subrange(start as int, end as int),
        r@ == decode_utf8(s.spec_bytes().subrange(start as int, end as int)),
{
    proof {
        lemma_str_is_text(s);
        lemma_slice_is_text(s.spec_bytes(), start as int, end as int);
    }
    let (head, _) = s.split_at(end);
    let (_, r) = head.split_at(start);
    proof {
        lemma_str_is_text(r);
        assert(r.spec_bytes() == s.spec_bytes().subrange(start as int, end as int));
    }
    r
}

/// Whether two string slices hold the same text.
pub fn str_eq(a: &str, b: &str) -> (r: bool)
    ensures
        r == (a@ == b@),
        r == (a.spec_bytes() == b.spec_bytes()),
{
    let x = a.as_bytes();
    let y = b.as_bytes();
    if x.len() != y.len() {
        return false;
    }
    proof {
        lemma_str_is_text(a);
        lemma_str_is_text(b);
    }
    let mut i: usize = 0;
    while i < x.len()
        invariant
            x.len() == y.len(),
            x@ == a.spec_bytes(),
            y@ == b.spec_bytes(),
            i <= x.len(),
            forall|k: int| 0 <= k < i ==> x@[k] == y@[k],
        decreases x.len() - i,
    {
        if x[i] != y[i] {
            assert(x@[i as int] != y@[i as int]);
            return false;
        }
        i += 1;
    }
    proof {
        assert(x@ =~= y@);
        lemma_same_bytes_same_chars(a, b);
    }
    true
}

/// The characters from a boundary on are the character found there,
/// followed by the characters from the next boundary on.
pub proof fn lemma_decode_step(b: Seq<u8>, i: int)
    requires
        is_text(b),
        boundary(b, i),
        i < b.len(),
    ensures
        decode_utf8(suffix(b, i)) == seq![char_at(b, i)] + decode_utf8(
            suffix(b, i + width_at(b, i)),
        ),
{
    lemma_char_step(b, i);
    let s = suffix(b, i);
    assert(pop_first_scalar(s) =~= suffix(b, i + width_at(b, i)));
}

/// The characters of `s`, in order.
pub fn to_chars(s: &str) -> (v: Vec<char>)
    ensures
        v@ == s@,
{
    let ghost b = s.spec_bytes();
    let len = byte_len(s);
    let mut v: Vec<char> = Vec::new();
    let mut pos: usize = 0;
    proof {
        lemma_str_is_text(s);
        assert(suffix(b, 0) =~= b);
    }
    while pos < len
        invariant
            b == s.spec_bytes(),
            len == b.len(),
            is_text(b),
            boundary(b, pos as int),
            pos <= len,
            v@ + decode_utf8(suffix(b, pos as int)) == s@,
        decreases len - pos,
    {
        proof {
            lemma_char_step(b, pos as int);
            lemma_decode_step(b, pos as int);
        }
        match char_at_offset(s, pos) {
            Some(c) => {
                proof {
                    assert(v@.push(c) + decode_utf8(suffix(b, pos + width_at(b, pos as int)))
                        =~= v@ + decode_utf8(suffix(b, pos as int)));
                }
                v.push(c);
                pos = pos + char_width(c);
            },
            None => {
                proof {
                    assert(false);
                }
            },
        }
    }
    proof {
        assert(suffix(b, pos as int) =~= Seq::<u8>::empty());
        assert(decode_utf8(suffix(b, pos as int)) =~= Seq::<char>::empty());
        assert(v@ + Seq::<char>::empty() =~= v@);
    }
    v
}

/// The characters that the bytes of `b` in `[lo, hi)` encode.
pub open spec fn text_of(b: Seq<u8>, lo: int, hi: int) -> Seq<char> {
    decode_utf8(b.subrange(lo, hi))
}

/// A byte below 128 in a well-formed text is a character of its own: it
/// stands on a boundary, the next offset is a boundary, and the character
/// has the value of the byte.
pub proof fn lemma_ascii_at(b: Seq<u8>, i: int)
    requires
        is_text(b),
        0 <= i < b.len(),
        b[i] < 0x80,
    ensures
        boundary(b, i),
        boundary(b, i + 1),
        width_at(b, i) == 1,
        char_at(b, i) as u32 == b[i],
{
    is_char_boundary_iff_not_is_continuation_byte(b, i);
    lemma_char_step(b, i);
    let s = suffix(b, i);
    assert(s[0] == b[i]);
    assert(length_of_first_scalar(s) == 1);
    let cp = decode_first_scalar(s);
    assert(cp == b[i] as u32) by {
        let x = b[i];
        assert(x < 0x80 ==> (x & 0x7F) as u32 == x as u32) by (bit_vector);
    }
    char_u32_cast_back(cp);
}

/// A scalar value that is a character's code is the code of the character
/// it converts to.
pub proof fn char_u32_cast_back(u: u32)
    requires
        u < 0x80,
    ensures
        (u as char) as u32 == u,
{
}

/// A character at a boundary is below 128 exactly when the byte there is,
/// and then it has the value of that byte.
pub proof fn lemma_ascii_char(b: Seq<u8>, i: int)
    requires
        is_text(b),
        boundary(b, i),
        i < b.len(),
    ensures
        (char_at(b, i) as u32) < 0x80 <==> b[i] < 0x80,
        b[i] < 0x80 ==> char_at(b, i) as u32 == b[i],
{
    lemma_char_step(b, i);
    if b[i] < 0x80 {
        lemma_ascii_at(b, i);
    } else {
        let s = suffix(b, i);
        assert(s[0] == b[i]);
        assert(length_of_first_scalar(s) >= 2);
        assert(width_at(b, i) >= 2);
    }
}

/// The word that starts at `i` ends at or after `i`, and after `i` where a
/// character that is no whitespace stands there.
pub proof fn lemma_word_end_ge(b: Seq<u8>, i: int)
    ensures
        i <= word_end(b, i),
        0 <= i < b.len() && !is_whitespace(char_at(b, i)) ==> i < word_end(b, i),
        0 <= i < b.len() && is_whitespace(char_at(b, i)) ==> word_end(b, i) == i,
    decreases remaining(b, i),
{
    if 0 <= i < b.len() && !is_whitespace(char_at(b, i)) {
        lemma_word_end_ge(b, i + width_at(b, i));
    }
}

/// The whitespace that starts at `i` ends at or after `i`, and at `i` where
/// a character that is no whitespace stands there.
pub proof fn lemma_ws_end_ge(b: Seq<u8>, i: int)
    ensures
        i <= ws_end(b, i),
        0 <= i < b.len() && !is_whitespace(char_at(b, i)) ==> ws_end(b, i) == i,
    decreases remaining(b, i),
{
    if 0 <= i < b.len() && is_whitespace(char_at(b, i)) {
        lemma_ws_end_ge(b, i + width_at(b, i));
    }
}

/// The end of a well-formed text is a boundary.
pub proof fn is_char_boundary_at_end(b: Seq<u8>)
    requires
        is_text(b),
    ensures
        boundary(b, b.len() as int),
        boundary(b, 0),
{
    is_char_boundary_start_end_of_seq(b);
}

/// Whether byte offset `idx` lies in `s`, or at its end, between characters.
pub fn is_boundary(s: &str, idx: usize) -> (r: bool)
    ensures
        r == boundary(s.spec_bytes(), idx as int),
{
    idx <= byte_len(s) && s.is_char_boundary(idx)
}

} // verus!
