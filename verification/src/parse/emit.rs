//! Turning parse errors into diagnostics.

use crate::diagnostics::{
    bare, Diagnostic, DiagnosticView, Label, LabelView, Level, SubDiagnosticView,
};
use crate::parse::context::ParseContext;
use crate::parse::errors::{
    ExpectedLocalCoordinateError, IncompleteLocalCoordinatesError, IndentationError,
    IndentationErrorKind, InvalidColorError, InvalidLiteralError, InvalidStringCharsError,
    MixedCoordiantesError, ParseBoolError, ParseDoubleError, ParseError, ParseFloatError,
    ParseIntegerError, QuotedSingleWordError, SymbolsExhaustedError, TooManyArgumentsError,
    UnsupportedArgumentError, UnterminatedStringError,
};
use crate::parsing_tree::{node_placed, ParsingNode, ParsingTree};
use crate::span::Span;
use crate::text::{boundary, char_is_whitespace, is_whitespace, slice, text_of, to_chars};
use vstd::prelude::*;
use vstd::string::*;

verus! {

/// What `ariadne` makes of a text that is given a foreground colour; it
/// depends on whether colours are switched on, so nothing is claimed of it.
/// `<T as ariadne::Fmt>::fg` with `ariadne::Color::BrightGreen`.
#[verifier::external_body]
fn paint_green(text: &str) -> String {
    format!("{}", ariadne::Fmt::fg(text, ariadne::Color::BrightGreen))
}

/// `<T as ariadne::Fmt>::fg` with `ariadne::Color::Magenta`; nothing is
/// claimed of the result.
#[verifier::external_body]
fn paint_magenta(text: &str) -> String {
    format!("{}", ariadne::Fmt::fg(text, ariadne::Color::Magenta))
}

/// The Damerau-Levenshtein distance between two texts, as `strsim` computes it.
pub uninterp spec fn edit_distance_of(a: Seq<char>, b: Seq<char>) -> nat;

/// `strsim::damerau_levenshtein`: the number of insertions, deletions,
/// substitutions and transpositions of characters that turn `a` into `b`.
#[verifier::external_body]
fn edit_distance(a: &str, b: &str) -> (d: usize)
    ensures
        d == edit_distance_of(a@, b@),
{
    strsim::damerau_levenshtein(a, b)
}

/// The diagnostic for an error at `span` that says `title`, with one label
/// at `span` that says `label`.
pub open spec fn labelled(span: Span, title: Seq<char>, label: Seq<char>) -> DiagnosticView {
    DiagnosticView {
        labels: seq![LabelView { span, message: label }],
        ..bare(Level::Error, span, title)
    }
}

/// Computes [`labelled`].
fn labelled_error(span: Span, title: &str, label: &str) -> (d: Diagnostic)
    ensures
        d@ == labelled(span, title@, label@),
{
    let d = Diagnostic::error(span, title).with_label(Label::new(span, label));
    proof {
        assert(d@.labels =~= seq![LabelView { span, message: label@ }]);
    }
    d
}

/// `left`, `inner` and `right`, one after the other.
pub fn surrounded(left: &str, inner: &str, right: &str) -> (r: String)
    ensures
        r@ == left@ + inner@ + right@,
{
    let mut r = String::from_str(left);
    r.append(inner);
    r.append(right);
    r
}

/// The items in a row with `delimiter` between all of them.
pub open spec fn joined(items: Seq<Seq<char>>, delimiter: Seq<char>) -> Seq<char>
    decreases items.len(),
{
    if items.len() == 0 {
        Seq::empty()
    } else if items.len() == 1 {
        items[0]
    } else {
        joined(items.drop_last(), delimiter) + delimiter + items.last()
    }
}

/// The items in a row, with `last` between the last two and `delimiter`
/// between the others.
pub open spec fn listed(items: Seq<Seq<char>>, delimiter: Seq<char>, last: Seq<char>) -> Seq<char> {
    if items.len() <= 1 {
        joined(items, delimiter)
    } else {
        joined(items.drop_last(), delimiter) + last + items.last()
    }
}

/// The texts that the strings of `items` hold.
pub open spec fn texts(items: Seq<String>) -> Seq<Seq<char>> {
    Seq::new(items.len(), |i: int| items[i]@)
}

/// Computes [`listed`].
pub fn list_items(items: &Vec<String>, delimiter: &str, last: &str) -> (r: String)
    ensures
        r@ == listed(texts(items@), delimiter@, last@),
{
    let ghost all = texts(items@);
    let mut r = String::new();
    let n = items.len();
    if n == 0 {
        return r;
    }
    let mut i: usize = 0;
    while i + 1 < n
        invariant
            n == items@.len(),
            n > 0,
            i + 1 <= n,
            all == texts(items@),
            r@ == joined(all.subrange(0, i as int), delimiter@),
        decreases n - i,
    {
        proof {
            let more = all.subrange(0, i + 1);
            assert(more.drop_last() =~= all.subrange(0, i as int));
            assert(more.last() == items@[i as int]@);
        }
        if i > 0 {
            r.append(delimiter);
        } else {
            proof {
                assert(Seq::<char>::empty() + items@[0]@ =~= items@[0]@);
            }
        }
        r.append(items[i].as_str());
        i += 1;
    }
    proof {
        assert(all.drop_last() =~= all.subrange(0, n - 1));
        assert(all.last() == items@[n - 1]@);
    }
    if n > 1 {
        r.append(last);
    } else {
        proof {
            assert(Seq::<char>::empty() + items@[0]@ =~= items@[0]@);
        }
    }
    r.append(items[n - 1].as_str());
    r
}

/// One of the characters of `chars` is whitespace.
pub open spec fn has_whitespace(chars: Seq<char>) -> bool {
    exists|i: int| 0 <= i < chars.len() && is_whitespace(#[trigger] chars[i])
}

/// Decides [`has_whitespace`].
pub fn contains_whitespace(text: &str) -> (r: bool)
    ensures
        r == has_whitespace(text@),
{
    let chars = to_chars(text);
    let mut i: usize = 0;
    while i < chars.len()
        invariant
            i <= chars@.len(),
            chars@ == text@,
            forall|k: int| 0 <= k < i ==> !is_whitespace(#[trigger] chars@[k]),
        decreases chars@.len() - i,
    {
        if char_is_whitespace(chars[i]) {
            return true;
        }
        i += 1;
    }
    false
}

/// A name is close to the input where twice the distance is less than the
/// greater of the two lengths, or where both are empty.
pub open spec fn close_to(name: Seq<char>, input: Seq<char>) -> bool {
    greater_len(name, input) == 0 || 2 * edit_distance_of(name, input) < greater_len(name, input)
}

/// The greater of the two lengths.
pub open spec fn greater_len(name: Seq<char>, input: Seq<char>) -> nat {
    if name.len() >= input.len() {
        name.len()
    } else {
        input.len()
    }
}

/// `a` is at least as like the input as `b`: its distance, taken by the
/// greater length, is no more than that of `b`.
pub open spec fn as_like(a: Seq<char>, b: Seq<char>, input: Seq<char>) -> bool {
    edit_distance_of(a, input) * greater_len(b, input) <= edit_distance_of(b, input) * greater_len(
        a,
        input,
    )
}

/// The position among the first `n` names of the one most like the input,
/// of those that are close to it; of several that are equally like it, the
/// last.
pub open spec fn likely_of(names: Seq<Seq<char>>, input: Seq<char>, n: int) -> Option<int>
    decreases n,
{
    if n <= 0 {
        None
    } else {
        let before = likely_of(names, input, n - 1);
        if !close_to(names[n - 1], input) {
            before
        } else {
            match before {
                None => Some(n - 1),
                Some(k) => if as_like(names[n - 1], names[k], input) {
                    Some(n - 1)
                } else {
                    before
                },
            }
        }
    }
}

/// The texts that the string slices of `items` hold.
pub open spec fn slice_texts(items: Seq<&str>) -> Seq<Seq<char>> {
    Seq::new(items.len(), |i: int| items[i]@)
}

/// Computes [`likely_of`] for all names.
pub fn likely_literal(names: &Vec<&str>, input: &str) -> (r: Option<usize>)
    ensures
        match r {
            Some(k) => likely_of(slice_texts(names@), input@, names@.len() as int) == Some(
                k as int,
            ) && k < names@.len(),
            None => likely_of(slice_texts(names@), input@, names@.len() as int) is None,
        },
{
    let ghost all = slice_texts(names@);
    let input_len = to_chars(input).len();
    let mut best: Option<usize> = None;
    let mut best_distance: usize = 0;
    let mut best_len: usize = 0;
    let mut i: usize = 0;
    while i < names.len()
        invariant
            i <= names@.len(),
            all == slice_texts(names@),
            input_len == input@.len(),
            match best {
                Some(k) => likely_of(all, input@, i as int) == Some(k as int) && k < i
                    && best_distance == edit_distance_of(all[k as int], input@) && best_len
                    == greater_len(all[k as int], input@),
                None => likely_of(all, input@, i as int) is None,
            },
        decreases names@.len() - i,
    {
        let name = names[i];
        let distance = edit_distance(name, input);
        let name_len = to_chars(name).len();
        let len = if name_len >= input_len {
            name_len
        } else {
            input_len
        };
        proof {
            assert(all[i as int] == name@);
        }
        let close = len == 0 || (distance as u128) * 2 < len as u128;
        if close {
            let better = match best {
                None => true,
                Some(_) => {
                    assert((distance as u128) * (best_len as u128) == distance * best_len)
                        by (nonlinear_arith)
                        requires
                            distance <= usize::MAX,
                            best_len <= usize::MAX,
                    ;
                    assert((best_distance as u128) * (len as u128) == best_distance * len)
                        by (nonlinear_arith)
                        requires
                            best_distance <= usize::MAX,
                            len <= usize::MAX,
                    ;
                    assert(distance * best_len <= u128::MAX && best_distance * len <= u128::MAX)
                        by (nonlinear_arith)
                        requires
                            distance <= 0xFFFF_FFFF_FFFF_FFFF,
                            best_len <= 0xFFFF_FFFF_FFFF_FFFF,
                            best_distance <= 0xFFFF_FFFF_FFFF_FFFF,
                            len <= 0xFFFF_FFFF_FFFF_FFFF,
                    ;
                    (distance as u128) * (best_len as u128) <= (best_distance as u128) * (
                    len as u128)
                },
            };
            if better {
                best = Some(i);
                best_distance = distance;
                best_len = len;
            }
        }
        i += 1;
    }
    best
}

/// `a` comes before `b` or is `b`, byte by byte.
pub open spec fn bytes_le(a: Seq<u8>, b: Seq<u8>) -> bool
    decreases a.len(),
{
    if a.len() == 0 {
        true
    } else if b.len() == 0 {
        false
    } else if a[0] != b[0] {
        a[0] < b[0]
    } else {
        bytes_le(a.drop_first(), b.drop_first())
    }
}

/// Of two texts, one comes before the other or is it.
pub proof fn lemma_bytes_le_total(a: Seq<u8>, b: Seq<u8>)
    ensures
        bytes_le(a, b) || bytes_le(b, a),
    decreases a.len(),
{
    if a.len() > 0 && b.len() > 0 && a[0] == b[0] {
        lemma_bytes_le_total(a.drop_first(), b.drop_first());
    }
}

/// What comes before a text comes before what that text comes before.
pub proof fn lemma_bytes_le_trans(a: Seq<u8>, b: Seq<u8>, c: Seq<u8>)
    requires
        bytes_le(a, b),
        bytes_le(b, c),
    ensures
        bytes_le(a, c),
    decreases a.len(),
{
    if a.len() > 0 && b.len() > 0 && c.len() > 0 && a[0] == b[0] && b[0] == c[0] {
        lemma_bytes_le_trans(a.drop_first(), b.drop_first(), c.drop_first());
    }
}

/// Decides [`bytes_le`] for the bytes of two string slices.
pub fn str_le(a: &str, b: &str) -> (r: bool)
    ensures
        r == bytes_le(a.spec_bytes(), b.spec_bytes()),
{
    let x = a.as_bytes();
    let y = b.as_bytes();
    let mut i: usize = 0;
    proof {
        assert(x@.subrange(0, x@.len() as int) =~= x@);
        assert(y@.subrange(0, y@.len() as int) =~= y@);
    }
    while i < x.len() && i < y.len()
        invariant
            i <= x@.len(),
            i <= y@.len(),
            x@ == a.spec_bytes(),
            y@ == b.spec_bytes(),
            bytes_le(x@, y@) == bytes_le(
                x@.subrange(i as int, x@.len() as int),
                y@.subrange(i as int, y@.len() as int),
            ),
        decreases x@.len() - i,
    {
        let ghost xs = x@.subrange(i as int, x@.len() as int);
        let ghost ys = y@.subrange(i as int, y@.len() as int);
        proof {
            assert(xs[0] == x@[i as int]);
            assert(ys[0] == y@[i as int]);
            assert(xs.drop_first() =~= x@.subrange(i + 1, x@.len() as int));
            assert(ys.drop_first() =~= y@.subrange(i + 1, y@.len() as int));
        }
        if x[i] != y[i] {
            return x[i] < y[i];
        }
        i += 1;
    }
    i >= x.len()
}

/// The bytes of the string slices of `items`.
pub open spec fn slice_bytes(items: Seq<&str>) -> Seq<Seq<u8>> {
    Seq::new(items.len(), |i: int| items[i].spec_bytes())
}

/// Every text of `items` comes before the texts behind it, or is one of them.
pub open spec fn ascending(items: Seq<Seq<u8>>) -> bool {
    forall|i: int, j: int| 0 <= i < j < items.len() ==> bytes_le(#[trigger] items[i], #[trigger] items[j])
}

/// The names in ascending order.
pub fn sorted_names<'a>(names: &Vec<&'a str>) -> (r: Vec<&'a str>)
    ensures
        ascending(slice_bytes(r@)),
        slice_bytes(r@).to_multiset() == slice_bytes(names@).to_multiset(),
        r@.len() == names@.len(),
{
    let mut r: Vec<&'a str> = Vec::new();
    let mut i: usize = 0;
    proof {
        assert(slice_bytes(names@).subrange(0, 0) =~= slice_bytes(r@));
    }
    while i < names.len()
        invariant
            i <= names@.len(),
            r@.len() == i,
            ascending(slice_bytes(r@)),
            slice_bytes(r@).to_multiset() == slice_bytes(names@).subrange(0, i as int).to_multiset(),
        decreases names@.len() - i,
    {
        let name = names[i];
        let mut at: usize = 0;
        while at < r.len() && str_le(r[at], name)
            invariant
                at <= r@.len(),
                forall|k: int|
                    0 <= k < at ==> bytes_le(
                        (#[trigger] slice_bytes(r@)[k]),
                        name.spec_bytes(),
                    ),
            ensures
                at <= r@.len(),
                forall|k: int|
                    0 <= k < at ==> bytes_le(
                        (#[trigger] slice_bytes(r@)[k]),
                        name.spec_bytes(),
                    ),
                at < r@.len() ==> !bytes_le(r@[at as int].spec_bytes(), name.spec_bytes()),
            decreases r@.len() - at,
        {
            proof {
                assert(slice_bytes(r@)[at as int] == r@[at as int].spec_bytes());
            }
            at += 1;
        }
        let ghost before = slice_bytes(r@);
        r.insert(at, name);
        proof {
            let after = slice_bytes(r@);
            let x = name.spec_bytes();
            assert(after =~= before.insert(at as int, x));
            vstd::seq_lib::to_multiset_insert(before, at as int, x);
            let taken = slice_bytes(names@).subrange(0, i as int);
            let more = slice_bytes(names@).subrange(0, i + 1);
            assert(more =~= taken.push(x));
            vstd::seq_lib::to_multiset_build(taken, x);
            assert forall|a: int, b: int| 0 <= a < b < after.len() implies bytes_le(
                #[trigger] after[a],
                #[trigger] after[b],
            ) by {
                if b < at {
                    assert(after[a] == before[a] && after[b] == before[b]);
                } else if b == at {
                    assert(after[a] == before[a]);
                } else if a == at {
                    assert(after[b] == before[b - 1]);
                    assert(before[at as int] == r@[at + 1].spec_bytes());
                    lemma_bytes_le_total(before[at as int], x);
                    if b - 1 > at {
                        lemma_bytes_le_trans(x, before[at as int], before[b - 1]);
                    }
                } else if a < at {
                    assert(after[a] == before[a] && after[b] == before[b - 1]);
                } else {
                    assert(after[a] == before[a - 1] && after[b] == before[b - 1]);
                }
            }
        }
        i += 1;
    }
    proof {
        assert(slice_bytes(names@).subrange(0, names@.len() as int) =~= slice_bytes(names@));
    }
    r
}

/// The label of an error about a truth value, with `yes` and `no` for the
/// two words in colour.
pub open spec fn bool_label(yes: Seq<char>, no: Seq<char>) -> Seq<char> {
    "Expected either `"@ + yes + "` or `"@ + no + "`"@
}

/// The diagnostic `d` is that of an error about a truth value at `span`.
pub open spec fn is_bool_diagnostic(d: DiagnosticView, span: Span, yes: Seq<char>, no: Seq<char>) -> bool {
    d == labelled(span, "Invalid boolean"@, bool_label(yes, no))
}

/// The diagnostic for a word that is neither `true` nor `false`, with the
/// two words as they are to be shown.
pub fn bool_diagnostic(span: Span, yes: &str, no: &str) -> (d: Diagnostic)
    ensures
        is_bool_diagnostic(d@, span, yes@, no@),
{
    let mut label = String::from_str("Expected either `");
    label.append(yes);
    label.append("` or `");
    label.append(no);
    label.append("`");
    labelled_error(span, "Invalid boolean", label.as_str())
}

/// The diagnostic `d` is that of an error at `span` that says `title` and
/// expects what `article` and `kind` name.
pub open spec fn is_number_diagnostic(
    d: DiagnosticView,
    span: Span,
    title: Seq<char>,
    article: Seq<char>,
    kind: Seq<char>,
) -> bool {
    d == labelled(span, title, article + kind)
}

/// The diagnostic for a word that is no number of some kind, with the name
/// of the kind as it is to be shown.
pub fn number_diagnostic(span: Span, title: &str, article: &str, kind: &str) -> (d: Diagnostic)
    ensures
        is_number_diagnostic(d@, span, title@, article@, kind@),
{
    let mut label = String::from_str(article);
    label.append(kind);
    labelled_error(span, title, label.as_str())
}

/// The diagnostic for a word that is none of the literals allowed at its
/// place: a label lists the literals `shown`, and advice names `hint`, if
/// there is one.
pub open spec fn invalid_literal_view(
    span: Span,
    shown: Seq<Seq<char>>,
    hint: Option<Seq<char>>,
) -> DiagnosticView {
    let base = labelled(
        span,
        "Invalid literal"@,
        "Expected one of "@ + listed(shown, ", "@, " or "@),
    );
    match hint {
        Some(name) => DiagnosticView {
            subs: seq![
                SubDiagnosticView { level: Level::Help, message: "Did you mean "@ + name + "?"@ },
            ],
            ..base
        },
        None => base,
    }
}

/// The names of the schema nodes at the positions in `[lo, hi)`.
pub open spec fn names_in(nodes: Seq<ParsingNode>, lo: int, hi: int) -> Seq<Seq<char>> {
    Seq::new(crate::parser::width(lo, hi), |i: int| nodes[lo + i].node.key())
}

/// The bytes of each of the texts.
pub open spec fn encoded(names: Seq<Seq<char>>) -> Seq<Seq<u8>> {
    Seq::new(names.len(), |i: int| vstd::utf8::encode_utf8(names[i]))
}

/// `d` is the diagnostic for a word `input` that is none of `names`: it
/// lists one text for each name and gives advice where one of the names,
/// taken in ascending order as `order`, is like the input.
pub open spec fn is_invalid_literal_diagnostic(
    d: DiagnosticView,
    span: Span,
    shown: Seq<Seq<char>>,
    hint: Option<Seq<char>>,
    order: Seq<Seq<char>>,
    names: Seq<Seq<char>>,
    input: Seq<char>,
) -> bool {
    &&& d == invalid_literal_view(span, shown, hint)
    &&& shown.len() == names.len()
    &&& ascending(encoded(order))
    &&& encoded(order).to_multiset() == encoded(names).to_multiset()
    &&& hint is Some <==> likely_of(order, input, order.len() as int) is Some
}

/// Computes [`invalid_literal_view`].
pub fn invalid_literal_diagnostic(span: Span, shown: &Vec<String>, hint: Option<&str>) -> (d:
    Diagnostic)
    ensures
        d@ == invalid_literal_view(
            span,
            texts(shown@),
            match hint {
                Some(name) => Some(name@),
                None => None,
            },
        ),
{
    let mut label = String::from_str("Expected one of ");
    let list = list_items(shown, ", ", " or ");
    label.append(list.as_str());
    let d = labelled_error(span, "Invalid literal", label.as_str());
    match hint {
        Some(name) => {
            let mut help = String::from_str("Did you mean ");
            help.append(name);
            help.append("?");
            let with = d.with_help(help.as_str());
            proof {
                assert(with@.subs =~= seq![
                    SubDiagnosticView {
                        level: Level::Help,
                        message: "Did you mean "@ + name@ + "?"@,
                    },
                ]);
            }
            with
        },
        None => d,
    }
}

/// The span `span` is a part of the text `b` that starts and ends between
/// characters.
pub open spec fn span_fits(b: Seq<u8>, span: Span) -> bool {
    span.start <= span.end && boundary(b, span.start as int) && boundary(b, span.end as int)
}

/// The label of an error about arguments that were not expected: it
/// speaks of several where whitespace stands among them.
pub open spec fn unexpected_label(text: Seq<char>) -> Seq<char> {
    if has_whitespace(text) {
        "These arguments were not expected"@
    } else {
        "This argument was not expected"@
    }
}

/// What an error has to say for itself.
pub trait EmitDiagnostic {
    /// The error can be described in the context `ctx`: what it refers
    /// to in the source and in the schema is there.
    open spec fn fits(&self, ctx: &ParseContext<'_>) -> bool {
        true
    }

    /// The diagnostic for the error, which is of the level of an error.
    fn emit(&self, ctx: &ParseContext<'_>) -> (d: Diagnostic)
        requires
            self.fits(ctx),
        ensures
            d@.level == Level::Error,
    ;
}

impl EmitDiagnostic for IndentationError {
    fn emit(&self, ctx: &ParseContext<'_>) -> (d: Diagnostic)
        ensures
            d@ == labelled(
                self.span,
                "Indentation error"@,
                match self.kind {
                    IndentationErrorKind::MixedWhitespace => "Must only use spaces for indentation"@,
                    IndentationErrorKind::InvalidIndentation => "Invalid indentation"@,
                },
            ),
    {
        match self.kind {
            IndentationErrorKind::MixedWhitespace => labelled_error(
                self.span,
                "Indentation error",
                "Must only use spaces for indentation",
            ),
            IndentationErrorKind::InvalidIndentation => labelled_error(
                self.span,
                "Indentation error",
                "Invalid indentation",
            ),
        }
    }
}

impl EmitDiagnostic for InvalidLiteralError {
    open spec fn fits(&self, ctx: &ParseContext<'_>) -> bool {
        &&& ctx.tree.wf()
        &&& self.valid_literals.end <= ctx.tree.nodes@.len()
        &&& span_fits(ctx.source.bytes(), self.span)
    }

    fn emit(&self, ctx: &ParseContext<'_>) -> (d: Diagnostic)
        ensures
            exists|shown: Seq<Seq<char>>, hint: Option<Seq<char>>, order: Seq<Seq<char>>| #[trigger]
                is_invalid_literal_diagnostic(
                    d@,
                    self.span,
                    shown,
                    hint,
                    order,
                    names_in(
                        ctx.tree.nodes@,
                        self.valid_literals.start as int,
                        self.valid_literals.end as int,
                    ),
                    text_of(ctx.source.bytes(), self.span.start as int, self.span.end as int),
                ),
    {
        let tree: &ParsingTree = &ctx.tree;
        let ghost lo = self.valid_literals.start as int;
        let ghost hi = self.valid_literals.end as int;
        let mut names: Vec<&str> = Vec::new();
        let mut id: usize = self.valid_literals.start;
        while id < self.valid_literals.end
            invariant
                tree.wf(),
                lo == self.valid_literals.start,
                hi == self.valid_literals.end,
                self.valid_literals.end <= tree.nodes@.len(),
                self.valid_literals.start <= id,
                id <= self.valid_literals.end || id == self.valid_literals.start,
                names@.len() == crate::parser::width(lo, id as int),
                forall|i: int|
                    0 <= i < names@.len() ==> (#[trigger] names@[i])@ == tree.nodes@[lo + i].node.key(),
            decreases self.valid_literals.end - id,
        {
            proof {
                assert(node_placed(tree.nodes@, tree.num_roots as int, id as int));
            }
            names.push(tree.nodes[id].node.name());
            id += 1;
        }
        proof {
            if lo >= hi {
                assert(names@.len() == 0);
            }
            assert(slice_texts(names@) =~= names_in(tree.nodes@, lo, hi));
        }
        let sorted = sorted_names(&names);
        let mut shown: Vec<String> = Vec::new();
        let mut i: usize = 0;
        while i < sorted.len()
            invariant
                i <= sorted@.len(),
                shown@.len() == i,
            decreases sorted@.len() - i,
        {
            let painted = paint_green(sorted[i]);
            shown.push(surrounded("`", painted.as_str(), "`"));
            i += 1;
        }
        let text = ctx.source.text();
        let input = slice(text, self.span.start, self.span.end);
        let hint = match likely_literal(&sorted, input) {
            Some(k) => {
                let painted = paint_green(sorted[k]);
                Some(surrounded("`", painted.as_str(), "`"))
            },
            None => None,
        };
        let d = match &hint {
            Some(name) => invalid_literal_diagnostic(self.span, &shown, Some(name.as_str())),
            None => invalid_literal_diagnostic(self.span, &shown, None),
        };
        proof {
            let said = match hint {
                Some(name) => Some(name@),
                None => None,
            };
            assert(d@ == invalid_literal_view(self.span, texts(shown@), said));
            assert(encoded(slice_texts(sorted@)) =~= slice_bytes(sorted@));
            assert(encoded(slice_texts(names@)) =~= slice_bytes(names@));
            assert(input@ == text_of(
                ctx.source.bytes(),
                self.span.start as int,
                self.span.end as int,
            ));
            assert(is_invalid_literal_diagnostic(
                d@,
                self.span,
                texts(shown@),
                said,
                slice_texts(sorted@),
                names_in(
                    ctx.tree.nodes@,
                    self.valid_literals.start as int,
                    self.valid_literals.end as int,
                ),
                text_of(ctx.source.bytes(), self.span.start as int, self.span.end as int),
            ));
        }
        d
    }
}

impl EmitDiagnostic for TooManyArgumentsError {
    open spec fn fits(&self, ctx: &ParseContext<'_>) -> bool {
        span_fits(ctx.source.bytes(), self.span)
    }

    fn emit(&self, ctx: &ParseContext<'_>) -> (d: Diagnostic)
        ensures
            d@ == labelled(
                self.span,
                "Too many arguments"@,
                unexpected_label(
                    text_of(ctx.source.bytes(), self.span.start as int, self.span.end as int),
                ),
            ),
    {
        let text = slice(ctx.source.text(), self.span.start, self.span.end);
        if contains_whitespace(text) {
            labelled_error(self.span, "Too many arguments", "These arguments were not expected")
        } else {
            labelled_error(self.span, "Too many arguments", "This argument was not expected")
        }
    }
}

impl EmitDiagnostic for ParseBoolError {
    fn emit(&self, ctx: &ParseContext<'_>) -> (d: Diagnostic)
        ensures
            exists|yes: Seq<char>, no: Seq<char>| #[trigger]
                is_bool_diagnostic(d@, self.span, yes, no),
    {
        let yes = paint_green("true");
        let no = paint_green("false");
        let d = bool_diagnostic(self.span, yes.as_str(), no.as_str());
        proof {
            assert(is_bool_diagnostic(d@, self.span, yes@, no@));
        }
        d
    }
}

impl EmitDiagnostic for ParseDoubleError {
    fn emit(&self, ctx: &ParseContext<'_>) -> (d: Diagnostic)
        ensures
            exists|kind: Seq<char>| #[trigger]
                is_number_diagnostic(d@, self.span, "Invalid double"@, "Expected a "@, kind),
    {
        let kind = paint_magenta("double");
        let d = number_diagnostic(self.span, "Invalid double", "Expected a ", kind.as_str());
        proof {
            assert(is_number_diagnostic(d@, self.span, "Invalid double"@, "Expected a "@, kind@));
        }
        d
    }
}

impl EmitDiagnostic for ParseFloatError {
    fn emit(&self, ctx: &ParseContext<'_>) -> (d: Diagnostic)
        ensures
            exists|kind: Seq<char>| #[trigger]
                is_number_diagnostic(d@, self.span, "Invalid float"@, "Expected a "@, kind),
    {
        let kind = paint_magenta("float");
        let d = number_diagnostic(self.span, "Invalid float", "Expected a ", kind.as_str());
        proof {
            assert(is_number_diagnostic(d@, self.span, "Invalid float"@, "Expected a "@, kind@));
        }
        d
    }
}

impl EmitDiagnostic for ParseIntegerError {
    fn emit(&self, ctx: &ParseContext<'_>) -> (d: Diagnostic)
        ensures
            exists|kind: Seq<char>| #[trigger]
                is_number_diagnostic(d@, self.span, "Invalid integer"@, "Expected an "@, kind),
    {
        let kind = paint_magenta("integer");
        let d = number_diagnostic(self.span, "Invalid integer", "Expected an ", kind.as_str());
        proof {
            assert(is_number_diagnostic(
                d@,
                self.span,
                "Invalid integer"@,
                "Expected an "@,
                kind@,
            ));
        }
        d
    }
}

impl EmitDiagnostic for UnterminatedStringError {
    fn emit(&self, ctx: &ParseContext<'_>) -> (d: Diagnostic)
        ensures
            d@ == labelled(self.span, "Unterminated string"@, "Missing closing quotation mark"@),
    {
        labelled_error(self.span, "Unterminated string", "Missing closing quotation mark")
    }
}

impl EmitDiagnostic for InvalidStringCharsError {
    fn emit(&self, ctx: &ParseContext<'_>) -> (d: Diagnostic)
        ensures
            d@ == bare(Level::Error, self.span, "Invalid characters in string"@),
    {
        Diagnostic::error(self.span, "Invalid characters in string")
    }
}

impl EmitDiagnostic for QuotedSingleWordError {
    fn emit(&self, ctx: &ParseContext<'_>) -> (d: Diagnostic)
        ensures
            d@ == labelled(
                self.span,
                "Cannot quote single-word strings"@,
                "This string must not be quoted"@,
            ),
    {
        labelled_error(
            self.span,
            "Cannot quote single-word strings",
            "This string must not be quoted",
        )
    }
}

impl EmitDiagnostic for IncompleteLocalCoordinatesError {
    fn emit(&self, ctx: &ParseContext<'_>) -> (d: Diagnostic)
        ensures
            d@ == bare(Level::Error, self.span, "Incomplete local coordinates"@),
    {
        Diagnostic::error(self.span, "Incomplete local coordinates")
    }
}

impl EmitDiagnostic for ExpectedLocalCoordinateError {
    fn emit(&self, ctx: &ParseContext<'_>) -> (d: Diagnostic)
        ensures
            d@ == bare(Level::Error, self.span, "Expected local coordinate"@),
    {
        Diagnostic::error(self.span, "Expected local coordinate")
    }
}

impl EmitDiagnostic for MixedCoordiantesError {
    fn emit(&self, ctx: &ParseContext<'_>) -> (d: Diagnostic)
        ensures
            d@ == bare(Level::Error, self.span, "Cannot mix world and local coordinates"@),
    {
        Diagnostic::error(self.span, "Cannot mix world and local coordinates")
    }
}

impl EmitDiagnostic for InvalidColorError {
    fn emit(&self, ctx: &ParseContext<'_>) -> (d: Diagnostic)
        ensures
            d@ == labelled(self.span, "Invalid color"@, "Expected the name of a chat color"@),
    {
        labelled_error(self.span, "Invalid color", "Expected the name of a chat color")
    }
}

impl EmitDiagnostic for UnsupportedArgumentError {
    fn emit(&self, ctx: &ParseContext<'_>) -> (d: Diagnostic)
        ensures
            d@ == labelled(
                self.span,
                "Unsupported argument"@,
                "Arguments of this kind cannot be read yet"@,
            ),
    {
        labelled_error(
            self.span,
            "Unsupported argument",
            "Arguments of this kind cannot be read yet",
        )
    }
}

impl EmitDiagnostic for SymbolsExhaustedError {
    fn emit(&self, ctx: &ParseContext<'_>) -> (d: Diagnostic)
        ensures
            d@ == bare(Level::Error, self.span, "Too many different strings"@),
    {
        Diagnostic::error(self.span, "Too many different strings")
    }
}

/// `d` is the diagnostic for `error` in the context `ctx`. Words that are
/// shown in colour (`yes`, `no`, `kind`, `shown`, `hint`) are not told here.
pub open spec fn emitted(error: ParseError, ctx: &ParseContext<'_>, d: DiagnosticView) -> bool {
    match error {
        ParseError::Indentation(e) => d == labelled(
            e.span,
            "Indentation error"@,
            match e.kind {
                IndentationErrorKind::MixedWhitespace => "Must only use spaces for indentation"@,
                IndentationErrorKind::InvalidIndentation => "Invalid indentation"@,
            },
        ),
        ParseError::InvalidLiteral(e) => exists|
            shown: Seq<Seq<char>>,
            hint: Option<Seq<char>>,
            order: Seq<Seq<char>>,
        | #[trigger]
            is_invalid_literal_diagnostic(
                d,
                e.span,
                shown,
                hint,
                order,
                names_in(ctx.tree.nodes@, e.valid_literals.start as int, e.valid_literals.end as int),
                text_of(ctx.source.bytes(), e.span.start as int, e.span.end as int),
            ),
        ParseError::TooManyArguments(e) => d == labelled(
            e.span,
            "Too many arguments"@,
            unexpected_label(text_of(ctx.source.bytes(), e.span.start as int, e.span.end as int)),
        ),
        ParseError::ParseBool(e) => exists|yes: Seq<char>, no: Seq<char>| #[trigger]
            is_bool_diagnostic(d, e.span, yes, no),
        ParseError::ParseDouble(e) => exists|kind: Seq<char>| #[trigger]
            is_number_diagnostic(d, e.span, "Invalid double"@, "Expected a "@, kind),
        ParseError::ParseFloat(e) => exists|kind: Seq<char>| #[trigger]
            is_number_diagnostic(d, e.span, "Invalid float"@, "Expected a "@, kind),
        ParseError::ParseInteger(e) => exists|kind: Seq<char>| #[trigger]
            is_number_diagnostic(d, e.span, "Invalid integer"@, "Expected an "@, kind),
        ParseError::UnterminatedString(e) => d == labelled(
            e.span,
            "Unterminated string"@,
            "Missing closing quotation mark"@,
        ),
        ParseError::InvalidStringChars(e) => d == bare(
            Level::Error,
            e.span,
            "Invalid characters in string"@,
        ),
        ParseError::QuotedSingleWord(e) => d == labelled(
            e.span,
            "Cannot quote single-word strings"@,
            "This string must not be quoted"@,
        ),
        ParseError::IncompleteLocalCoordinates(e) => d == bare(
            Level::Error,
            e.span,
            "Incomplete local coordinates"@,
        ),
        ParseError::ExpectedLocalCoordinate(e) => d == bare(
            Level::Error,
            e.span,
            "Expected local coordinate"@,
        ),
        ParseError::MixedCoordinates(e) => d == bare(
            Level::Error,
            e.span,
            "Cannot mix world and local coordinates"@,
        ),
        ParseError::InvalidColor(e) => d == labelled(
            e.span,
            "Invalid color"@,
            "Expected the name of a chat color"@,
        ),
        ParseError::UnsupportedArgument(e) => d == labelled(
            e.span,
            "Unsupported argument"@,
            "Arguments of this kind cannot be read yet"@,
        ),
        ParseError::SymbolsExhausted(e) => d == bare(
            Level::Error,
            e.span,
            "Too many different strings"@,
        ),
    }
}

impl EmitDiagnostic for ParseError {
    open spec fn fits(&self, ctx: &ParseContext<'_>) -> bool {
        match *self {
            ParseError::InvalidLiteral(e) => e.fits(ctx),
            ParseError::TooManyArguments(e) => e.fits(ctx),
            _ => true,
        }
    }

    fn emit(&self, ctx: &ParseContext<'_>) -> (d: Diagnostic)
        ensures
            d@.span == self.span(),
            emitted(*self, ctx, d@),
    {
        match self {
            ParseError::Indentation(e) => e.emit(ctx),
            ParseError::InvalidLiteral(e) => e.emit(ctx),
            ParseError::TooManyArguments(e) => e.emit(ctx),
            ParseError::ParseBool(e) => e.emit(ctx),
            ParseError::ParseDouble(e) => e.emit(ctx),
            ParseError::ParseFloat(e) => e.emit(ctx),
            ParseError::ParseInteger(e) => e.emit(ctx),
            ParseError::UnterminatedString(e) => e.emit(ctx),
            ParseError::InvalidStringChars(e) => e.emit(ctx),
            ParseError::QuotedSingleWord(e) => e.emit(ctx),
            ParseError::IncompleteLocalCoordinates(e) => e.emit(ctx),
            ParseError::ExpectedLocalCoordinate(e) => e.emit(ctx),
            ParseError::MixedCoordinates(e) => e.emit(ctx),
            ParseError::InvalidColor(e) => e.emit(ctx),
            ParseError::UnsupportedArgument(e) => e.emit(ctx),
            ParseError::SymbolsExhausted(e) => e.emit(ctx),
        }
    }
}

} // verus!
