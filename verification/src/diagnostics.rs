//! Structured diagnostics: what happened, where, and what to do about it.

use crate::span::Span;
use vstd::prelude::*;
use vstd::string::*;

verus! {

/// How grave a diagnostic is.
#[derive(Debug, Clone, Copy, PartialEq, Eq, Structural)]
pub enum Level {
    Error,
    Warn,
    Info,
    Help,
}

/// A remark attached to a part of the source.
#[derive(Debug)]
pub struct Label {
    span: Span,
    message: String,
}

/// What a [`Label`] holds.
pub struct LabelView {
    pub span: Span,
    pub message: Seq<char>,
}

impl View for Label {
    type V = LabelView;

    closed spec fn view(&self) -> LabelView {
        LabelView { span: self.span, message: self.message@ }
    }
}

impl Label {
    /// A label that says `message` of `span`.
    pub fn new(span: Span, message: &str) -> (label: Self)
        ensures
            label@ == (LabelView { span, message: message@ }),
    {
        Label { span, message: message.to_owned() }
    }

    /// The part of the source that the label is about.
    pub fn span(&self) -> (span: Span)
        ensures
            span == self@.span,
    {
        self.span
    }

    /// What the label says.
    pub fn message(&self) -> (message: &str)
        ensures
            message@ == self@.message,
    {
        self.message.as_str()
    }
}

/// A note that goes with a diagnostic.
#[derive(Debug)]
pub struct SubDiagnostic {
    level: Level,
    message: String,
}

/// What a [`SubDiagnostic`] holds.
pub struct SubDiagnosticView {
    pub level: Level,
    pub message: Seq<char>,
}

impl View for SubDiagnostic {
    type V = SubDiagnosticView;

    closed spec fn view(&self) -> SubDiagnosticView {
        SubDiagnosticView { level: self.level, message: self.message@ }
    }
}

impl SubDiagnostic {
    /// How grave the note is.
    pub fn level(&self) -> (level: Level)
        ensures
            level == self@.level,
    {
        self.level
    }

    /// What the note says.
    pub fn message(&self) -> (message: &str)
        ensures
            message@ == self@.message,
    {
        self.message.as_str()
    }
}

/// A diagnostic: its level, the part of the source it is about, what it
/// says, and its labels and notes in the order in which they were added.
#[derive(Debug)]
pub struct Diagnostic {
    level: Level,
    span: Span,
    message: String,
    labels: Vec<Label>,
    sub_diagnostics: Vec<SubDiagnostic>,
}

/// What a [`Diagnostic`] holds.
pub struct DiagnosticView {
    pub level: Level,
    pub span: Span,
    pub message: Seq<char>,
    pub labels: Seq<LabelView>,
    pub subs: Seq<SubDiagnosticView>,
}

impl View for Diagnostic {
    type V = DiagnosticView;

    closed spec fn view(&self) -> DiagnosticView {
        DiagnosticView {
            level: self.level,
            span: self.span,
            message: self.message@,
            labels: Seq::new(self.labels@.len(), |i: int| self.labels@[i]@),
            subs: Seq::new(self.sub_diagnostics@.len(), |i: int| self.sub_diagnostics@[i]@),
        }
    }
}

/// The diagnostic without labels and notes.
pub open spec fn bare(level: Level, span: Span, message: Seq<char>) -> DiagnosticView {
    DiagnosticView { level, span, message, labels: Seq::empty(), subs: Seq::empty() }
}

impl Diagnostic {
    /// A diagnostic without labels and notes.
    pub fn new(level: Level, span: Span, message: &str) -> (d: Self)
        ensures
            d@ == bare(level, span, message@),
    {
        let d = Diagnostic {
            level,
            span,
            message: message.to_owned(),
            labels: Vec::new(),
            sub_diagnostics: Vec::new(),
        };
        proof {
            assert(d@.labels =~= Seq::<LabelView>::empty());
            assert(d@.subs =~= Seq::<SubDiagnosticView>::empty());
        }
        d
    }

    /// An error without labels and notes.
    pub fn error(span: Span, message: &str) -> (d: Self)
        ensures
            d@ == bare(Level::Error, span, message@),
    {
        Self::new(Level::Error, span, message)
    }

    /// A warning without labels and notes.
    pub fn warn(span: Span, message: &str) -> (d: Self)
        ensures
            d@ == bare(Level::Warn, span, message@),
    {
        Self::new(Level::Warn, span, message)
    }

    /// The diagnostic with `label` added behind its labels.
    pub fn with_label(self, label: Label) -> (d: Self)
        ensures
            d@ == (DiagnosticView { labels: self@.labels.push(label@), ..self@ }),
    {
        let mut d = self;
        d.labels.push(label);
        proof {
            assert(d@.labels =~= self@.labels.push(label@));
            assert(d@.subs =~= self@.subs);
        }
        d
    }

    /// The diagnostic with a note added behind its notes.
    pub fn with_sub(self, level: Level, message: &str) -> (d: Self)
        ensures
            d@ == (DiagnosticView {
                subs: self@.subs.push(SubDiagnosticView { level, message: message@ }),
                ..self@
            }),
    {
        let mut d = self;
        d.sub_diagnostics.push(SubDiagnostic { level, message: message.to_owned() });
        proof {
            assert(d@.subs =~= self@.subs.push(SubDiagnosticView { level, message: message@ }));
            assert(d@.labels =~= self@.labels);
        }
        d
    }

    /// The diagnostic with a piece of advice added behind its notes.
    pub fn with_help(self, message: &str) -> (d: Self)
        ensures
            d@ == (DiagnosticView {
                subs: self@.subs.push(SubDiagnosticView { level: Level::Help, message: message@ }),
                ..self@
            }),
    {
        self.with_sub(Level::Help, message)
    }

    /// How grave the diagnostic is.
    pub fn level(&self) -> (level: Level)
        ensures
            level == self@.level,
    {
        self.level
    }

    /// The part of the source that the diagnostic is about.
    pub fn span(&self) -> (span: Span)
        ensures
            span == self@.span,
    {
        self.span
    }

    /// What the diagnostic says.
    pub fn message(&self) -> (message: &str)
        ensures
            message@ == self@.message,
    {
        self.message.as_str()
    }

    /// The labels, in the order in which they were added.
    pub fn labels(&self) -> (labels: &[Label])
        ensures
            labels@.len() == self@.labels.len(),
            forall|i: int| 0 <= i < labels@.len() ==> (#[trigger] labels@[i])@ == self@.labels[i],
    {
        self.labels.as_slice()
    }

    /// The notes, in the order in which they were added.
    pub fn sub(&self) -> (subs: &[SubDiagnostic])
        ensures
            subs@.len() == self@.subs.len(),
            forall|i: int| 0 <= i < subs@.len() ==> (#[trigger] subs@[i])@ == self@.subs[i],
    {
        self.sub_diagnostics.as_slice()
    }
}

} // verus!
