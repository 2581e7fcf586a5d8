//! Problem reports addressed by byte ranges of the text they are about.

use crate::text::{string_views, Span};
use vstd::prelude::*;

verus! {

/// How grave a report is.
#[derive(Clone, Copy, Debug, PartialEq, Eq, Structural)]
pub enum Severity {
    Error,
    Warning,
    Note,
}

/// A message attached to a byte range of the reported text.
#[derive(Debug)]
pub struct Label {
    pub span: Span,
    pub message: String,
}

/// What a [`Label`] holds.
pub struct LabelView {
    pub span: Span,
    pub message: Seq<char>,
}

impl View for Label {
    type V = LabelView;

    open spec fn view(&self) -> LabelView {
        LabelView { span: self.span, message: self.message@ }
    }
}

/// The views of `labels`, place by place.
pub open spec fn label_views(labels: Seq<Label>) -> Seq<LabelView> {
    Seq::new(labels.len(), |i: int| labels[i]@)
}

/// A report: a headline, the places in the text it points at, and notes.
#[derive(Debug)]
pub struct Diagnostic {
    pub severity: Severity,
    pub message: String,
    pub labels: Vec<Label>,
    pub notes: Vec<String>,
}

/// What a [`Diagnostic`] holds.
pub struct DiagnosticView {
    pub severity: Severity,
    pub message: Seq<char>,
    pub labels: Seq<LabelView>,
    pub notes: Seq<Seq<char>>,
}

impl View for Diagnostic {
    type V = DiagnosticView;

    open spec fn view(&self) -> DiagnosticView {
        DiagnosticView {
            severity: self.severity,
            message: self.message@,
            labels: label_views(self.labels@),
            notes: string_views(self.notes@),
        }
    }
}

impl Label {
    /// A label on `span` that says `message`.
    pub fn new(span: Span, message: &str) -> (label: Label)
        ensures
            label@ == (LabelView { span, message: message@ }),
    {
        Label { span, message: String::from_str(message) }
    }
}

impl Diagnostic {
    /// A report of the given severity with a headline and nothing else.
    pub fn new(severity: Severity, message: String) -> (report: Diagnostic)
        ensures
            report@ == (DiagnosticView {
                severity,
                message: message@,
                labels: Seq::empty(),
                notes: Seq::empty(),
            }),
    {
        let report = Diagnostic { severity, message, labels: Vec::new(), notes: Vec::new() };
        assert(report@.labels =~= Seq::empty());
        assert(report@.notes =~= Seq::empty());
        report
    }

    /// Adds a label behind the ones the report has.
    pub fn with_label(self, label: Label) -> (report: Diagnostic)
        ensures
            report@ == (DiagnosticView { labels: self@.labels.push(label@), ..self@ }),
    {
        let mut report = self;
        report.labels.push(label);
        assert(report@.labels =~= self@.labels.push(label@));
        report
    }

    /// Adds a note behind the ones the report has.
    pub fn with_note(self, note: String) -> (report: Diagnostic)
        ensures
            report@ == (DiagnosticView { notes: self@.notes.push(note@), ..self@ }),
    {
        let mut report = self;
        report.notes.push(note);
        assert(report@.notes =~= self@.notes.push(note@));
        report
    }
}

} // verus!
