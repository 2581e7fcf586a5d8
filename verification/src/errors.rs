//! What can go wrong, and the report that each failure turns into.

use crate::diagnostic::{label_views, Diagnostic, DiagnosticView, Label, LabelView, Severity};
use crate::text::Span;
use core::ops::Range;
use vstd::prelude::*;

verus! {

/// The editor command could not be run by the shell.
pub struct MisspelledBashCommand<'a>(pub &'a str);

impl<'a> MisspelledBashCommand<'a> {
    /// An error that names the command and asks whether it was misspelled.
    pub fn report(self) -> (report: Diagnostic)
        ensures
            report@ == (DiagnosticView {
                severity: Severity::Error,
                message: "cannot execute `"@ + self.0@ + "`"@,
                labels: Seq::empty(),
                notes: seq!["Did you misspell this command?"@],
            }),
    {
        let mut message = String::from_str("cannot execute `");
        message.append(self.0);
        message.append("`");
        let report = Diagnostic::new(Severity::Error, message).with_note(
            String::from_str("Did you misspell this command?"),
        );
        assert(report@.notes =~= seq!["Did you misspell this command?"@]);
        report
    }
}

/// A rename that the operating system refused: the pair of paths, origin
/// first, and the system's message.
#[derive(Debug)]
pub struct CannotRenameFile(pub (String, String), pub String);

impl CannotRenameFile {
    /// An error that names both paths and carries the system's message as a
    /// note.
    pub fn report(self) -> (report: Diagnostic)
        ensures
            report@ == (DiagnosticView {
                severity: Severity::Error,
                message: "cannot rename `"@ + self.0.0@ + "` to `"@ + self.0.1@ + "`"@,
                labels: Seq::empty(),
                notes: seq!["Underlying OS error: "@ + self.1@],
            }),
    {
        let mut message = String::from_str("cannot rename `");
        message.append(self.0.0.as_str());
        message.append("` to `");
        message.append(self.0.1.as_str());
        message.append("`");
        let mut note = String::from_str("Underlying OS error: ");
        note.append(self.1.as_str());
        let report = Diagnostic::new(Severity::Error, message).with_note(note);
        assert(report@.notes =~= seq!["Underlying OS error: "@ + self.1@]);
        report
    }
}

/// Why a list of files could not be made, or could not be used.
#[derive(Debug)]
pub enum FLParseError {
    /// The directory holds no file to list.
    EmptyDirectory,
    /// The text that was read names no file.
    EmptyStdIn,
    /// Some listed files are not there; one label for each of them.
    FileDoesNotExist(Vec<Label>),
}

impl FLParseError {
    /// A warning for an empty source, an error that points at every missing
    /// file otherwise.
    pub fn report(self) -> (report: Diagnostic)
        ensures
            report@ == match self {
                FLParseError::EmptyDirectory => DiagnosticView {
                    severity: Severity::Warning,
                    message: "Directory is empty"@,
                    labels: Seq::empty(),
                    notes: seq![
                        "By default, mv-with respects filters such as globs, file types and .gitignore files"@,
                        "Use StdIn for finegrained control, eg. `ls -A | mv-with vim`"@,
                    ],
                },
                FLParseError::EmptyStdIn => DiagnosticView {
                    severity: Severity::Warning,
                    message: "StdIn is empty"@,
                    labels: Seq::empty(),
                    notes: Seq::empty(),
                },
                FLParseError::FileDoesNotExist(labels) => DiagnosticView {
                    severity: Severity::Error,
                    message: "File does not exist"@,
                    labels: label_views(labels@),
                    notes: Seq::empty(),
                },
            },
    {
        match self {
            FLParseError::EmptyDirectory => {
                let report = Diagnostic::new(
                    Severity::Warning,
                    String::from_str("Directory is empty"),
                ).with_note(
                    String::from_str(
                        "By default, mv-with respects filters such as globs, file types and .gitignore files",
                    ),
                ).with_note(
                    String::from_str("Use StdIn for finegrained control, eg. `ls -A | mv-with vim`"),
                );
                assert(report@.notes =~= seq![
                    "By default, mv-with respects filters such as globs, file types and .gitignore files"@,
                    "Use StdIn for finegrained control, eg. `ls -A | mv-with vim`"@,
                ]);
                report
            },
            FLParseError::EmptyStdIn => Diagnostic::new(
                Severity::Warning,
                String::from_str("StdIn is empty"),
            ),
            FLParseError::FileDoesNotExist(labels) => {
                let report = Diagnostic {
                    severity: Severity::Error,
                    message: String::from_str("File does not exist"),
                    labels,
                    notes: Vec::new(),
                };
                assert(report@.notes =~= Seq::empty());
                report
            },
        }
    }

    /// The exit status that goes with the failure: 0 for an empty source,
    /// 1 for missing files.
    pub fn status(&self) -> (status: Option<i32>)
        ensures
            status == Some(
                if self is FileDoesNotExist {
                    1i32
                } else {
                    0i32
                },
            ),
    {
        match self {
            FLParseError::FileDoesNotExist(_) => Some(1),
            FLParseError::EmptyDirectory | FLParseError::EmptyStdIn => Some(0),
        }
    }
}

/// A file that was found when the list was checked had no canonical path when
/// the list was sorted: it went away in between. The label marks its entry.
#[derive(Debug)]
pub struct FileVanished(pub Label);

impl FileVanished {
    /// An error that points at the entry of the file.
    pub fn report(self) -> (report: Diagnostic)
        ensures
            report@ == (DiagnosticView {
                severity: Severity::Error,
                message: "TOCTTOU error: files are expected to exist"@,
                labels: seq![self.0@],
                notes: Seq::empty(),
            }),
    {
        let report = Diagnostic::new(
            Severity::Error,
            String::from_str("TOCTTOU error: files are expected to exist"),
        ).with_label(self.0);
        assert(report@.labels =~= seq![self.0@]);
        report
    }
}

/// Why an edited list cannot be paired with the list it came from. Offsets
/// are byte offsets into the edited text.
#[derive(Debug)]
pub enum RRParseError {
    /// The edited text has fewer entries; the offset is where it ends.
    TooFewLines(usize),
    /// The edited text has more entries; the range covers what is too much.
    TooManyLines(Range<usize>),
    /// No entry differs from the one it is paired with.
    FileUnchanged,
}

/// The note that goes with a wrong number of lines.
pub open spec fn line_count_note() -> Seq<char> {
    "temporary file should have the same number of lines before and after editing"@
}

impl RRParseError {
    /// A note for an unchanged list; otherwise an error that points at the
    /// end of the text, or at the lines that are too many.
    pub fn report(self) -> (report: Diagnostic)
        ensures
            report@ == match self {
                RRParseError::FileUnchanged => DiagnosticView {
                    severity: Severity::Note,
                    message: "Temporary file was unchanged"@,
                    labels: Seq::empty(),
                    notes: Seq::empty(),
                },
                RRParseError::TooFewLines(end) => DiagnosticView {
                    severity: Severity::Error,
                    message: "Unexpected EOF"@,
                    labels: seq![
                        LabelView { span: Span { start: end, end }, message: "Unexpected EOF"@ },
                    ],
                    notes: seq![line_count_note()],
                },
                RRParseError::TooManyLines(range) => DiagnosticView {
                    severity: Severity::Error,
                    message: "Too many lines in temporary file"@,
                    labels: seq![
                        LabelView {
                            span: Span { start: range.start, end: range.end },
                            message: "Expected EOF"@,
                        },
                    ],
                    notes: seq![line_count_note()],
                },
            },
    {
        let (headline, label) = match self {
            RRParseError::FileUnchanged => {
                return Diagnostic::new(
                    Severity::Note,
                    String::from_str("Temporary file was unchanged"),
                );
            },
            RRParseError::TooFewLines(end) => (
                String::from_str("Unexpected EOF"),
                Label::new(Span { start: end, end }, "Unexpected EOF"),
            ),
            RRParseError::TooManyLines(range) => (
                String::from_str("Too many lines in temporary file"),
                Label::new(Span { start: range.start, end: range.end }, "Expected EOF"),
            ),
        };
        let report = Diagnostic::new(Severity::Error, headline).with_label(label).with_note(
            String::from_str(
                "temporary file should have the same number of lines before and after editing",
            ),
        );
        assert(report@.labels =~= seq![label@]);
        assert(report@.notes =~= seq![line_count_note()]);
        report
    }

    /// The exit status that goes with the failure: 0 where nothing was
    /// changed, 1 for a wrong number of lines.
    pub fn status(&self) -> (status: Option<i32>)
        ensures
            status == Some(
                if self is FileUnchanged {
                    0i32
                } else {
                    1i32
                },
            ),
    {
        match self {
            RRParseError::FileUnchanged => Some(0),
            RRParseError::TooFewLines(_) | RRParseError::TooManyLines(_) => Some(1),
        }
    }
}

} // verus!
