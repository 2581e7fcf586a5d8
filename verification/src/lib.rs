//! Batch renaming driven by an editable list of paths.
//!
//! A [`FileList`] is a text together with the byte ranges of its non-empty
//! lines, each of which names a file. A [`RenameRequest`] pairs two lists of
//! as many entries, says in which order the pairs may be renamed, shows how
//! each pair differs, and keeps track of a renaming while it runs. Every
//! failure turns into a [`Diagnostic`] that points into the text it is about.

pub mod depth;
pub mod diagnostic;
pub mod diff;
pub mod errors;
pub mod file_list;
pub mod paths;
pub mod rename_request;
pub mod text;

pub use crate::diagnostic::{Diagnostic, Label, Severity};
pub use crate::diff::{Chunk, DiffRecord};
pub use crate::errors::{
    CannotRenameFile, FLParseError, FileVanished, MisspelledBashCommand, RRParseError,
};
pub use crate::file_list::FileList;
pub use crate::rename_request::{RenameRequest, RenameRun, RenameState};
pub use crate::text::Span;
