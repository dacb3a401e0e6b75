//! Error and warning messages about source code, with the spans they point at.

use vstd::prelude::*;
use crate::location::{Location, Range, SourceFileIdentifier, same_file};

verus! {

/// How serious a message is.
#[derive(Debug, Clone, Copy, PartialEq, Eq, Structural)]
pub enum Severity {
    Error,
    Warning,
}

/// The kind of an extra message attached to an error or warning.
#[derive(Debug, Clone, Copy, PartialEq, Eq, Structural)]
pub enum HelpType {
    Help,
    Note,
}

/// Where a message points: a source file and, optionally, a span inside it.
#[derive(Debug)]
pub struct Diagnostic {
    pub source_file: SourceFileIdentifier,
    pub range: Option<Range>,
}

impl Diagnostic {
    /// Points at a whole file.
    pub fn in_file(source_file: &SourceFileIdentifier) -> (res: Diagnostic)
        ensures
            same_file(res.source_file, *source_file),
            res.range is None,
    {
        Diagnostic { source_file: source_file.duplicate(), range: None }
    }

    /// Points at a span of a file.
    pub fn at(source_file: &SourceFileIdentifier, range: Range) -> (res: Diagnostic)
        ensures
            same_file(res.source_file, *source_file),
            res.range == Some(range),
    {
        Diagnostic { source_file: source_file.duplicate(), range: Some(range) }
    }

    /// Points at a single position of a file.
    pub fn at_location(source_file: &SourceFileIdentifier, location: Location) -> (res: Diagnostic)
        ensures
            same_file(res.source_file, *source_file),
            res.range == Some(Range { start: location, end: location }),
    {
        Diagnostic { source_file: source_file.duplicate(), range: Some(Range { start: location, end: location }) }
    }
}

/// An extra message attached to an error or warning.
#[derive(Debug)]
pub struct HelpMessage {
    pub message: String,
    pub help_type: HelpType,
    pub diagnostic: Diagnostic,
}

/// An error or warning, with the place it is about and any help messages.
#[derive(Debug)]
pub struct ErrorMessage {
    pub message: String,
    pub severity: Severity,
    pub diagnostic: Diagnostic,
    pub help: Vec<HelpMessage>,
}

impl ErrorMessage {
    /// A message with no help attached.
    pub fn new(message: String, severity: Severity, diagnostic: Diagnostic) -> (res: ErrorMessage)
        ensures
            res.message == message,
            res.severity == severity,
            res.diagnostic == diagnostic,
            res.help@.len() == 0,
    {
        ErrorMessage { message, severity, diagnostic, help: Vec::new() }
    }

    /// A message with help messages attached.
    pub fn new_with_help(message: String, severity: Severity, diagnostic: Diagnostic, help: Vec<HelpMessage>) -> (res: ErrorMessage)
        ensures
            res.message == message,
            res.severity == severity,
            res.diagnostic == diagnostic,
            res.help == help,
    {
        ErrorMessage { message, severity, diagnostic, help }
    }
}

} // verus!
