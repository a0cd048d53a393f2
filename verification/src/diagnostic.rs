use vstd::prelude::*;

use crate::span::Span;

verus! {

/// How serious a diagnostic is.
#[derive(Clone, Copy, Debug, PartialEq, Eq)]
pub enum Severity {
    Error,
    Warning,
    Info,
}

/// A span a diagnostic points at, with an optional note.
#[derive(Clone, Debug, PartialEq, Eq)]
pub struct DiagnosticLabel {
    pub span: Span,
    pub message: Option<String>,
}

/// A problem found in a Daihon script.
#[derive(Clone, Debug, PartialEq, Eq)]
pub struct DaihonDiagnostic {
    pub severity: Severity,
    pub code: String,
    pub message: String,
    pub labels: Vec<DiagnosticLabel>,
    pub help: Option<String>,
}

impl DaihonDiagnostic {
    /// An error with one unlabeled span and no help text.
    pub fn error(code: &str, message: &str, span: Span) -> (d: DaihonDiagnostic)
        ensures
            d.severity == Severity::Error,
            d.code@ == code@,
            d.message@ == message@,
            d.labels@.len() == 1,
            d.labels@[0].span == span,
            d.labels@[0].message is None,
            d.help is None,
    {
        let mut labels: Vec<DiagnosticLabel> = Vec::new();
        labels.push(DiagnosticLabel { span, message: None });
        DaihonDiagnostic {
            severity: Severity::Error,
            code: code.to_owned(),
            message: message.to_owned(),
            labels,
            help: None,
        }
    }

    /// A warning with one unlabeled span and no help text.
    pub fn warning(code: &str, message: &str, span: Span) -> (d: DaihonDiagnostic)
        ensures
            d.severity == Severity::Warning,
            d.code@ == code@,
            d.message@ == message@,
            d.labels@.len() == 1,
            d.labels@[0].span == span,
            d.labels@[0].message is None,
            d.help is None,
    {
        let mut labels: Vec<DiagnosticLabel> = Vec::new();
        labels.push(DiagnosticLabel { span, message: None });
        DaihonDiagnostic {
            severity: Severity::Warning,
            code: code.to_owned(),
            message: message.to_owned(),
            labels,
            help: None,
        }
    }

    /// The same diagnostic with its help text set to `help`.
    pub fn with_help(self, help: &str) -> (d: DaihonDiagnostic)
        ensures
            d.severity == self.severity,
            d.code == self.code,
            d.message == self.message,
            d.labels == self.labels,
            d.help matches Some(h) && h@ == help@,
    {
        let mut d = self;
        d.help = Some(help.to_owned());
        d
    }

    /// The same diagnostic with one more labeled span at the end.
    pub fn with_label(self, span: Span, message: &str) -> (d: DaihonDiagnostic)
        ensures
            d.severity == self.severity,
            d.code == self.code,
            d.message == self.message,
            d.help == self.help,
            d.labels@.len() == self.labels@.len() + 1,
            d.labels@.take(self.labels@.len() as int) == self.labels@,
            d.labels@.last().span == span,
            d.labels@.last().message matches Some(m) && m@ == message@,
    {
        let mut d = self;
        d.labels.push(DiagnosticLabel { span, message: Some(message.to_owned()) });
        proof {
            assert(d.labels@.take(self.labels@.len() as int) =~= self.labels@);
        }
        d
    }
}

/// An error raised while running a Daihon script.
#[derive(Debug)]
pub struct DaihonRuntimeError {
    pub diagnostic: Box<DaihonDiagnostic>,
    pub message: String,
}

impl DaihonRuntimeError {
    /// An error diagnostic with the given code, message and span.
    pub fn new(code: &str, message: &str, span: Span) -> (e: DaihonRuntimeError)
        ensures
            e.message@ == message@,
            e.diagnostic.severity == Severity::Error,
            e.diagnostic.code@ == code@,
            e.diagnostic.message@ == message@,
            e.diagnostic.labels@.len() == 1,
            e.diagnostic.labels@[0].span == span,
            e.diagnostic.labels@[0].message is None,
            e.diagnostic.help is None,
    {
        let diagnostic = DaihonDiagnostic::error(code, message, span);
        DaihonRuntimeError { diagnostic: Box::new(diagnostic), message: message.to_owned() }
    }

    /// Wraps a diagnostic, taking its message as the error's message.
    pub fn from_diagnostic(diagnostic: DaihonDiagnostic) -> (e: DaihonRuntimeError)
        ensures
            *e.diagnostic == diagnostic,
            e.message@ == diagnostic.message@,
    {
        let message = diagnostic.message.clone();
        DaihonRuntimeError { diagnostic: Box::new(diagnostic), message }
    }
}

/// Some diagnostic in the list is an error.
pub open spec fn spec_has_errors(diagnostics: Seq<DaihonDiagnostic>) -> bool {
    exists|i: int| 0 <= i < diagnostics.len() && diagnostics[i].severity == Severity::Error
}

/// Whether any of the diagnostics is an error.
pub fn has_errors(diagnostics: &[DaihonDiagnostic]) -> (r: bool)
    ensures
        r == spec_has_errors(diagnostics@),
{
    let mut i: usize = 0;
    while i < diagnostics.len()
        invariant
            i <= diagnostics@.len(),
            forall|j: int| 0 <= j < i ==> diagnostics@[j].severity != Severity::Error,
        decreases diagnostics@.len() - i,
    {
        match diagnostics[i].severity {
            Severity::Error => {
                return true;
            },
            _ => {},
        }
        i += 1;
    }
    false
}

} // verus!
