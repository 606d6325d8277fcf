//! Diagnostics as they go out to the client.

use vstd::prelude::*;

use crate::text::Range;

verus! {

/// How serious a diagnostic is.
#[derive(Clone, Copy, Debug, PartialEq, Eq, Structural)]
pub enum DiagnosticSeverity {
    Error,
    Warning,
    Information,
    Hint,
}

/// One finding shown in a document.
#[derive(Debug)]
pub struct Diagnostic {
    pub range: Range,
    pub severity: DiagnosticSeverity,
    /// The rule or check behind the finding, where it has a name.
    pub code: Option<String>,
    pub source: String,
    pub message: String,
    /// Whether a client may fade the range as dead code.
    pub unnecessary: bool,
}

/// What a [`Diagnostic`] says.
pub struct DiagnosticView {
    pub range: Range,
    pub severity: DiagnosticSeverity,
    pub code: Option<Seq<char>>,
    pub source: Seq<char>,
    pub message: Seq<char>,
    pub unnecessary: bool,
}

impl DeepView for Diagnostic {
    type V = DiagnosticView;

    open spec fn deep_view(&self) -> DiagnosticView {
        DiagnosticView {
            range: self.range,
            severity: self.severity,
            code: self.code.deep_view(),
            source: self.source@,
            message: self.message@,
            unnecessary: self.unnecessary,
        }
    }
}

} // verus!
