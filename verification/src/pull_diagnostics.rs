//! The diagnostics of one document, put together.

use vstd::prelude::*;

use crate::diagnostics::{Diagnostic, DiagnosticView};
use crate::strings::same_text;

verus! {

/// Parse and lint diagnostics in one: lint findings count only where the parser
/// found no fault.
pub open spec fn document_report(parse: Seq<DiagnosticView>, lint: Seq<DiagnosticView>) -> Seq<
    DiagnosticView,
> {
    if parse.len() == 0 {
        lint
    } else {
        parse
    }
}

/// The diagnostics that an analysis publishes for a buffer.
pub fn published_diagnostics(parse: Vec<Diagnostic>, lint: Vec<Diagnostic>) -> (r: Vec<Diagnostic>)
    ensures
        r.deep_view() == document_report(parse.deep_view(), lint.deep_view()),
{
    if parse.len() == 0 {
        lint
    } else {
        parse
    }
}

/// The full report on a document: parse diagnostics, lint findings on a clean
/// tree, and the problems of the include graph that attach to the file.
pub fn document_diagnostics(
    parse: Vec<Diagnostic>,
    lint: Vec<Diagnostic>,
    graph: Vec<Diagnostic>,
) -> (r: Vec<Diagnostic>)
    ensures
        r.deep_view() == document_report(parse.deep_view(), lint.deep_view()) + graph.deep_view(),
{
    let mut graph = graph;
    let mut out = published_diagnostics(parse, lint);
    let ghost both = out.deep_view() + graph.deep_view();
    out.append(&mut graph);
    proof {
        assert(out.deep_view() =~= both);
    }
    out
}

/// Whether what the database has worked out for a file may be used for a buffer:
/// the file is known, and its text is the text of the buffer.
pub fn cache_is_current(held: Option<&str>, text: &str) -> (r: bool)
    ensures
        r == (held is Some && held->0@ == text@),
{
    match held {
        Some(held) => same_text(held, text),
        None => false,
    }
}

/// The answer to a request for diagnostics.
#[derive(Debug)]
pub enum DiagnosticReport {
    /// Nothing has changed since the answer with this id.
    Unchanged { result_id: String },
    /// The diagnostics, and the id of this answer where it can be asked about again.
    Full { id: Option<String>, items: Vec<Diagnostic> },
}

/// What a [`DiagnosticReport`] says.
pub enum ReportView {
    Unchanged { result_id: Seq<char> },
    Full { id: Option<Seq<char>>, items: Seq<DiagnosticView> },
}

impl DeepView for DiagnosticReport {
    type V = ReportView;

    open spec fn deep_view(&self) -> ReportView {
        match *self {
            DiagnosticReport::Unchanged { result_id } => ReportView::Unchanged {
                result_id: result_id@,
            },
            DiagnosticReport::Full { id, items } => ReportView::Full {
                id: id.deep_view(),
                items: items.deep_view(),
            },
        }
    }
}

/// The answer, given the id of the findings and the id that the client holds.
pub fn diagnostic_report(
    items: Vec<Diagnostic>,
    result_id: String,
    previous: Option<&str>,
) -> (r: DiagnosticReport)
    ensures
        r.deep_view() == (if previous is Some && previous->0@ == result_id@ {
            ReportView::Unchanged { result_id: result_id@ }
        } else {
            ReportView::Full { id: Some(result_id@), items: items.deep_view() }
        }),
{
    if let Some(previous) = previous {
        if same_text(previous, result_id.as_str()) {
            return DiagnosticReport::Unchanged { result_id };
        }
    }
    DiagnosticReport::Full { id: Some(result_id), items }
}

/// The answer for a document that is not known: it has no id, so nothing can be
/// asked about it again.
pub fn full_report(items: Vec<Diagnostic>) -> (r: DiagnosticReport)
    ensures
        r.deep_view() == (ReportView::Full { id: None, items: items.deep_view() }),
{
    DiagnosticReport::Full { id: None, items }
}

} // verus!
