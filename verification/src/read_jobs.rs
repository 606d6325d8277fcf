//! Requests that only read, and their answers.
//!
//! A job carries the document that it is about with its tree and names, and what
//! else the request needs; a snapshot holds what is known of the rest.

use vstd::prelude::*;

use crate::call_hierarchy::{prepared, CallHierarchyItem};
use crate::calls::{
    files_wf, incoming, incoming_calls, outgoing, outgoing_calls, prepare_call_hierarchy,
    prepared_anywhere, recs_wf, CallGroup, CallScope, SourceFile, SymbolSites,
};
use crate::code_action::{actions_for, actions_in, CodeAction};
use crate::completion::{
    candidates_ok, compute_completions, items_at, reference_items, resolve_completion,
    resolved_item, CompletionItem, SequenceTables, Visible,
};
use crate::cross_file::{
    cross_file_definitions, cross_file_references, definition_location, gather_sites, gathered,
    law_every_occurrence_has_a_site, law_sites_are_references_and_definitions, site_location, sites_of, symbol_sites, CrossFileSite, OccurrenceRec, SiteView,
};
use crate::definition::{
    compute_definition, defines_function, definition_in, definition_reply, disk_location,
    is_workspace_function, site_locations, sites_in_order, Definition, DefinitionReply,
    DefinitionView, DiskFile,
};
use crate::diagnostics::{Diagnostic, DiagnosticSeverity, DiagnosticView};
use crate::document_link::{compute_document_links, include_link, DocumentLink};
use crate::documentation::{docs_wf, DocText};
use crate::edits::TextEdit;
use crate::folding::{
    code_folds, compute_folding_ranges, documentation_folds, DocSource, FoldingRange,
};
use crate::format::{
    compute_format_edits, compute_format_range_edits, formatted_edits, parse_diagnostic,
    parse_diagnostics_to_lsp, range_formatted_edits, ParseDiagnostic, RangeOutcome,
};
use crate::graph_diagnostics::{
    graph_diagnostics, graph_diagnostics_for, graph_report, is_report_on, GraphSource, ProjectGraph,
};
use crate::hover::{compute_hover, hover_at, FenceNames, Hover};
use crate::index::{Library, PackageIndex};
use crate::lint::{compute_lint_diagnostics, finding_diagnostic, Finding};
use crate::paths::{parent_of, FilePath};
use crate::pull_diagnostics::{
    diagnostic_report, document_diagnostics, document_report, DiagnosticReport, ReportView,
};
use crate::references::{
    compute_document_highlights, compute_references, highlights_of, references_to,
    DocumentHighlight, Location, LocationView,
};
use crate::rename::{
    compute_prepare_rename, compute_rename, invalid_name, renaming, valid_name, DocumentEdits,
};
use crate::rename_files::{
    all_changes, depth_key, handles_ok, moves_of, to_scan, will_rename_files, FileEdits, FileRename, IncludeSite,
    MemberFile, PackageInput, ScanCandidate, ScannedFile,
};
use crate::result_id::{content_hash, content_id};
use crate::search::{first_index, kept, lemma_first_index_is};
use crate::selection::{compute_selection_ranges, linked, selection_at, SelectionRange};
use crate::semantic::{binding_under, name_under, Access, SemanticModel};
use crate::semantic_tokens::{
    compute_semantic_tokens, document_spans, encoded, model_ranges_ok, semantic_tokens_delta,
    SemanticToken, TokensDelta,
};
use crate::signature_help::{compute_signature_help, is_help_at, SignatureHelp};
use crate::sorting::stable_sorted;
use crate::strings::byte_len;
use crate::text::{fits, offset_at, range_at, Position, PositionEncoding, Range};
use crate::tree::SyntaxTree;

verus! {

/// What tells a request apart.
#[derive(Debug)]
pub enum RequestId {
    Number(i32),
    Text(String),
}

/// A document with its tree, its names and its docstrings. One that is not a file
/// has no path.
#[derive(Debug)]
pub struct Document {
    pub uri: String,
    pub path: Option<FilePath>,
    pub text: String,
    pub tree: SyntaxTree,
    pub model: SemanticModel,
    pub docs: Vec<DocText>,
}

impl Document {
    /// Everything in it is valid.
    pub open spec fn wf(&self) -> bool {
        &&& fits(self.text@)
        &&& self.tree.wf()
        &&& self.model.wf()
        &&& model_ranges_ok(self.model)
        &&& docs_wf(self.docs@)
    }
}

/// What is known beside the document: the packages, the workspace's own package,
/// its files with their names, the packages' files that could be read, the include
/// graph, and the tables of completion.
#[derive(Debug)]
pub struct Snapshot<'a> {
    pub library: &'a Library,
    pub workspace: Option<&'a PackageIndex>,
    pub files: &'a Vec<SourceFile>,
    pub symbols: &'a Vec<SymbolSites>,
    pub disk: &'a Vec<SourceFile>,
    pub texts: &'a Vec<DiskFile>,
    pub graph: &'a ProjectGraph,
    pub sources: &'a Vec<GraphSource>,
    pub keywords: &'a Vec<String>,
    pub tables: &'a SequenceTables<'a>,
}

impl<'a> Snapshot<'a> {
    /// Everything in it is valid.
    pub open spec fn wf(&self) -> bool {
        &&& files_wf(self.files@)
        &&& files_wf(self.disk@)
        &&& forall|i: int|
            0 <= i < self.symbols.len() ==> recs_wf(
                (#[trigger] self.symbols@[i]).recs@,
                self.files@,
            )
        &&& forall|i: int| 0 <= i < self.texts.len() ==> fits((#[trigger] self.texts@[i]).text@)
        &&& forall|i: int|
            0 <= i < self.sources.len() ==> fits((#[trigger] self.sources@[i]).text@)
        &&& self.tables.wf()
    }
}

/// The name of the workspace under the cursor, with its occurrences.
#[derive(Debug)]
pub struct WorkspaceSymbol {
    pub path: Vec<String>,
    pub name: String,
    pub is_macro: bool,
    pub recs: Vec<OccurrenceRec>,
}

/// A rename of files, with the members of the workspace and the open buffers that
/// may have to be looked through for it. The handle of each is its place among
/// `sources`.
#[derive(Debug)]
pub struct RenameBatch {
    pub files: Vec<FileRename>,
    pub workspace: Vec<ScanCandidate>,
    pub open_docs: Vec<ScanCandidate>,
    pub sources: Vec<ScannedFile>,
    pub packages: Vec<PackageInput>,
    pub members: Vec<MemberFile>,
}

impl RenameBatch {
    /// The URIs and the texts fit, and every handle is that of a source.
    pub open spec fn wf(&self) -> bool {
        &&& forall|i: int|
            0 <= i < self.files.len() ==> byte_len((#[trigger] self.files@[i]).old_uri@)
                <= i32::MAX && byte_len(self.files@[i].new_uri@) <= i32::MAX
        &&& handles_ok(self.workspace@, self.sources.len() as nat)
        &&& handles_ok(self.open_docs@, self.sources.len() as nat)
        &&& forall|i: int|
            0 <= i < self.sources.len() ==> fits((#[trigger] self.sources@[i]).text@)
        &&& forall|i: int|
            0 <= i < self.packages.len() ==> fits((#[trigger] self.packages@[i]).project.text@)
        &&& forall|i: int| 0 <= i < self.members.len() ==> (#[trigger] self.members@[i]).wf()
    }
}

/// A request that only reads. `T` is the answer of a feature that needs nothing
/// further, such as the symbols of a document.
#[derive(Debug)]
pub enum ReadJob<T> {
    CodeAction { id: RequestId, document: Document, range: Range, findings: Vec<Finding> },
    DocumentDiagnostic {
        id: RequestId,
        document: Document,
        faults: Vec<ParseDiagnostic>,
        findings: Vec<Finding>,
    },
    /// The answer to a request for diagnostics, once they are serialized.
    DiagnosticReport {
        id: RequestId,
        items: Vec<Diagnostic>,
        json: Option<Vec<u8>>,
        previous_result_id: Option<String>,
    },
    Format { id: RequestId, document: Document, formatted: Option<String> },
    FormatRange { id: RequestId, document: Document, outcome: RangeOutcome },
    FoldingRanges { id: RequestId, document: Document, docs: Vec<DocSource> },
    DocumentLinks { id: RequestId, document: Document, includes: Vec<IncludeSite> },
    SelectionRanges { id: RequestId, document: Document, positions: Vec<Position> },
    SemanticTokensFull { id: RequestId, document: Document },
    /// The answer to a request for tokens, once they are serialized.
    SemanticTokensReply { id: RequestId, data: Vec<SemanticToken>, json: Option<Vec<u8>> },
    /// The answer to a request for changed tokens, once they are serialized.
    SemanticTokensDelta {
        id: RequestId,
        data: Vec<SemanticToken>,
        json: Option<Vec<u8>>,
        last_result_id: String,
    },
    Completion { id: RequestId, document: Document, position: Position, visible: Visible },
    CompletionResolve { id: RequestId, completion: CompletionItem },
    Hover {
        id: RequestId,
        document: Document,
        position: Position,
        names: Option<FenceNames>,
    },
    /// `names` is what the names of the document stand for outside the workspace.
    SignatureHelp {
        id: RequestId,
        document: Document,
        position: Position,
        names: SemanticModel,
    },
    Definition {
        id: RequestId,
        document: Document,
        position: Position,
        symbol: Option<WorkspaceSymbol>,
    },
    References {
        id: RequestId,
        document: Document,
        position: Position,
        include_declaration: bool,
        recs: Option<Vec<OccurrenceRec>>,
    },
    DocumentHighlight { id: RequestId, document: Document, position: Position },
    PrepareRename {
        id: RequestId,
        document: Document,
        position: Position,
        workspace_symbol: bool,
    },
    Rename {
        id: RequestId,
        document: Document,
        position: Position,
        new_name: String,
        recs: Option<Vec<OccurrenceRec>>,
    },
    WillRenameFiles { id: RequestId, batch: RenameBatch },
    PrepareCallHierarchy {
        id: RequestId,
        document: Document,
        position: Position,
        recs: Option<Vec<OccurrenceRec>>,
    },
    /// `source` is the file of the item, and `names` what its names stand for.
    CallHierarchyIncoming {
        id: RequestId,
        item: CallHierarchyItem,
        source: SourceFile,
        names: SemanticModel,
        recs: Option<Vec<OccurrenceRec>>,
    },
    CallHierarchyOutgoing {
        id: RequestId,
        item: CallHierarchyItem,
        source: SourceFile,
        names: SemanticModel,
    },
    /// A request whose answer is known.
    Given { id: RequestId, answer: T },
}

/// The request that a job is of.
pub open spec fn id_of<T>(job: ReadJob<T>) -> RequestId {
    match job {
        ReadJob::CodeAction { id, .. } => id,
        ReadJob::DocumentDiagnostic { id, .. } => id,
        ReadJob::DiagnosticReport { id, .. } => id,
        ReadJob::Format { id, .. } => id,
        ReadJob::FormatRange { id, .. } => id,
        ReadJob::FoldingRanges { id, .. } => id,
        ReadJob::DocumentLinks { id, .. } => id,
        ReadJob::SelectionRanges { id, .. } => id,
        ReadJob::SemanticTokensFull { id, .. } => id,
        ReadJob::SemanticTokensReply { id, .. } => id,
        ReadJob::SemanticTokensDelta { id, .. } => id,
        ReadJob::Completion { id, .. } => id,
        ReadJob::CompletionResolve { id, .. } => id,
        ReadJob::Hover { id, .. } => id,
        ReadJob::SignatureHelp { id, .. } => id,
        ReadJob::Definition { id, .. } => id,
        ReadJob::References { id, .. } => id,
        ReadJob::DocumentHighlight { id, .. } => id,
        ReadJob::PrepareRename { id, .. } => id,
        ReadJob::Rename { id, .. } => id,
        ReadJob::WillRenameFiles { id, .. } => id,
        ReadJob::PrepareCallHierarchy { id, .. } => id,
        ReadJob::CallHierarchyIncoming { id, .. } => id,
        ReadJob::CallHierarchyOutgoing { id, .. } => id,
        ReadJob::Given { id, .. } => id,
    }
}

impl<T> ReadJob<T> {
    /// The request that the job is of, for a job that cannot be delivered.
    pub fn into_reply_parts(self) -> (r: RequestId)
        ensures
            r == id_of(self),
    {
        match self {
            ReadJob::CodeAction { id, .. } => id,
            ReadJob::DocumentDiagnostic { id, .. } => id,
            ReadJob::DiagnosticReport { id, .. } => id,
            ReadJob::Format { id, .. } => id,
            ReadJob::FormatRange { id, .. } => id,
            ReadJob::FoldingRanges { id, .. } => id,
            ReadJob::DocumentLinks { id, .. } => id,
            ReadJob::SelectionRanges { id, .. } => id,
            ReadJob::SemanticTokensFull { id, .. } => id,
            ReadJob::SemanticTokensReply { id, .. } => id,
            ReadJob::SemanticTokensDelta { id, .. } => id,
            ReadJob::Completion { id, .. } => id,
            ReadJob::CompletionResolve { id, .. } => id,
            ReadJob::Hover { id, .. } => id,
            ReadJob::SignatureHelp { id, .. } => id,
            ReadJob::Definition { id, .. } => id,
            ReadJob::References { id, .. } => id,
            ReadJob::DocumentHighlight { id, .. } => id,
            ReadJob::PrepareRename { id, .. } => id,
            ReadJob::Rename { id, .. } => id,
            ReadJob::WillRenameFiles { id, .. } => id,
            ReadJob::PrepareCallHierarchy { id, .. } => id,
            ReadJob::CallHierarchyIncoming { id, .. } => id,
            ReadJob::CallHierarchyOutgoing { id, .. } => id,
            ReadJob::Given { id, .. } => id,
        }
    }

    /// The document is valid, and so is what comes with it.
    pub open spec fn wf(&self, snapshot: Snapshot) -> bool {
        match *self {
            ReadJob::CodeAction { document, .. } => document.wf(),
            ReadJob::DocumentDiagnostic { document, .. } => document.wf(),
            ReadJob::DiagnosticReport { .. } => true,
            ReadJob::Format { document, .. } => document.wf(),
            ReadJob::FormatRange { document, .. } => document.wf(),
            ReadJob::FoldingRanges { document, docs, .. } => document.wf() && forall|i: int|
                0 <= i < docs.len() ==> (#[trigger] docs@[i]).wf(),
            ReadJob::DocumentLinks { document, .. } => document.wf(),
            ReadJob::SelectionRanges { document, .. } => document.wf(),
            ReadJob::SemanticTokensFull { document, .. } => document.wf(),
            ReadJob::SemanticTokensReply { .. } => true,
            ReadJob::SemanticTokensDelta { .. } => true,
            ReadJob::Completion { document, visible, .. } => document.wf() && candidates_ok(
                document.model,
                visible.values@,
            ) && candidates_ok(document.model, visible.macros@),
            ReadJob::CompletionResolve { .. } => true,
            ReadJob::Hover { document, names, .. } => document.wf() && (names is Some
                ==> names->0.wf(document.model)),
            ReadJob::SignatureHelp { document, names, .. } => document.wf() && names.wf(),
            ReadJob::Definition { document, symbol, .. } => document.wf() && (symbol is Some
                ==> recs_wf(symbol->0.recs@, snapshot.files@)),
            ReadJob::References { document, recs, .. } => document.wf() && (recs is Some
                ==> recs_wf(recs->0@, snapshot.files@)),
            ReadJob::DocumentHighlight { document, .. } => document.wf(),
            ReadJob::PrepareRename { document, .. } => document.wf(),
            ReadJob::Rename { document, recs, .. } => document.wf() && (recs is Some ==> recs_wf(
                recs->0@,
                snapshot.files@,
            )),
            ReadJob::WillRenameFiles { batch, .. } => batch.wf(),
            ReadJob::PrepareCallHierarchy { document, recs, .. } => document.wf() && (recs is Some
                ==> recs_wf(recs->0@, snapshot.files@)),
            ReadJob::CallHierarchyIncoming { source, names, .. } => source.wf() && names.wf(),
            ReadJob::CallHierarchyOutgoing { source, names, .. } => source.wf() && names.wf(),
            ReadJob::Given { .. } => true,
        }
    }
}

/// The answer to a request.
#[derive(Debug)]
pub enum ReadAnswer<T> {
    Actions(Vec<CodeAction>),
    /// Diagnostics, which are answered once they are serialized.
    Diagnostics(Vec<Diagnostic>),
    Report(DiagnosticReport),
    Edits(Option<Vec<TextEdit>>),
    Folds(Vec<FoldingRange>),
    Links(Vec<DocumentLink>),
    Selections(Vec<SelectionRange>),
    /// Tokens, which are answered once they are serialized.
    Tokens(Vec<SemanticToken>),
    /// Tokens with the id of what they say.
    NumberedTokens { result_id: String, data: Vec<SemanticToken> },
    Changes(TokensDelta),
    Completions(Vec<CompletionItem>),
    Completed(CompletionItem),
    Hovered(Option<Hover>),
    Signatures(Option<SignatureHelp>),
    Defined(DefinitionReply),
    Locations(Option<Vec<Location>>),
    Highlights(Option<Vec<DocumentHighlight>>),
    Place(Option<Range>),
    Renamed(Option<Vec<DocumentEdits>>),
    /// An error of the request: its parameters are invalid.
    InvalidParams(String),
    FilesRenamed(Option<Vec<FileEdits>>),
    CallItem(Option<CallHierarchyItem>),
    Calls(Option<Vec<CallGroup>>),
    Given(T),
}

/// The diagnostics of a document.
pub open spec fn document_items(
    document: Document,
    faults: Seq<ParseDiagnostic>,
    findings: Seq<Finding>,
    snapshot: Snapshot,
    encoding: PositionEncoding,
) -> Seq<DiagnosticView> {
    let s = document.text@;
    let graph = match document.path {
        Some(path) => {
            let reports = graph_report(*snapshot.graph, snapshot.sources@, encoding);
            let at = first_index(reports, is_report_on(path.deep_view()));
            if at < reports.len() {
                reports[at].diagnostics
            } else {
                Seq::empty()
            }
        },
        None => Seq::empty(),
    };
    document_report(
        Seq::new(faults.len(), |i: int| parse_diagnostic(s, faults[i], encoding)),
        if faults.len() == 0 {
            Seq::new(findings.len(), |i: int| finding_diagnostic(s, findings[i], encoding))
        } else {
            Seq::empty()
        },
    ) + graph
}

/// The locations of a definition: those of a function of the workspace across its
/// files, or else those that the document leads to.
pub open spec fn locations_of(
    document: Document,
    position: Position,
    symbol: Option<WorkspaceSymbol>,
    snapshot: Snapshot,
    encoding: PositionEncoding,
) -> Seq<LocationView> {
    let s = document.text@;
    let across = match symbol {
        Some(symbol) => if defines_function(
            snapshot.workspace,
            symbol.path.deep_view(),
            symbol.name@,
            symbol.is_macro,
        ) {
            kept(gathered(symbol.recs@, snapshot.files@, encoding), definition_location())
        } else {
            Seq::empty()
        },
        None => Seq::empty(),
    };
    if across.len() > 0 {
        across
    } else {
        match definition_in(
            s,
            document.model,
            *snapshot.library,
            snapshot.workspace,
            document.docs@,
            document.uri@,
            offset_at(s, position, encoding) as u32,
            encoding,
        ) {
            DefinitionView::Here(locations) => locations,
            DefinitionView::OnDisk(sites) => kept(
                sites_in_order(sites),
                disk_location(snapshot.texts@, encoding),
            ),
        }
    }
}

/// Whether an answer is that of a number of locations.
pub open spec fn is_reply_of(reply: DefinitionReply, locations: Seq<LocationView>) -> bool {
    match reply {
        DefinitionReply::Nothing => locations.len() == 0,
        DefinitionReply::Scalar(location) => locations.len() == 1 && location.deep_view()
            == locations[0],
        DefinitionReply::Several(all) => locations.len() > 1 && all.deep_view() == locations,
    }
}

/// The references to a name: those of a name of the workspace across its files, or
/// else those within the document.
pub open spec fn references_of(
    document: Document,
    position: Position,
    include_declaration: bool,
    sites: Seq<SiteView>,
    encoding: PositionEncoding,
) -> Option<Seq<LocationView>> {
    let s = document.text@;
    if sites.len() > 0 {
        Some(kept(sites, site_location(include_declaration)))
    } else {
        match binding_under(document.model, offset_at(s, position, encoding) as u32) {
            Some(id) => Some(
                references_to(s, document.model, document.uri@, id, include_declaration, encoding),
            ),
            None => None,
        }
    }
}

/// The directory that relative paths in a document start from.
pub open spec fn base_of(document: Document) -> Option<Seq<Seq<char>>> {
    match document.path {
        Some(path) => parent_of(path.deep_view()),
        None => None,
    }
}

/// What calls from a file are resolved against.
pub open spec fn scope_of<'a>(
    uri: Seq<char>,
    source: SourceFile,
    names: SemanticModel,
    snapshot: Snapshot<'a>,
    encoding: PositionEncoding,
    scope: CallScope<'a>,
) -> bool {
    &&& scope.uri@ == uri
    &&& *scope.file == source
    &&& *scope.model == names
    &&& *scope.library == *snapshot.library
    &&& scope.symbols@ == snapshot.symbols@
    &&& scope.files@ == snapshot.files@
    &&& scope.disk@ == snapshot.disk@
    &&& scope.encoding == encoding
}

/// Whether an answer is the one to a request.
pub open spec fn answers<T>(
    answer: ReadAnswer<T>,
    job: ReadJob<T>,
    snapshot: Snapshot,
    encoding: PositionEncoding,
) -> bool {
    match (job, answer) {
        (
            ReadJob::CodeAction { document, range, findings, .. },
            ReadAnswer::Actions(actions),
        ) => actions.deep_view() == actions_in(
            document.text@,
            findings@,
            document.uri@,
            range,
            encoding,
        ),
        (
            ReadJob::DocumentDiagnostic { document, faults, findings, .. },
            ReadAnswer::Diagnostics(items),
        ) => items.deep_view() == document_items(
            document,
            faults@,
            findings@,
            snapshot,
            encoding,
        ),
        (
            ReadJob::DiagnosticReport { items, json, previous_result_id, .. },
            ReadAnswer::Report(report),
        ) => {
            let result_id = content_id(
                match json {
                    Some(bytes) => Some(bytes@),
                    None => None,
                },
            );
            report.deep_view() == (if previous_result_id is Some && previous_result_id->0@
                == result_id {
                ReportView::Unchanged { result_id }
            } else {
                ReportView::Full { id: Some(result_id), items: items.deep_view() }
            })
        },
        (ReadJob::Format { document, formatted, .. }, ReadAnswer::Edits(edits)) => {
            &&& edits is Some <==> formatted is Some
            &&& edits is Some ==> edits->0.deep_view() == formatted_edits(
                document.text@,
                formatted->0@,
                encoding,
            )
        },
        (
            ReadJob::FormatRange { document, outcome, .. },
            ReadAnswer::Edits(edits),
        ) => edits.deep_view() == match outcome {
            RangeOutcome::Rejected => None,
            RangeOutcome::Nothing => Some(Seq::empty()),
            RangeOutcome::Formatted(f) => Some(
                range_formatted_edits(
                    document.text@,
                    f.range.start as int,
                    f.range.end as int,
                    f.text@,
                    encoding,
                ),
            ),
        },
        (ReadJob::FoldingRanges { document, docs, .. }, ReadAnswer::Folds(folds)) => folds@
            == code_folds(document.text@, document.tree@) + documentation_folds(
            document.text@,
            docs@,
        ),
        (
            ReadJob::DocumentLinks { document, includes, .. },
            ReadAnswer::Links(links),
        ) => links.deep_view() == kept(
            includes@,
            include_link(document.text@, base_of(document), encoding),
        ),
        (ReadJob::SelectionRanges { document, positions, .. }, ReadAnswer::Selections(ranges)) => {
            &&& ranges.len() == positions.len()
            &&& forall|i: int|
                0 <= i < ranges.len() ==> linked(#[trigger] ranges@[i]) == selection_at(
                    document.text@,
                    document.tree@,
                    positions@[i],
                    encoding,
                )
        },
        (ReadJob::SemanticTokensFull { document, .. }, ReadAnswer::Tokens(tokens)) => tokens@
            == encoded(
            crate::semantic_tokens::places(
                document.text@,
                document_spans(
                    document.text@,
                    document.tree@,
                    document.model,
                    *snapshot.library,
                    snapshot.workspace,
                ),
                encoding,
            ),
        ),
        (
            ReadJob::SemanticTokensReply { data, json, .. },
            ReadAnswer::NumberedTokens { result_id, data: tokens },
        ) => tokens@ == data@ && result_id@ == content_id(
            match json {
                Some(bytes) => Some(bytes@),
                None => None,
            },
        ),
        (
            ReadJob::SemanticTokensDelta { data, json, last_result_id, .. },
            ReadAnswer::Changes(changes),
        ) => {
            let id = content_id(
                match json {
                    Some(bytes) => Some(bytes@),
                    None => None,
                },
            );
            match changes {
                TokensDelta::Unchanged { result_id } => last_result_id@ == id && result_id@ == id,
                TokensDelta::Full { result_id, data: tokens } => last_result_id@ != id
                    && result_id@ == id && tokens@ == data@,
            }
        },
        (
            ReadJob::Completion { document, position, visible, .. },
            ReadAnswer::Completions(items),
        ) => items.deep_view() == reference_items(
            document.docs@,
            offset_at(document.text@, position, encoding) as u32,
        ) + items_at(
            document.text@,
            document.tree@,
            document.model,
            *snapshot.library,
            visible,
            snapshot.keywords.deep_view(),
            snapshot.tables.latex@,
            snapshot.tables.emoji@,
            offset_at(document.text@, position, encoding) as u32,
            encoding,
        ),
        (
            ReadJob::CompletionResolve { completion, .. },
            ReadAnswer::Completed(resolved),
        ) => resolved.deep_view() == resolved_item(completion.deep_view(), *snapshot.library),
        (ReadJob::Hover { document, position, names, .. }, ReadAnswer::Hovered(hover)) => {
            match hover_at(
                document.model,
                *snapshot.library,
                snapshot.workspace,
                document.docs@,
                match names {
                    Some(names) => Some(&names),
                    None => None,
                },
                document.text@,
                offset_at(document.text@, position, encoding) as u32,
            ) {
                Some((value, range)) => hover is Some && hover->0.value@ == value && hover->0.range
                    == range_at(document.text@, range.start as int, range.end as int, encoding),
                None => hover is None,
            }
        },
        (ReadJob::SignatureHelp { document, position, names, .. }, ReadAnswer::Signatures(help)) =>
            is_help_at(
            help.deep_view(),
            document.text@,
            document.tree@,
            names,
            *snapshot.library,
            offset_at(document.text@, position, encoding) as u32,
        ),
        (
            ReadJob::Definition { document, position, symbol, .. },
            ReadAnswer::Defined(reply),
        ) => is_reply_of(reply, locations_of(document, position, symbol, snapshot, encoding)),
        (
            ReadJob::References { document, position, include_declaration, recs, .. },
            ReadAnswer::Locations(locations),
        ) => locations.deep_view() == references_of(
            document,
            position,
            include_declaration,
            sites_of(recs, snapshot.files@, encoding),
            encoding,
        ),
        (
            ReadJob::DocumentHighlight { document, position, .. },
            ReadAnswer::Highlights(highlights),
        ) => match binding_under(
            document.model,
            offset_at(document.text@, position, encoding) as u32,
        ) {
            Some(id) => highlights is Some && highlights->0@ == highlights_of(
                document.text@,
                document.model,
                id,
                encoding,
            ),
            None => highlights is None,
        },
        (
            ReadJob::PrepareRename { document, position, workspace_symbol, .. },
            ReadAnswer::Place(place),
        ) => {
            let offset = offset_at(document.text@, position, encoding) as u32;
            place == (if workspace_symbol || binding_under(document.model, offset) is Some {
                match name_under(document.model, offset) {
                    Some(range) => Some(
                        range_at(document.text@, range.start as int, range.end as int, encoding),
                    ),
                    None => None,
                }
            } else {
                None
            })
        },
        (
            ReadJob::Rename { document, position, new_name, recs, .. },
            ReadAnswer::Renamed(edits),
        ) => valid_name(new_name@) && edits.deep_view() == renaming(
            document.text@,
            document.model,
            document.uri@,
            offset_at(document.text@, position, encoding) as u32,
            sites_of(recs, snapshot.files@, encoding),
            new_name@,
            encoding,
        ),
        (ReadJob::Rename { new_name, .. }, ReadAnswer::InvalidParams(message)) => !valid_name(
            new_name@,
        ) && message@ == invalid_name(new_name@),
        (ReadJob::WillRenameFiles { batch, .. }, ReadAnswer::FilesRenamed(edits)) => {
            let moves = moves_of(batch.files@);
            let changes = all_changes(
                to_scan(batch.workspace@ + batch.open_docs@),
                batch.sources@,
                batch.packages@,
                batch.members@,
                stable_sorted(moves, depth_key()),
                encoding,
            );
            edits.deep_view() == (if moves.len() == 0 || changes.len() == 0 {
                None
            } else {
                Some(changes)
            })
        },
        (
            ReadJob::PrepareCallHierarchy { document, position, recs, .. },
            ReadAnswer::CallItem(item),
        ) => item.deep_view() == prepared_anywhere(
            prepared(
                document.text@,
                document.tree@,
                document.model,
                document.uri@,
                offset_at(document.text@, position, encoding) as u32,
                encoding,
            ),
            recs,
            snapshot.files@,
            encoding,
        ),
        (
            ReadJob::CallHierarchyIncoming { item, source, names, recs, .. },
            ReadAnswer::Calls(calls),
        ) => calls.deep_view() == incoming(
            item.kind,
            item.selection_range.start,
            item.uri@,
            source,
            names,
            recs,
            snapshot.files@,
            encoding,
        ),
        (
            ReadJob::CallHierarchyOutgoing { item, source, names, .. },
            ReadAnswer::Calls(calls),
        ) => exists|scope: CallScope| #[trigger]
            scope_of(item.uri@, source, names, snapshot, encoding, scope) && calls.deep_view()
                == outgoing(item.kind, item.selection_range.start, scope),
        (ReadJob::Given { answer: given, .. }, ReadAnswer::Given(answer)) => answer == given,
        _ => false,
    }
}

fn diagnose(
    document: &Document,
    faults: &Vec<ParseDiagnostic>,
    findings: Vec<Finding>,
    snapshot: &Snapshot,
    encoding: PositionEncoding,
) -> (r: Vec<Diagnostic>)
    requires
        snapshot.wf(),
        document.wf(),
    ensures
        r.deep_view() == document_items(
            *document,
            faults@,
            findings@,
            *snapshot,
            encoding,
        ),
{
    let text = document.text.as_str();
    let parse = parse_diagnostics_to_lsp(faults, text, encoding);
    let lint = compute_lint_diagnostics(text, faults.len() == 0, findings, encoding);
    let graph = match &document.path {
        Some(path) => graph_diagnostics_for(
            graph_diagnostics(snapshot.graph, snapshot.sources, encoding),
            path,
        ),
        None => {
            let none: Vec<Diagnostic> = Vec::new();
            proof {
                assert(none.deep_view() =~= Seq::<DiagnosticView>::empty());
            }
            none
        },
    };
    document_diagnostics(parse, lint, graph)
}

fn find_definition(
    document: &Document,
    position: Position,
    symbol: &Option<WorkspaceSymbol>,
    snapshot: &Snapshot,
    encoding: PositionEncoding,
) -> (r: Vec<Location>)
    requires
        snapshot.wf(),
        document.wf(),
        symbol is Some ==> recs_wf(symbol->0.recs@, snapshot.files@),
    ensures
        r.deep_view() == locations_of(*document, position, *symbol, *snapshot, encoding),
{
    if let Some(symbol) = symbol {
        if is_workspace_function(
            snapshot.workspace,
            &symbol.path,
            symbol.name.as_str(),
            symbol.is_macro,
        ) {
            let sites = gather_sites(&symbol.recs, snapshot.files, encoding);
            let across = cross_file_definitions(&sites);
            if across.len() > 0 {
                return across;
            }
        }
    }
    match compute_definition(
        document.uri.as_str(),
        document.text.as_str(),
        position,
        &document.model,
        snapshot.library,
        snapshot.workspace,
        &document.docs,
        encoding,
    ) {
        Definition::Here(locations) => locations,
        Definition::OnDisk(sites) => site_locations(sites, snapshot.texts, encoding),
    }
}

fn find_references(
    document: &Document,
    position: Position,
    include_declaration: bool,
    sites: &Vec<CrossFileSite>,
    encoding: PositionEncoding,
) -> (r: Option<Vec<Location>>)
    requires
        document.wf(),
    ensures
        r.deep_view() == references_of(
            *document,
            position,
            include_declaration,
            sites.deep_view(),
            encoding,
        ),
{
    if sites.len() > 0 {
        Some(cross_file_references(sites, include_declaration))
    } else {
        compute_references(
            document.uri.as_str(),
            document.text.as_str(),
            position,
            &document.model,
            encoding,
            include_declaration,
        )
    }
}

fn find_links(document: &Document, includes: &Vec<IncludeSite>, encoding: PositionEncoding) -> (r:
    Vec<DocumentLink>)
    requires
        document.wf(),
    ensures
        r.deep_view() == kept(
            includes@,
            include_link(document.text@, base_of(*document), encoding),
        ),
{
    let base = match &document.path {
        Some(path) => path.parent(),
        None => None,
    };
    let text = document.text.as_str();
    match &base {
        Some(base) => compute_document_links(text, Some(base), includes, encoding),
        None => compute_document_links(text, None, includes, encoding),
    }
}

/// Answers `job` from `snapshot`.
pub fn run_read<T>(snapshot: &Snapshot, job: ReadJob<T>, encoding: PositionEncoding) -> (r: (
    RequestId,
    ReadAnswer<T>,
))
    requires
        snapshot.wf(),
        job.wf(*snapshot),
    ensures
        r.0 == id_of(job),
        answers(r.1, job, *snapshot, encoding),
{
    match job {
        ReadJob::CodeAction { id, document, range, findings } => {
            let actions = actions_for(
                &findings,
                document.uri.as_str(),
                document.text.as_str(),
                range,
                encoding,
            );
            (id, ReadAnswer::Actions(actions))
        },
        ReadJob::DocumentDiagnostic { id, document, faults, findings } => {
            let items = diagnose(&document, &faults, findings, snapshot, encoding);
            (id, ReadAnswer::Diagnostics(items))
        },
        ReadJob::DiagnosticReport { id, items, json, previous_result_id } => {
            let result_id = match &json {
                Some(bytes) => content_hash(Some(bytes)),
                None => content_hash(None),
            };
            let report = match &previous_result_id {
                Some(previous) => diagnostic_report(items, result_id, Some(previous.as_str())),
                None => diagnostic_report(items, result_id, None),
            };
            (id, ReadAnswer::Report(report))
        },
        ReadJob::Format { id, document, formatted } => {
            let edits = compute_format_edits(document.text.as_str(), formatted, encoding);
            (id, ReadAnswer::Edits(edits))
        },
        ReadJob::FormatRange { id, document, outcome } => {
            let edits = compute_format_range_edits(document.text.as_str(), outcome, encoding);
            (id, ReadAnswer::Edits(edits))
        },
        ReadJob::FoldingRanges { id, document, docs } => {
            let folds = compute_folding_ranges(document.text.as_str(), &document.tree, &docs);
            (id, ReadAnswer::Folds(folds))
        },
        ReadJob::DocumentLinks { id, document, includes } => {
            let links = find_links(&document, &includes, encoding);
            (id, ReadAnswer::Links(links))
        },
        ReadJob::SelectionRanges { id, document, positions } => {
            let ranges = compute_selection_ranges(
                document.text.as_str(),
                &document.tree,
                &positions,
                encoding,
            );
            (id, ReadAnswer::Selections(ranges))
        },
        ReadJob::SemanticTokensFull { id, document } => {
            let tokens = compute_semantic_tokens(
                document.text.as_str(),
                &document.tree,
                &document.model,
                snapshot.library,
                snapshot.workspace,
                encoding,
            );
            (id, ReadAnswer::Tokens(tokens))
        },
        ReadJob::SemanticTokensReply { id, data, json } => {
            let result_id = match &json {
                Some(bytes) => content_hash(Some(bytes)),
                None => content_hash(None),
            };
            (id, ReadAnswer::NumberedTokens { result_id, data })
        },
        ReadJob::SemanticTokensDelta { id, data, json, last_result_id } => {
            let result_id = match &json {
                Some(bytes) => content_hash(Some(bytes)),
                None => content_hash(None),
            };
            let changes = semantic_tokens_delta(data, result_id, last_result_id.as_str());
            (id, ReadAnswer::Changes(changes))
        },
        ReadJob::Completion { id, document, position, visible } => {
            let items = compute_completions(
                document.text.as_str(),
                position,
                &document.tree,
                &document.model,
                snapshot.library,
                &visible,
                snapshot.keywords,
                snapshot.tables,
                &document.docs,
                encoding,
            );
            (id, ReadAnswer::Completions(items))
        },
        ReadJob::CompletionResolve { id, completion } => {
            let resolved = resolve_completion(snapshot.library, completion);
            (id, ReadAnswer::Completed(resolved))
        },
        ReadJob::Hover { id, document, position, names } => {
            let inner = match &names {
                Some(names) => Some(names),
                None => None,
            };
            let hover = compute_hover(
                document.text.as_str(),
                position,
                &document.model,
                snapshot.library,
                snapshot.workspace,
                &document.docs,
                inner,
                encoding,
            );
            (id, ReadAnswer::Hovered(hover))
        },
        ReadJob::SignatureHelp { id, document, position, names } => {
            let help = compute_signature_help(
                document.text.as_str(),
                position,
                &document.tree,
                &names,
                snapshot.library,
                encoding,
            );
            (id, ReadAnswer::Signatures(help))
        },
        ReadJob::Definition { id, document, position, symbol } => {
            let locations = find_definition(&document, position, &symbol, snapshot, encoding);
            (id, ReadAnswer::Defined(definition_reply(locations)))
        },
        ReadJob::References { id, document, position, include_declaration, recs } => {
            let sites = symbol_sites(&recs, snapshot.files, encoding);
            let locations = find_references(
                &document,
                position,
                include_declaration,
                &sites,
                encoding,
            );
            (id, ReadAnswer::Locations(locations))
        },
        ReadJob::DocumentHighlight { id, document, position } => {
            let highlights = compute_document_highlights(
                document.text.as_str(),
                position,
                &document.model,
                encoding,
            );
            (id, ReadAnswer::Highlights(highlights))
        },
        ReadJob::PrepareRename { id, document, position, workspace_symbol } => {
            let place = compute_prepare_rename(
                document.text.as_str(),
                position,
                &document.model,
                workspace_symbol,
                encoding,
            );
            (id, ReadAnswer::Place(place))
        },
        ReadJob::Rename { id, document, position, new_name, recs } => {
            let sites = symbol_sites(&recs, snapshot.files, encoding);
            match compute_rename(
                document.uri.as_str(),
                document.text.as_str(),
                position,
                new_name.as_str(),
                &document.model,
                &sites,
                encoding,
            ) {
                Ok(edits) => (id, ReadAnswer::Renamed(edits)),
                Err(message) => (id, ReadAnswer::InvalidParams(message)),
            }
        },
        ReadJob::WillRenameFiles { id, batch } => {
            let edits = will_rename_files(
                &batch.files,
                &batch.workspace,
                &batch.open_docs,
                &batch.sources,
                &batch.packages,
                &batch.members,
                encoding,
            );
            (id, ReadAnswer::FilesRenamed(edits))
        },
        ReadJob::PrepareCallHierarchy { id, document, position, recs } => {
            let item = prepare_call_hierarchy(
                document.uri.as_str(),
                document.text.as_str(),
                position,
                &document.tree,
                &document.model,
                &recs,
                snapshot.files,
                encoding,
            );
            (id, ReadAnswer::CallItem(item))
        },
        ReadJob::CallHierarchyIncoming { id, item, source, names, recs } => {
            let calls = incoming_calls(
                item.kind,
                item.selection_range.start,
                item.uri.as_str(),
                &source,
                &names,
                &recs,
                snapshot.files,
                encoding,
            );
            (id, ReadAnswer::Calls(calls))
        },
        ReadJob::CallHierarchyOutgoing { id, item, source, names } => {
            let scope = CallScope {
                uri: item.uri.as_str(),
                file: &source,
                model: &names,
                library: snapshot.library,
                symbols: snapshot.symbols,
                files: snapshot.files,
                disk: snapshot.disk,
                encoding,
            };
            let calls = outgoing_calls(item.kind, item.selection_range.start, &scope);
            proof {
                assert(scope_of(item.uri@, source, names, *snapshot, encoding, scope));
            }
            (id, ReadAnswer::Calls(calls))
        },
        ReadJob::Given { id, answer } => (id, ReadAnswer::Given(answer)),
    }
}

/// What becomes of an answer once it is there.
#[derive(Clone, Copy, Debug, PartialEq, Eq, Structural)]
pub enum ReplyGate {
    /// It is sent.
    Send,
    /// The document has changed since: the client is told so instead.
    ContentModified,
    /// The request was cancelled: nothing is sent.
    Drop,
}

/// What becomes of an answer: nothing where its request was cancelled, and the
/// answer itself only where the document still has the version that it was made
/// from. `asked` is that version, for a request about a document, and `current` the
/// version that the document has now.
pub fn gate_reply(asked: Option<i32>, current: Option<i32>, cancelled: bool) -> (r: ReplyGate)
    ensures
        r == ReplyGate::Drop <==> cancelled,
        r == ReplyGate::ContentModified <==> !cancelled && asked is Some && current != asked,
{
    if cancelled {
        return ReplyGate::Drop;
    }
    match asked {
        None => ReplyGate::Send,
        Some(version) => match current {
            Some(now) => if now == version {
                ReplyGate::Send
            } else {
                ReplyGate::ContentModified
            },
            None => ReplyGate::ContentModified,
        },
    }
}

/// The diagnostics of a document are the faults of the parser, or, where it found none,
/// all findings of the linter; behind them stand all problems of the include graph that
/// are reported on its file.
pub proof fn law_diagnostics_are_faults_or_findings(
    document: Document,
    faults: Seq<ParseDiagnostic>,
    findings: Seq<Finding>,
    snapshot: Snapshot,
    encoding: PositionEncoding,
    i: int,
    r: int,
)
    ensures
        ({
            let s = document.text@;
            let items = document_items(document, faults, findings, snapshot, encoding);
            let own = if faults.len() > 0 {
                faults.len()
            } else {
                findings.len()
            };
            let reports = graph_report(*snapshot.graph, snapshot.sources@, encoding);
            &&& items.len() >= own
            &&& 0 <= i < faults.len() ==> items[i].message == faults[i].message@
                && items[i].severity == DiagnosticSeverity::Error && items[i].source == "fatou"@
                && items[i].range == range_at(
                s,
                faults[i].start as int,
                faults[i].end as int,
                encoding,
            )
            &&& faults.len() == 0 && 0 <= i < findings.len() ==> items[i] == finding_diagnostic(
                s,
                findings[i],
                encoding,
            )
            &&& document.path is None ==> items.len() == own
            &&& document.path is Some && 0 <= r < reports.len() && reports[r].path
                == document.path->0.deep_view() && (forall|k: int|
                0 <= k < r ==> (#[trigger] reports[k]).path != document.path->0.deep_view())
                ==> items.len() == own + reports[r].diagnostics.len() && items.skip(own as int)
                == reports[r].diagnostics
        }),
{
    let reports = graph_report(*snapshot.graph, snapshot.sources@, encoding);
    let items = document_items(document, faults, findings, snapshot, encoding);
    if document.path is Some {
        let path = document.path->0.deep_view();
        if 0 <= r < reports.len() && reports[r].path == path && (forall|k: int|
            0 <= k < r ==> (#[trigger] reports[k]).path != path) {
            assert forall|k: int| 0 <= k < r implies !is_report_on(path)(#[trigger] reports[k]) by {}
            lemma_first_index_is(reports, is_report_on(path), r);
            let own = if faults.len() > 0 {
                faults.len()
            } else {
                findings.len()
            };
            assert(items.skip(own as int) =~= reports[r].diagnostics);
        }
    }
}

/// A request for references answers with all sites of a name of the workspace, and with
/// those of the file alone only where there is none.
pub proof fn law_workspace_references_come_first(
    document: Document,
    position: Position,
    include_declaration: bool,
    sites: Seq<SiteView>,
    encoding: PositionEncoding,
)
    ensures
        ({
            let found = references_of(document, position, include_declaration, sites, encoding);
            let offset = offset_at(document.text@, position, encoding) as u32;
            let id = binding_under(document.model, offset);
            &&& sites.len() > 0 ==> found == Some(kept(sites, site_location(include_declaration)))
            &&& sites.len() == 0 && id is Some ==> found == Some(
                references_to(
                    document.text@,
                    document.model,
                    document.uri@,
                    id->0,
                    include_declaration,
                    encoding,
                ),
            )
            &&& sites.len() == 0 && id is None ==> found is None
        }),
{
}

/// A function that the workspace's package defines is found at all its definitions across
/// the files, where any of them can be shown; any other name where the document leads.
pub proof fn law_workspace_functions_are_defined_across_files(
    document: Document,
    position: Position,
    symbol: WorkspaceSymbol,
    snapshot: Snapshot,
    encoding: PositionEncoding,
    k: int,
)
    requires
        defines_function(
            snapshot.workspace,
            symbol.path.deep_view(),
            symbol.name@,
            symbol.is_macro,
        ),
        0 <= k < symbol.recs.len(),
        symbol.recs@[k].is_def || symbol.recs@[k].access == Access::Write,
        snapshot.files@[symbol.recs@[k].file as int].uri is Some,
    ensures
        locations_of(document, position, Some(symbol), snapshot, encoding).contains(
            LocationView {
                uri: snapshot.files@[symbol.recs@[k].file as int].uri->0@,
                range: range_at(
                    snapshot.files@[symbol.recs@[k].file as int].text@,
                    symbol.recs@[k].range.start as int,
                    symbol.recs@[k].range.end as int,
                    encoding,
                ),
            },
        ),
{
    let files = snapshot.files@;
    let sites = gathered(symbol.recs@, files, encoding);
    law_every_occurrence_has_a_site(symbol.recs@, files, encoding, k);
    let rec = symbol.recs@[k];
    let site = SiteView {
        uri: files[rec.file as int].uri->0@,
        range: range_at(
            files[rec.file as int].text@,
            rec.range.start as int,
            rec.range.end as int,
            encoding,
        ),
        access: rec.access,
        is_def: rec.is_def,
    };
    assert(sites.contains(site));
    let i = choose|i: int| 0 <= i < sites.len() && sites[i] == site;
    law_sites_are_references_and_definitions(sites, true, i);
}

} // verus!
