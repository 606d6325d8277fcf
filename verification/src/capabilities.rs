//! What the client can do, and what the server says that it can do.

use vstd::prelude::*;

use crate::code_action::CodeActionKind;
use crate::semantic_tokens::{legend, legend_names};
use crate::strings::holds_text;
use crate::text::PositionEncoding;

verus! {

/// The client's general capabilities.
#[derive(Debug)]
pub struct GeneralCapabilities {
    pub position_encodings: Option<Vec<String>>,
}

/// The client's capabilities for one document: whether it pulls diagnostics.
#[derive(Debug)]
pub struct TextDocumentCapabilities {
    pub diagnostic: Option<DiagnosticCapability>,
}

/// That the client pulls diagnostics.
#[derive(Debug)]
pub struct DiagnosticCapability {
    pub dynamic_registration: Option<bool>,
}

/// Whether the client can be told to ask again.
#[derive(Debug)]
pub struct RefreshCapability {
    pub refresh_support: Option<bool>,
}

/// Whether the client takes registrations of file watchers.
#[derive(Debug)]
pub struct WatchedFilesCapability {
    pub dynamic_registration: Option<bool>,
}

/// The client's capabilities for the workspace.
#[derive(Debug)]
pub struct WorkspaceCapabilities {
    pub diagnostic: Option<RefreshCapability>,
    pub inlay_hint: Option<RefreshCapability>,
    pub did_change_watched_files: Option<WatchedFilesCapability>,
}

/// The client's capabilities for its window.
#[derive(Debug)]
pub struct WindowCapabilities {
    pub work_done_progress: Option<bool>,
}

/// What the client can do, as far as the server asks.
#[derive(Debug)]
pub struct ClientCapabilities {
    pub general: Option<GeneralCapabilities>,
    pub text_document: Option<TextDocumentCapabilities>,
    pub workspace: Option<WorkspaceCapabilities>,
    pub window: Option<WindowCapabilities>,
}

/// Whether the client pulls diagnostics.
pub fn supports_pull_diagnostics(capabilities: &ClientCapabilities) -> (r: bool)
    ensures
        r == (capabilities.text_document is Some && capabilities.text_document->0.diagnostic
            is Some),
{
    match &capabilities.text_document {
        Some(text_document) => text_document.diagnostic.is_some(),
        None => false,
    }
}

/// Whether a capability is there and claimed.
pub open spec fn refreshes(capability: Option<RefreshCapability>) -> bool {
    capability is Some && capability->0.refresh_support == Some(true)
}

fn claims(claim: Option<bool>) -> (r: bool)
    ensures
        r == (claim == Some(true)),
{
    match claim {
        Some(claimed) => claimed,
        None => false,
    }
}

/// Whether the client can be told to pull diagnostics again.
pub fn supports_diagnostic_refresh(capabilities: &ClientCapabilities) -> (r: bool)
    ensures
        r == (capabilities.workspace is Some && refreshes(capabilities.workspace->0.diagnostic)),
{
    match &capabilities.workspace {
        Some(workspace) => match &workspace.diagnostic {
            Some(diagnostic) => claims(diagnostic.refresh_support),
            None => false,
        },
        None => false,
    }
}

/// Whether the client can be told to ask for hints again.
pub fn supports_inlay_hint_refresh(capabilities: &ClientCapabilities) -> (r: bool)
    ensures
        r == (capabilities.workspace is Some && refreshes(capabilities.workspace->0.inlay_hint)),
{
    match &capabilities.workspace {
        Some(workspace) => match &workspace.inlay_hint {
            Some(inlay_hint) => claims(inlay_hint.refresh_support),
            None => false,
        },
        None => false,
    }
}

/// Whether the client takes registrations of file watchers.
pub fn supports_watched_files_registration(capabilities: &ClientCapabilities) -> (r: bool)
    ensures
        r == (capabilities.workspace is Some
            && capabilities.workspace->0.did_change_watched_files is Some
            && capabilities.workspace->0.did_change_watched_files->0.dynamic_registration == Some(
            true,
        )),
{
    match &capabilities.workspace {
        Some(workspace) => match &workspace.did_change_watched_files {
            Some(watched) => claims(watched.dynamic_registration),
            None => false,
        },
        None => false,
    }
}

/// Whether the client shows progress that the server begins.
pub fn supports_work_done_progress(capabilities: &ClientCapabilities) -> (r: bool)
    ensures
        r == (capabilities.window is Some && capabilities.window->0.work_done_progress == Some(
            true,
        )),
{
    match &capabilities.window {
        Some(window) => claims(window.work_done_progress),
        None => false,
    }
}

/// Whether the client offers positions in bytes of UTF-8.
pub open spec fn offers_utf8(capabilities: ClientCapabilities) -> bool {
    &&& capabilities.general is Some
    &&& capabilities.general->0.position_encodings is Some
    &&& capabilities.general->0.position_encodings->0.deep_view().contains("utf-8"@)
}

/// The encoding of positions: UTF-8 where the client offers it, or else UTF-16,
/// which every client knows.
pub fn negotiate_position_encoding(capabilities: &ClientCapabilities) -> (r: PositionEncoding)
    ensures
        r == (if offers_utf8(*capabilities) {
            PositionEncoding::Utf8
        } else {
            PositionEncoding::Utf16
        }),
{
    if let Some(general) = &capabilities.general {
        if let Some(offered) = &general.position_encodings {
            if holds_text(offered, "utf-8") {
                return PositionEncoding::Utf8;
            }
        }
    }
    PositionEncoding::Utf16
}

/// How diagnostics are answered.
#[derive(Debug)]
pub struct DiagnosticOptions {
    pub identifier: String,
    pub inter_file_dependencies: bool,
    pub workspace_diagnostics: bool,
}

/// How changes of a document are told.
#[derive(Clone, Copy, Debug, PartialEq, Eq, Structural)]
pub enum TextDocumentSyncKind {
    Full,
    Incremental,
}

/// What the client tells of a document.
#[derive(Clone, Copy, Debug, PartialEq, Eq, Structural)]
pub struct TextDocumentSync {
    pub open_close: bool,
    pub change: TextDocumentSyncKind,
    pub save: bool,
}

/// What a pattern of paths stands for.
#[derive(Clone, Copy, Debug, PartialEq, Eq, Structural)]
pub enum FilePatternKind {
    File,
    Folder,
}

/// Which files an operation is told of.
#[derive(Debug)]
pub struct FileOperationFilter {
    pub scheme: String,
    pub glob: String,
    pub matches: FilePatternKind,
}

/// What a [`FileOperationFilter`] says.
pub struct FilterView {
    pub scheme: Seq<char>,
    pub glob: Seq<char>,
    pub matches: FilePatternKind,
}

impl DeepView for FileOperationFilter {
    type V = FilterView;

    open spec fn deep_view(&self) -> FilterView {
        FilterView { scheme: self.scheme@, glob: self.glob@, matches: self.matches }
    }
}

/// The files whose renames the server wants to know: sources, and folders, which
/// move the sources in them.
pub open spec fn rename_filters() -> Seq<FilterView> {
    seq![
        FilterView { scheme: "file"@, glob: "**/*.jl"@, matches: FilePatternKind::File },
        FilterView { scheme: "file"@, glob: "**"@, matches: FilePatternKind::Folder },
    ]
}

/// The files whose renames the server wants to know.
pub fn rename_file_operations() -> (r: Vec<FileOperationFilter>)
    ensures
        r.deep_view() == rename_filters(),
{
    let r = vec![
        FileOperationFilter {
            scheme: "file".to_owned(),
            glob: "**/*.jl".to_owned(),
            matches: FilePatternKind::File,
        },
        FileOperationFilter {
            scheme: "file".to_owned(),
            glob: "**".to_owned(),
            matches: FilePatternKind::Folder,
        },
    ];
    proof {
        assert(r.deep_view() =~= rename_filters());
    }
    r
}

/// What the server can do.
#[derive(Debug)]
pub struct ServerCapabilities {
    pub diagnostic_provider: Option<DiagnosticOptions>,
    pub position_encoding: PositionEncoding,
    pub text_document_sync: TextDocumentSync,
    pub code_action_kinds: Vec<CodeActionKind>,
    pub document_formatting_provider: bool,
    pub document_range_formatting_provider: bool,
    pub document_symbol_provider: bool,
    pub workspace_symbol_provider: bool,
    /// The characters that open completion.
    pub completion_triggers: Vec<char>,
    pub completion_resolve: bool,
    pub hover_provider: bool,
    pub definition_provider: bool,
    pub references_provider: bool,
    pub document_highlight_provider: bool,
    pub rename_prepare: bool,
    pub call_hierarchy_provider: bool,
    pub type_hierarchy_provider: bool,
    /// The characters that open signature help, and those that ask for it again.
    pub signature_triggers: Vec<char>,
    pub signature_retriggers: Vec<char>,
    pub folding_range_provider: bool,
    /// Whether the targets of links are left open at first.
    pub document_link_resolve: bool,
    pub inlay_hint_resolve: bool,
    pub selection_range_provider: bool,
    pub semantic_token_types: Vec<String>,
    /// Whether tokens can be asked for as the difference from those before.
    pub semantic_tokens_delta: bool,
    pub workspace_folders: bool,
    pub will_rename: Vec<FileOperationFilter>,
    pub did_rename: Vec<FileOperationFilter>,
}

/// What the server can do. Diagnostics are offered for pulling exactly where the
/// client pulls them.
pub fn server_capabilities(encoding: PositionEncoding, pull_diagnostics: bool) -> (r:
    ServerCapabilities)
    ensures
        r.diagnostic_provider is Some <==> pull_diagnostics,
        r.diagnostic_provider is Some ==> {
            let options = r.diagnostic_provider->0;
            options.identifier@ == "fatou"@ && options.inter_file_dependencies
                && !options.workspace_diagnostics
        },
        r.position_encoding == encoding,
        r.text_document_sync == (TextDocumentSync {
            open_close: true,
            change: TextDocumentSyncKind::Incremental,
            save: true,
        }),
        r.code_action_kinds@ == seq![CodeActionKind::QuickFix],
        r.document_formatting_provider,
        r.document_range_formatting_provider,
        r.document_symbol_provider,
        r.workspace_symbol_provider,
        r.completion_triggers@ == seq!['.', '@', '\\'],
        r.completion_resolve,
        r.hover_provider,
        r.definition_provider,
        r.references_provider,
        r.document_highlight_provider,
        r.rename_prepare,
        r.call_hierarchy_provider,
        r.type_hierarchy_provider,
        r.signature_triggers@ == seq!['(', ','],
        r.signature_retriggers@ == seq![','],
        r.folding_range_provider,
        !r.document_link_resolve,
        !r.inlay_hint_resolve,
        r.selection_range_provider,
        r.semantic_token_types.deep_view() == legend_names(),
        r.semantic_tokens_delta,
        r.workspace_folders,
        r.will_rename.deep_view() == rename_filters(),
        r.did_rename.deep_view() == rename_filters(),
{
    let diagnostic_provider = if pull_diagnostics {
        Some(
            DiagnosticOptions {
                identifier: "fatou".to_owned(),
                inter_file_dependencies: true,
                workspace_diagnostics: false,
            },
        )
    } else {
        None
    };
    let code_action_kinds = vec![CodeActionKind::QuickFix];
    let completion_triggers = vec!['.', '@', '\\'];
    let signature_triggers = vec!['(', ','];
    let signature_retriggers = vec![','];
    proof {
        assert(code_action_kinds@ =~= seq![CodeActionKind::QuickFix]);
        assert(completion_triggers@ =~= seq!['.', '@', '\\']);
        assert(signature_triggers@ =~= seq!['(', ',']);
        assert(signature_retriggers@ =~= seq![',']);
    }
    ServerCapabilities {
        diagnostic_provider,
        position_encoding: encoding,
        text_document_sync: TextDocumentSync {
            open_close: true,
            change: TextDocumentSyncKind::Incremental,
            save: true,
        },
        code_action_kinds,
        document_formatting_provider: true,
        document_range_formatting_provider: true,
        document_symbol_provider: true,
        workspace_symbol_provider: true,
        completion_triggers,
        completion_resolve: true,
        hover_provider: true,
        definition_provider: true,
        references_provider: true,
        document_highlight_provider: true,
        rename_prepare: true,
        call_hierarchy_provider: true,
        type_hierarchy_provider: true,
        signature_triggers,
        signature_retriggers,
        folding_range_provider: true,
        document_link_resolve: false,
        inlay_hint_resolve: false,
        selection_range_provider: true,
        semantic_token_types: legend(),
        semantic_tokens_delta: true,
        workspace_folders: true,
        will_rename: rename_file_operations(),
        did_rename: rename_file_operations(),
    }
}

/// Renames are asked for of every Julia source and of every folder, on disk alone.
pub proof fn law_renames_of_sources_and_folders_are_asked_for(i: int)
    ensures
        rename_filters().contains(
            FilterView { scheme: "file"@, glob: "**/*.jl"@, matches: FilePatternKind::File },
        ),
        rename_filters().contains(
            FilterView { scheme: "file"@, glob: "**"@, matches: FilePatternKind::Folder },
        ),
        0 <= i < rename_filters().len() ==> rename_filters()[i].scheme == "file"@,
{
    assert(rename_filters()[0].matches == FilePatternKind::File);
    assert(rename_filters()[1].matches == FilePatternKind::Folder);
}

/// Positions are counted in UTF-8 wherever that is one of the encodings that the client
/// offers; a client that offers none, or says nothing, is not taken to.
pub proof fn law_utf8_has_to_be_offered(capabilities: ClientCapabilities, i: int)
    ensures
        capabilities.general is None ==> !offers_utf8(capabilities),
        capabilities.general is Some && capabilities.general->0.position_encodings is None
            ==> !offers_utf8(capabilities),
        capabilities.general is Some && capabilities.general->0.position_encodings is Some && 0 <= i
            < capabilities.general->0.position_encodings->0.len()
            && capabilities.general->0.position_encodings->0@[i]@ == "utf-8"@ ==> offers_utf8(
            capabilities,
        ),
{
    if capabilities.general is Some && capabilities.general->0.position_encodings is Some {
        let offered = capabilities.general->0.position_encodings->0.deep_view();
        if 0 <= i < offered.len() {
            assert(offered[i] == capabilities.general->0.position_encodings->0@[i]@);
        }
    }
}

/// A client can be told to ask again exactly where it claims so.
pub proof fn law_refreshing_has_to_be_claimed(capability: RefreshCapability)
    ensures
        !refreshes(None),
        refreshes(Some(capability)) <==> capability.refresh_support == Some(true),
{
}

} // verus!
