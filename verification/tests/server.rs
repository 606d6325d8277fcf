//! The session: capabilities, roots, progress, published diagnostics, and the
//! harvester.

use fatou_lsp::capabilities::{
    negotiate_position_encoding, rename_file_operations, server_capabilities,
    supports_diagnostic_refresh, supports_inlay_hint_refresh, supports_pull_diagnostics,
    supports_watched_files_registration, supports_work_done_progress, ClientCapabilities,
    DiagnosticCapability, FilePatternKind, GeneralCapabilities, RefreshCapability,
    TextDocumentCapabilities, WatchedFilesCapability, WindowCapabilities, WorkspaceCapabilities,
};
use fatou_lsp::diagnostics::{Diagnostic, DiagnosticSeverity};
use fatou_lsp::graph_diagnostics::FileDiagnostics;
use fatou_lsp::harvest::{
    collect_environments, owning_package, workspace_roots, DevPackage, HarvestSignal, ResolvedRoot,
    SentIndexes,
};
use fatou_lsp::harvester::{HarvestAction, Harvester};
use fatou_lsp::paths::{absolute_spelling, FilePath};
use fatou_lsp::progress::{HarvestProgress, ProgressMessage};
use fatou_lsp::publish::{publish_findings, FileFindings, Publish};
use fatou_lsp::read_jobs::{gate_reply, ReplyGate};
use fatou_lsp::server::{loop_step, open_session, InitializeParams, LoopAction, LoopEvent};
use fatou_lsp::text::{Position, PositionEncoding, Range, TextRange};
use fatou_lsp::tree::{Element, SyntaxKind, SyntaxTree};
use fatou_lsp::validity::{text_fits, tree_is_valid};

fn path(text: &str) -> FilePath {
    FilePath::parse(text).expect("an absolute path")
}

fn shown(path: &FilePath) -> String {
    absolute_spelling(path).expect("a spelling")
}

// --- Published diagnostics -------------------------------------------------------

fn broken() -> Diagnostic {
    let start = Position { line: 0, character: 0 };
    Diagnostic {
        range: Range { start, end: start },
        severity: DiagnosticSeverity::Error,
        code: None,
        source: "fatou".to_string(),
        message: "broken".to_string(),
        unnecessary: false,
    }
}

fn findings_for(uri: &str) -> FileFindings {
    FileFindings { uri: Some(uri.to_string()), diagnostics: vec![broken()] }
}

fn sends(messages: Vec<Publish>) -> Vec<(String, bool)> {
    messages.into_iter().map(|m| (m.uri, m.diagnostics.is_empty())).collect()
}

#[test]
fn environment_diagnostics_clear_once_when_fixed() {
    let mut published = Vec::new();
    let uri = "file:///work/Project.toml";

    let first = sends(publish_findings(vec![findings_for(uri)], &mut published));
    assert_eq!(first.len(), 1, "{first:?}");
    assert!(!first[0].1, "the finding publishes non-empty");
    assert_eq!(published.len(), 1);

    // Pass two: the problem is gone, so the file is cleared.
    let second = sends(publish_findings(Vec::new(), &mut published));
    assert_eq!(second.len(), 1, "{second:?}");
    assert!(second[0].1, "the clear publishes empty");
    assert_eq!(second[0].0, first[0].0, "the same URI");
    assert!(published.is_empty());

    // Pass three: nothing left to clear.
    let third = publish_findings(Vec::new(), &mut published);
    assert!(third.is_empty(), "a cleared file is not cleared again");
}

#[test]
fn a_file_without_a_uri_is_not_published() {
    let mut published = vec!["file:///work/old.toml".to_string()];
    let unnamed = FileFindings { uri: None, diagnostics: vec![broken()] };
    let messages = sends(publish_findings(
        vec![unnamed, findings_for("file:///work/new.toml")],
        &mut published,
    ));
    assert_eq!(
        messages,
        vec![
            ("file:///work/new.toml".to_string(), false),
            ("file:///work/old.toml".to_string(), true),
        ]
    );
    assert_eq!(published, vec!["file:///work/new.toml".to_string()]);
}

// --- Capabilities ----------------------------------------------------------------

fn no_capabilities() -> ClientCapabilities {
    ClientCapabilities { general: None, text_document: None, workspace: None, window: None }
}

fn no_workspace_capabilities() -> WorkspaceCapabilities {
    WorkspaceCapabilities { diagnostic: None, inlay_hint: None, did_change_watched_files: None }
}

fn caps_offering(encodings: Option<Vec<&str>>) -> ClientCapabilities {
    ClientCapabilities {
        general: Some(GeneralCapabilities {
            position_encodings: encodings
                .map(|names| names.iter().map(|n| n.to_string()).collect()),
        }),
        ..no_capabilities()
    }
}

#[test]
fn advertises_inlay_hints_without_a_resolve_step() {
    assert!(!server_capabilities(PositionEncoding::Utf16, false).inlay_hint_resolve);
}

#[test]
fn advertises_file_operation_rename_filters() {
    let caps = server_capabilities(PositionEncoding::Utf16, false);
    for filters in [&caps.will_rename, &caps.did_rename, &rename_file_operations()] {
        let described: Vec<(&str, FilePatternKind)> =
            filters.iter().map(|f| (f.glob.as_str(), f.matches)).collect();
        assert_eq!(
            described,
            [("**/*.jl", FilePatternKind::File), ("**", FilePatternKind::Folder)]
        );
        assert!(filters.iter().all(|f| f.scheme == "file"));
    }
}

#[test]
fn negotiation_defaults_to_utf16() {
    assert_eq!(negotiate_position_encoding(&no_capabilities()), PositionEncoding::Utf16);
    assert_eq!(negotiate_position_encoding(&caps_offering(None)), PositionEncoding::Utf16);
    assert_eq!(
        negotiate_position_encoding(&caps_offering(Some(vec!["utf-16", "utf-32"]))),
        PositionEncoding::Utf16
    );
}

#[test]
fn negotiation_prefers_offered_utf8() {
    assert_eq!(
        negotiate_position_encoding(&caps_offering(Some(vec!["utf-16", "utf-8"]))),
        PositionEncoding::Utf8
    );
}

fn roots(folders: Option<&[&str]>, root: Option<&str>) -> Vec<String> {
    let folders = folders.map(|f| f.iter().map(|u| u.to_string()).collect());
    let root = root.map(|u| u.to_string());
    workspace_roots(&folders, &root).iter().map(shown).collect()
}

#[test]
fn workspace_roots_takes_every_folder_in_client_order() {
    assert_eq!(
        roots(Some(&["file:///work/b", "file:///work/a"]), None),
        ["/work/b", "/work/a"]
    );
}

#[test]
fn workspace_roots_dedups_equivalent_folders() {
    assert_eq!(
        roots(Some(&["file:///work/a", "file:///work/./a", "file:///work/b"]), None),
        ["/work/a", "/work/b"]
    );
}

#[test]
fn workspace_roots_falls_back_to_root_uri() {
    assert_eq!(roots(None, Some("file:///work/a")), ["/work/a"]);
    // Folders, when present, win over the root; an empty folder list falls back.
    assert_eq!(roots(Some(&["file:///work/b"]), Some("file:///work/a")), ["/work/b"]);
    assert_eq!(roots(Some(&[]), Some("file:///work/a")), ["/work/a"]);
}

#[test]
fn no_folders_yields_no_roots() {
    assert!(roots(None, None).is_empty());
    assert!(roots(Some(&["untitled:x"]), None).is_empty());
}

#[test]
fn pull_diagnostics_require_the_client_capability() {
    assert!(!supports_pull_diagnostics(&no_capabilities()));
    let caps = ClientCapabilities {
        text_document: Some(TextDocumentCapabilities {
            diagnostic: Some(DiagnosticCapability { dynamic_registration: None }),
        }),
        ..no_capabilities()
    };
    assert!(supports_pull_diagnostics(&caps));

    // The provider is advertised exactly when the client pulls.
    let pulling = server_capabilities(PositionEncoding::Utf16, true);
    assert!(pulling.diagnostic_provider.is_some());
    assert!(server_capabilities(PositionEncoding::Utf16, false).diagnostic_provider.is_none());
}

#[test]
fn type_hierarchy_capability_is_injected_into_the_json() {
    let capabilities = server_capabilities(PositionEncoding::Utf16, false);
    assert!(capabilities.type_hierarchy_provider);
    assert!(capabilities.call_hierarchy_provider);
}

#[test]
fn diagnostic_refresh_requires_the_client_capability() {
    assert!(!supports_diagnostic_refresh(&no_capabilities()));
    let caps = ClientCapabilities {
        workspace: Some(WorkspaceCapabilities {
            diagnostic: Some(RefreshCapability { refresh_support: Some(true) }),
            ..no_workspace_capabilities()
        }),
        ..no_capabilities()
    };
    assert!(supports_diagnostic_refresh(&caps));
    assert!(!supports_inlay_hint_refresh(&caps));
}

#[test]
fn inlay_hint_refresh_requires_the_client_capability() {
    assert!(!supports_inlay_hint_refresh(&no_capabilities()));
    let caps = ClientCapabilities {
        workspace: Some(WorkspaceCapabilities {
            inlay_hint: Some(RefreshCapability { refresh_support: Some(true) }),
            ..no_workspace_capabilities()
        }),
        ..no_capabilities()
    };
    assert!(supports_inlay_hint_refresh(&caps));
}

fn watching() -> ClientCapabilities {
    ClientCapabilities {
        workspace: Some(WorkspaceCapabilities {
            did_change_watched_files: Some(WatchedFilesCapability {
                dynamic_registration: Some(true),
            }),
            ..no_workspace_capabilities()
        }),
        ..no_capabilities()
    }
}

#[test]
fn watcher_registration_requires_the_client_capability() {
    assert!(!supports_watched_files_registration(&no_capabilities()));
    assert!(supports_watched_files_registration(&watching()));
}

#[test]
fn progress_requires_the_client_capability() {
    assert!(!supports_work_done_progress(&no_capabilities()));
    let caps = ClientCapabilities {
        window: Some(WindowCapabilities { work_done_progress: Some(true) }),
        ..no_capabilities()
    };
    assert!(supports_work_done_progress(&caps));
}

#[test]
fn the_triggers_are_those_of_the_language() {
    let caps = server_capabilities(PositionEncoding::Utf8, true);
    assert_eq!(caps.completion_triggers, ['.', '@', '\\']);
    assert_eq!(caps.signature_triggers, ['(', ',']);
    assert_eq!(caps.signature_retriggers, [',']);
    assert_eq!(caps.position_encoding, PositionEncoding::Utf8);
    assert_eq!(caps.semantic_token_types.len(), 7);
}

#[test]
fn files_are_watched_only_in_a_workspace() {
    let loose = open_session(&InitializeParams {
        capabilities: watching(),
        workspace_folders: None,
        root_uri: None,
    });
    assert!(!loose.register_watchers);
    assert!(loose.push_diagnostics);
    let session = open_session(&InitializeParams {
        capabilities: watching(),
        workspace_folders: Some(vec!["file:///work/a".to_string()]),
        root_uri: None,
    });
    assert!(session.register_watchers);
    assert_eq!(session.roots.len(), 1);
    assert_eq!(session.encoding, PositionEncoding::Utf16);
}

#[test]
fn messages_of_the_client_come_first() {
    assert_eq!(loop_step(LoopEvent::ClientWaiting), LoopAction::HandleClient);
    assert_eq!(loop_step(LoopEvent::ClientIdle), LoopAction::Wait);
    assert_eq!(loop_step(LoopEvent::ClientArrived), LoopAction::HandleClient);
    assert_eq!(loop_step(LoopEvent::OutboundArrived), LoopAction::HandleOutbound);
    assert_eq!(loop_step(LoopEvent::Handled), LoopAction::Poll);
    assert_eq!(loop_step(LoopEvent::ShutdownHandled), LoopAction::Stop);
    assert_eq!(loop_step(LoopEvent::Disconnected), LoopAction::Stop);
}

// --- Progress --------------------------------------------------------------------

#[test]
fn disabled_reporter_sends_nothing() {
    let mut progress = HarvestProgress::new(false);
    assert!(progress.begin("Indexing", "Resolving environment").is_empty());
    assert!(progress.report("Indexing Base and packages").is_none());
    assert!(progress.end("Indexed 0 packages").is_none());
    assert_eq!(progress.next, 0);
    assert_eq!(progress.active, None);
}

#[test]
fn emits_create_then_begin_report_end() {
    let mut progress = HarvestProgress::new(true);
    let begun = progress.begin("Indexing", "Resolving environment");
    let report = progress.report("Indexing Base and packages");
    let end = progress.end("Indexed 3 packages");

    assert_eq!(begun.len(), 2);
    let ProgressMessage::Create { token: created, .. } = &begun[0] else {
        panic!("expected a create request, got {:?}", begun[0]);
    };
    // Then begin/report/end, all carrying the created token.
    let ProgressMessage::Begin { token, title, message } = &begun[1] else {
        panic!("expected a begin, got {:?}", begun[1]);
    };
    assert_eq!(token, created);
    assert_eq!(title, "Indexing");
    assert_eq!(message, "Resolving environment");
    assert!(matches!(report, Some(ProgressMessage::Report { token, .. }) if token == *created));
    assert!(matches!(end, Some(ProgressMessage::End { token, .. }) if token == *created));
}

#[test]
fn report_and_end_without_begin_are_noops() {
    let mut progress = HarvestProgress::new(true);
    assert!(progress.report("stray").is_none());
    assert!(progress.end("stray").is_none());
}

#[test]
fn successive_cycles_use_distinct_tokens() {
    let mut progress = HarvestProgress::new(true);
    let token_of = |messages: &[ProgressMessage]| match &messages[0] {
        ProgressMessage::Create { token, .. } => token.clone(),
        other => panic!("expected create request, got {other:?}"),
    };
    let first = token_of(&progress.begin("Indexing", "a"));
    progress.end("a");
    let second = token_of(&progress.begin("Indexing", "b"));
    assert_ne!(first, second);
    assert_eq!(first, "fatou/harvest/0");
}

// --- The harvester ---------------------------------------------------------------

fn report_on(file: &str, message: &str) -> FileDiagnostics {
    let mut diagnostic = broken();
    diagnostic.message = message.to_string();
    FileDiagnostics { path: path(file), diagnostics: vec![diagnostic] }
}

#[test]
fn two_roots_of_one_project_are_one_environment() {
    let found = |file: &str| ResolvedRoot::Found {
        project_file: path(file),
        findings: vec![report_on(file, "found")],
    };
    let environments = collect_environments(vec![
        found("/work/b/Project.toml"),
        ResolvedRoot::Nothing,
        found("/work/b/Project.toml"),
        ResolvedRoot::Failed(report_on("/work/a/Project.toml", "first")),
        ResolvedRoot::Failed(report_on("/work/a/Project.toml", "second")),
    ]);
    assert_eq!(environments.roots, vec![0]);
    let reports: Vec<(String, String)> = environments
        .reports
        .iter()
        .map(|r| (shown(&r.path), r.diagnostics[0].message.clone()))
        .collect();
    assert_eq!(
        reports,
        vec![
            ("/work/a/Project.toml".to_string(), "first".to_string()),
            ("/work/b/Project.toml".to_string(), "found".to_string()),
        ]
    );
}

fn packages() -> Vec<DevPackage> {
    vec![
        DevPackage { name: "Outer".to_string(), root: path("/work") },
        DevPackage { name: "Inner".to_string(), root: path("/work/src/Inner") },
    ]
}

#[test]
fn the_innermost_package_owns_a_file() {
    let owner = |file: &str| owning_package(&packages(), &path(file));
    assert_eq!(owner("/work/src/a.jl"), Some(0));
    assert_eq!(owner("/work/src/Inner/src/b.jl"), Some(1));
    assert_eq!(owner("/work/src/Inner/README.md"), Some(0));
    assert_eq!(owner("/work/test/runtests.jl"), None);
}

#[test]
fn an_index_is_sent_when_it_changes() {
    let mut sent = SentIndexes::new();
    assert!(sent.harvested("A", vec![1]));
    assert!(!sent.harvested("A", vec![1]));
    assert!(sent.harvested("B", vec![1]));
    assert!(sent.harvested("A", vec![2]));
    assert!(!sent.harvested("B", vec![1]));
}

fn names(actions: &[HarvestAction]) -> Vec<String> {
    actions
        .iter()
        .map(|action| match action {
            HarvestAction::Progress(ProgressMessage::Create { .. }) => "create".to_string(),
            HarvestAction::Progress(ProgressMessage::Begin { message, .. }) => {
                format!("begin: {message}")
            }
            HarvestAction::Progress(ProgressMessage::Report { message, .. }) => {
                format!("report: {message}")
            }
            HarvestAction::Progress(ProgressMessage::End { message, .. }) => {
                format!("end: {message}")
            }
            HarvestAction::Publish(message) => format!("publish {}", message.uri),
            HarvestAction::Locate(reports) => format!("locate {}", reports.len()),
            other => format!("{other:?}"),
        })
        .collect()
}

#[test]
fn without_roots_nothing_is_harvested() {
    let mut harvester = Harvester::new(true);
    assert!(harvester.open(&Vec::new()).is_empty());
    assert_eq!(harvester.progress.next, 0);
}

#[test]
fn a_full_pass_resolves_publishes_and_sends() {
    let mut harvester = Harvester::new(true);
    assert_eq!(
        names(&harvester.open(&vec![path("/work")])),
        ["create", "begin: Resolving environment", "Resolve"]
    );
    let resolved = harvester.resolved(vec![ResolvedRoot::Found {
        project_file: path("/work/Project.toml"),
        findings: vec![report_on("/work/Project.toml", "bad")],
    }]);
    assert_eq!(names(&resolved), ["locate 1"]);
    let located = harvester.located(vec![findings_for("file:///work/Project.toml")]);
    assert_eq!(
        names(&located),
        [
            "publish file:///work/Project.toml",
            "report: Indexing Base and packages",
            "HarvestLibraries([0])",
        ]
    );
    let harvested = harvester.harvested(3, packages());
    assert_eq!(names(&harvested), ["SendLibrary", "end: Indexed 3 packages", "Wait"]);

    // A changed source is harvested with its package.
    let changed = vec![HarvestSignal::Source(path("/work/src/a.jl")), HarvestSignal::Environment];
    assert_eq!(
        names(&harvester.signalled(&changed)),
        ["Take(1)", "create", "begin: Re-indexing Outer", "HarvestPackage(0)"]
    );
    assert_eq!(
        names(&harvester.package_harvested(0, vec![7])),
        ["end: Re-indexed Outer", "SendPackage(0)", "Wait"]
    );
    // The same index again is not sent.
    harvester.signalled(&vec![HarvestSignal::Source(path("/work/src/a.jl"))]);
    assert_eq!(
        names(&harvester.package_harvested(0, vec![7])),
        ["end: Re-indexed Outer", "Wait"]
    );
    // A file of no package is ignored.
    let elsewhere = vec![HarvestSignal::Source(path("/tmp/x.jl"))];
    assert_eq!(names(&harvester.signalled(&elsewhere)), ["Take(1)", "Wait"]);
    // A changed environment settles everything that waits.
    let burst = vec![HarvestSignal::Environment, HarvestSignal::Source(path("/work/src/a.jl"))];
    assert_eq!(
        names(&harvester.signalled(&burst)),
        ["Take(2)", "create", "begin: Resolving environment", "Resolve"]
    );
}

#[test]
fn an_answer_from_an_older_version_is_not_sent() {
    assert_eq!(gate_reply(Some(2), Some(2), false), ReplyGate::Send);
    assert_eq!(gate_reply(Some(2), Some(3), false), ReplyGate::ContentModified);
    assert_eq!(gate_reply(Some(2), None, false), ReplyGate::ContentModified);
    assert_eq!(gate_reply(None, None, false), ReplyGate::Send);
    assert_eq!(gate_reply(Some(2), Some(2), true), ReplyGate::Drop);
}

#[test]
fn what_is_not_valid_is_told_apart() {
    let token = |parent: usize, end: usize| Element {
        kind: SyntaxKind::IDENT,
        range: TextRange { start: 0, end: 1 },
        is_token: true,
        parent,
        end,
    };
    let root = |end: usize| Element { is_token: false, kind: SyntaxKind::ROOT, ..token(0, end) };
    assert!(tree_is_valid(&SyntaxTree { elements: vec![root(2), token(0, 2)] }));
    assert!(!tree_is_valid(&SyntaxTree { elements: Vec::new() }));
    assert!(!tree_is_valid(&SyntaxTree { elements: vec![root(2), token(1, 2)] }));
    assert!(!tree_is_valid(&SyntaxTree { elements: vec![root(1), token(0, 2)] }));
    assert!(text_fits("x = 1"));
}
