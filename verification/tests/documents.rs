//! Diagnostics, fixes and links of documents, their configuration, and the ids of
//! their reports.

use std::hash::{Hash, Hasher};

use std::sync::Arc;

use fatou_lsp::code_action::{action_for_fix, actions_for, CodeAction, CodeActionKind};
use fatou_lsp::config::{
    ClientSettings, Config, ConfigStore, Discovery, ReadConfig, ResolvedConfig,
};
use fatou_lsp::diagnostics::{Diagnostic, DiagnosticSeverity};
use fatou_lsp::document_link::{compute_document_links, DocumentLink};
use fatou_lsp::documentation::{
    documentation_at, lsp_range, render, AnchorLink, DocText, FootnoteRef, MarkdownReference,
    RefTarget,
};
use fatou_lsp::environment_diagnostics::{
    environment_diagnostics, resolve_failure_diagnostics, CheckedFile, ProjectFinding,
};
use fatou_lsp::folding::SourceMap;
use fatou_lsp::format::{parse_diagnostics_to_lsp, ParseDiagnostic};
use fatou_lsp::graph_diagnostics::{
    graph_diagnostics, graph_diagnostics_for, GraphSource, IncludeCall, IncludeFault, ProjectGraph,
};
use fatou_lsp::lint::{
    compute_lint_diagnostics, lint_findings, Applicability, Finding, Fix, LintConfig, RuleInfo,
    ServerRules, Severity,
};
use fatou_lsp::paths::{absolute_spelling, FilePath};
use fatou_lsp::pull_diagnostics::{
    cache_is_current, diagnostic_report, document_diagnostics, full_report, DiagnosticReport,
};
use fatou_lsp::rename_files::{path_of, IncludeSite};
use fatou_lsp::result_id::content_hash;
use fatou_lsp::text::{LineIndex, Position, PositionEncoding, Range, TextRange};

fn at(line: u32, character: u32) -> Position {
    Position { line, character }
}

fn range(start: Position, end: Position) -> Range {
    Range { start, end }
}

fn span(start: u32, end: u32) -> TextRange {
    TextRange { start, end }
}

fn path(text: &str) -> FilePath {
    FilePath::parse(text).expect("an absolute path")
}

fn shown(path: &FilePath) -> String {
    absolute_spelling(path).expect("a spelling")
}

fn texts(parts: &[&str]) -> Vec<String> {
    parts.iter().map(|p| p.to_string()).collect()
}

// --- Lint ------------------------------------------------------------------------

const UNUSED_LOCAL: &str = "function f(x)\n    tmp = x + 1\n    return x\nend\n";

fn finding(rule: &str, range: TextRange, message: &str) -> Finding {
    Finding {
        rule: rule.to_string(),
        severity: Severity::Warning,
        range,
        message: message.to_string(),
        fixes: Vec::new(),
    }
}

fn unused_tmp() -> Finding {
    finding("unused-binding", span(18, 21), "`tmp` is never used")
}

#[test]
fn unused_binding_becomes_a_tagged_warning() {
    let diags = compute_lint_diagnostics(
        UNUSED_LOCAL,
        true,
        vec![unused_tmp()],
        PositionEncoding::Utf16,
    );
    assert_eq!(diags.len(), 1);
    let diag = &diags[0];
    assert_eq!(diag.code.as_deref(), Some("unused-binding"));
    assert_eq!(diag.severity, DiagnosticSeverity::Warning);
    assert_eq!(diag.source, "fatou");
    assert!(diag.unnecessary);
    assert_eq!(diag.range, range(at(1, 4), at(1, 7)), "the diagnostic must cover `tmp`");
    assert!(diag.message.contains("tmp"));
}

#[test]
fn non_unused_rules_are_untagged() {
    let diags = compute_lint_diagnostics(
        "if x = 1\nend\n",
        true,
        vec![finding("assignment-in-condition", span(3, 8), "assignment")],
        PositionEncoding::Utf16,
    );
    assert_eq!(diags.len(), 1);
    assert_eq!(diags[0].code.as_deref(), Some("assignment-in-condition"));
    assert!(!diags[0].unnecessary);
}

#[test]
fn a_parse_broken_document_yields_no_lint_findings() {
    let broken = "function f(x)\n    tmp = x + 1\n    return x\n";
    let diags =
        compute_lint_diagnostics(broken, false, vec![unused_tmp()], PositionEncoding::Utf16);
    assert!(diags.is_empty());
    assert!(lint_findings(false, vec![unused_tmp()]).is_empty());
    assert_eq!(lint_findings(true, vec![unused_tmp()]).len(), 1);
}

fn registry() -> Vec<RuleInfo> {
    [("unused-binding", true), ("undefined-name", false), ("nothing-comparison", true)]
        .iter()
        .map(|(id, default_enabled)| RuleInfo {
            id: id.to_string(),
            default_enabled: *default_enabled,
        })
        .collect()
}

#[test]
fn undefined_name_runs_only_for_workspace_members() {
    let rules = ServerRules::defaults(&registry(), ());
    assert!(rules.get(true).enabled.iter().any(|id| id == "undefined-name"));
    assert!(!rules.get(false).enabled.iter().any(|id| id == "undefined-name"));
    assert!(rules.get(false).enabled.iter().any(|id| id == "unused-binding"));

    // The finding of a member, as the client sees it.
    let src = "f() = helper() + helprr()\n";
    let diags = compute_lint_diagnostics(
        src,
        true,
        vec![finding("undefined-name", span(17, 23), "`helprr` is not defined")],
        PositionEncoding::Utf16,
    );
    assert_eq!(diags.len(), 1);
    assert_eq!(diags[0].code.as_deref(), Some("undefined-name"));
    assert!(diags[0].message.contains("helprr"));
}

#[test]
fn every_severity_has_its_own() {
    let severities = [
        (Severity::Error, DiagnosticSeverity::Error),
        (Severity::Warning, DiagnosticSeverity::Warning),
        (Severity::Info, DiagnosticSeverity::Information),
        (Severity::Hint, DiagnosticSeverity::Hint),
    ];
    for (severity, expected) in severities {
        let mut found = unused_tmp();
        found.severity = severity;
        let diags =
            compute_lint_diagnostics(UNUSED_LOCAL, true, vec![found], PositionEncoding::Utf8);
        assert_eq!(diags[0].severity, expected);
    }
}

fn served<'t>(held: Option<&'t str>, buffer: &'t str) -> &'t str {
    match held {
        Some(held) if cache_is_current(Some(held), buffer) => held,
        _ => buffer,
    }
}

#[test]
fn lint_via_db_matches_compute_and_falls_back() {
    let lint = |src: &str| {
        compute_lint_diagnostics(src, true, vec![unused_tmp()], PositionEncoding::Utf16)
            .into_iter()
            .map(|d| (d.range, d.message))
            .collect::<Vec<_>>()
    };
    let expected = lint(UNUSED_LOCAL);
    assert_eq!(expected.len(), 1, "fixture must produce a finding");
    for held in [Some(UNUSED_LOCAL), Some("y = 1\n"), None] {
        assert_eq!(lint(served(held, UNUSED_LOCAL)), expected);
    }
}

// --- Fixes -----------------------------------------------------------------------

const NOTHING_COMPARISON: &str = "check(x) = x == nothing\n";
const URI: &str = "file:///work/a.jl";

fn comparison() -> Finding {
    let mut found = finding("nothing-comparison", span(11, 23), "compare with `===`");
    found.fixes.push(Fix {
        description: "Replace `==` with `===`".to_string(),
        content: "===".to_string(),
        range: span(13, 15),
        applicability: Applicability::Safe,
    });
    found
}

fn actions_at(text: &str, findings: Vec<Finding>, range: Range) -> Vec<CodeAction> {
    actions_for(&findings, URI, text, range, PositionEncoding::Utf16)
}

#[test]
fn safe_fix_becomes_a_preferred_quickfix() {
    // Cursor inside the `==` of `x == nothing`.
    let cursor = range(at(0, 14), at(0, 14));
    let actions = actions_at(NOTHING_COMPARISON, vec![comparison()], cursor);
    assert_eq!(actions.len(), 1);
    let action = &actions[0];
    assert_eq!(action.title, "Replace `==` with `===`");
    assert_eq!(action.kind, CodeActionKind::QuickFix);
    assert!(action.is_preferred);
    let diagnostic = action.diagnostic.as_ref().expect("attached diagnostic");
    assert_eq!(diagnostic.code.as_deref(), Some("nothing-comparison"));
    assert_eq!(action.uri, URI);
    assert_eq!(action.edit.new_text, "===");
    assert_eq!(
        action.edit.range,
        range(at(0, 13), at(0, 15)),
        "the edit must replace exactly the `==` operator"
    );
}

#[test]
fn a_range_touching_the_finding_edge_still_offers_the_fix() {
    let edge = range(at(0, 11), at(0, 11));
    assert_eq!(actions_at(NOTHING_COMPARISON, vec![comparison()], edge).len(), 1);
}

#[test]
fn a_range_outside_every_finding_yields_no_actions() {
    let elsewhere = range(at(0, 2), at(0, 4));
    assert!(actions_at(NOTHING_COMPARISON, vec![comparison()], elsewhere).is_empty());
}

#[test]
fn a_finding_without_fixes_yields_no_action() {
    let on_tmp = range(at(1, 4), at(1, 7));
    assert!(actions_at(UNUSED_LOCAL, vec![unused_tmp()], on_tmp).is_empty());
}

#[test]
fn an_unsafe_fix_is_labeled_and_not_preferred() {
    let mut found = finding("test-rule", span(0, 2), "message");
    found.fixes.push(Fix {
        description: "Rewrite the comparison".to_string(),
        content: "===".to_string(),
        range: span(0, 2),
        applicability: Applicability::Unsafe,
    });
    let action = action_for_fix(
        &found,
        &found.fixes[0],
        URI,
        &LineIndex::new("== x\n"),
        PositionEncoding::Utf16,
    );
    assert_eq!(action.title, "Rewrite the comparison (unsafe)");
    assert!(!action.is_preferred);
}

// --- Links -----------------------------------------------------------------------

/// The static includes of a source: `include` alone, with one plain literal.
fn includes_of(text: &str) -> Vec<IncludeSite> {
    let mut out = Vec::new();
    let mut from = 0;
    while let Some(found) = text[from..].find("include(\"") {
        let call = from + found;
        let start = call + "include(\"".len();
        let end = start + text[start..].find('"').unwrap();
        let raw = &text[start..end];
        let own = call == 0 || !text[..call].ends_with('.');
        if own && !raw.contains('$') {
            out.push(IncludeSite {
                path: raw.to_string(),
                content: if raw.is_empty() { None } else { Some(span(start as u32, end as u32)) },
            });
        }
        from = end;
    }
    out
}

fn links(text: &str, base: Option<&str>, encoding: PositionEncoding) -> Vec<DocumentLink> {
    let base = base.map(path);
    compute_document_links(text, base.as_ref(), &includes_of(text), encoding)
}

fn targets(links: &[DocumentLink]) -> Vec<String> {
    links.iter().map(|link| shown(&link.target)).collect()
}

#[test]
fn static_include_links_and_dynamic_forms_do_not() {
    let text = "include(\"sub/a.jl\")\n\
        include(path)\n\
        include(\"b$(dir).jl\")\n\
        include(raw\"c.jl\")\n\
        include(mapexpr, \"d.jl\")\n\
        M.include(\"e.jl\")\n";
    let links = links(text, Some("/work"), PositionEncoding::Utf16);
    assert_eq!(targets(&links), ["/work/sub/a.jl"]);
    // The range covers exactly `sub/a.jl`, inside the quotes.
    assert_eq!(links[0].range, range(at(0, 9), at(0, 17)));
}

#[test]
fn relative_paths_normalize_and_absolute_paths_ignore_base() {
    let text = "include(\"../lib/b.jl\")\ninclude(\"/abs/c.jl\")\n";
    let links = links(text, Some("/work/src"), PositionEncoding::Utf16);
    assert_eq!(targets(&links), ["/work/lib/b.jl", "/abs/c.jl"]);
}

#[test]
fn relative_include_without_a_base_dir_has_no_link() {
    let text = "include(\"a.jl\")\ninclude(\"/abs/c.jl\")\n";
    assert_eq!(targets(&links(text, None, PositionEncoding::Utf16)), ["/abs/c.jl"]);
}

#[test]
fn empty_path_has_no_link() {
    assert!(links("include(\"\")\n", Some("/work"), PositionEncoding::Utf16).is_empty());
}

#[test]
fn positions_count_units_of_the_negotiated_encoding() {
    // `α` is two UTF-8 bytes but one UTF-16 unit, shifting the columns.
    let text = "s = \"α\"; include(\"a.jl\")\n";
    let utf16 = links(text, Some("/work"), PositionEncoding::Utf16);
    let utf8 = links(text, Some("/work"), PositionEncoding::Utf8);
    assert_eq!(utf16[0].range, range(at(0, 18), at(0, 22)));
    assert_eq!(utf8[0].range, range(at(0, 19), at(0, 23)));
}

#[test]
fn links_via_db_match_compute_and_fall_back() {
    let buffer = "include(\"sub/b.jl\")\n";
    let of = |src: &str| targets(&links(src, Some("/work"), PositionEncoding::Utf16));
    let expected = of(buffer);
    assert_eq!(expected.len(), 1, "fixture must yield a link");
    for held in [Some(buffer), Some("y = 1\n"), None] {
        assert_eq!(of(served(held, buffer)), expected);
    }
}

// --- Environments ----------------------------------------------------------------

fn toml_syntax(range: TextRange, message: &str) -> ProjectFinding {
    ProjectFinding {
        check: "toml-syntax".to_string(),
        severity: Severity::Error,
        message: message.to_string(),
        range,
    }
}

#[test]
fn a_parse_failure_maps_its_span_to_a_range() {
    let text = "name = \"Demo\"\nuuid = \n";
    let report = resolve_failure_diagnostics(
        path("/work/Project.toml"),
        Some(text),
        &toml_syntax(span(21, 22), "invalid string"),
        PositionEncoding::Utf16,
    );
    assert_eq!(shown(&report.path), "/work/Project.toml");
    assert_eq!(report.diagnostics.len(), 1);
    let diag = &report.diagnostics[0];
    assert_eq!(diag.range.start.line, 1, "the second line");
    assert_eq!(diag.severity, DiagnosticSeverity::Error);
    assert_eq!(diag.source, "fatou");
    assert_eq!(diag.code.as_deref(), Some("toml-syntax"));
}

#[test]
fn an_unreadable_file_still_reports() {
    let report = resolve_failure_diagnostics(
        path("/work/Project.toml"),
        None,
        &toml_syntax(span(0, 0), "permission denied"),
        PositionEncoding::Utf16,
    );
    assert_eq!(report.diagnostics.len(), 1);
    assert_eq!(report.diagnostics[0].message, "permission denied");
}

fn checked(file: &str, text: Option<&str>, messages: &[&str]) -> CheckedFile {
    CheckedFile {
        path: path(file),
        text: text.map(|text| text.to_string()),
        findings: messages.iter().map(|message| toml_syntax(span(0, 1), message)).collect(),
    }
}

fn environment(project: CheckedFile, manifest: Option<CheckedFile>) -> Vec<(String, Vec<String>)> {
    environment_diagnostics(&project, manifest.as_ref(), PositionEncoding::Utf16)
        .iter()
        .map(|report| {
            let messages = report.diagnostics.iter().map(|d| d.message.clone()).collect();
            (shown(&report.path), messages)
        })
        .collect()
}

#[test]
fn a_project_without_findings_is_absent() {
    let project = |text: Option<&str>, messages: &[&str]| {
        environment(checked("/work/Project.toml", text, messages), None)
    };
    assert!(project(Some("x"), &[]).is_empty());
    assert!(project(None, &["bad"]).is_empty());
    assert_eq!(
        project(Some("x"), &["bad"]),
        vec![("/work/Project.toml".to_string(), vec!["bad".to_string()])]
    );
}

#[test]
fn a_malformed_manifest_is_reported_beside_the_project() {
    let manifest = |text: Option<&str>| checked("/work/Manifest.toml", text, &["not TOML"]);
    let of_manifest = ("/work/Manifest.toml".to_string(), vec!["not TOML".to_string()]);
    let of_project = ("/work/Project.toml".to_string(), vec!["bad".to_string()]);
    let clean = || checked("/work/Project.toml", Some("x"), &[]);
    let faulty = || checked("/work/Project.toml", Some("x"), &["bad"]);
    assert_eq!(environment(clean(), Some(manifest(Some("=")))), vec![of_manifest.clone()]);
    assert_eq!(
        environment(faulty(), Some(manifest(Some("=")))),
        vec![of_manifest, of_project.clone()]
    );
    assert_eq!(environment(faulty(), Some(manifest(None))), vec![of_project]);
    assert_eq!(
        environment(faulty(), Some(checked("/work/Project.toml", Some("="), &["again"]))),
        vec![(
            "/work/Project.toml".to_string(),
            vec!["bad".to_string(), "again".to_string()]
        )]
    );
}

// --- The include graph -----------------------------------------------------------

fn source(file: &str, text: &str) -> GraphSource {
    let calls = includes_of(text)
        .into_iter()
        .map(|site| {
            let content = site.content.unwrap();
            IncludeCall { raw: site.path, range: span(content.start - 9, content.end + 2) }
        })
        .collect();
    GraphSource { path: path(file), text: text.to_string(), calls }
}

fn fault(from: &str, raw: &str) -> IncludeFault {
    IncludeFault { from: path(from), raw: raw.to_string() }
}

#[test]
fn marks_the_unresolved_include_call() {
    let graph = ProjectGraph {
        unresolved: vec![fault("/pkg/src/Pkg.jl", "missing.jl")],
        cycles: Vec::new(),
    };
    let sources = vec![source("/pkg/src/Pkg.jl", "include(\"a.jl\")\ninclude(\"missing.jl\")\n")];
    let out = graph_diagnostics(&graph, &sources, PositionEncoding::Utf16);
    assert_eq!(out.len(), 1);
    assert_eq!(shown(&out[0].path), "/pkg/src/Pkg.jl");
    let diags = &out[0].diagnostics;
    assert_eq!(diags.len(), 1);
    assert_eq!(diags[0].severity, DiagnosticSeverity::Error);
    // The second line's `include("missing.jl")` call.
    assert_eq!(diags[0].range.start.line, 1);
    assert_eq!(diags[0].message, "cannot resolve include: \"missing.jl\" was not found");
}

#[test]
fn marks_the_cycle_back_edge() {
    let graph = ProjectGraph { unresolved: Vec::new(), cycles: vec![fault("/pkg/src/b.jl", "a.jl")] };
    let sources = vec![source("/pkg/src/b.jl", "include(\"a.jl\")\n")];
    let out = graph_diagnostics(&graph, &sources, PositionEncoding::Utf16);
    let diags = graph_diagnostics_for(out, &path("/pkg/src/b.jl"));
    assert_eq!(diags.len(), 1);
    assert_eq!(diags[0].severity, DiagnosticSeverity::Warning);
}

#[test]
fn unsourceable_file_is_skipped() {
    let graph = ProjectGraph {
        unresolved: vec![fault("/pkg/src/gone.jl", "x.jl")],
        cycles: Vec::new(),
    };
    assert!(graph_diagnostics(&graph, &Vec::new(), PositionEncoding::Utf16).is_empty());
}

#[test]
fn reports_of_the_graph_come_by_path() {
    let graph = ProjectGraph {
        unresolved: vec![fault("/pkg/src/b.jl", "x.jl"), fault("/pkg/src/a.jl", "x.jl")],
        cycles: Vec::new(),
    };
    let text = "include(\"x.jl\")\n";
    let sources = vec![source("/pkg/src/b.jl", text), source("/pkg/src/a.jl", text)];
    let out = graph_diagnostics(&graph, &sources, PositionEncoding::Utf16);
    let paths: Vec<String> = out.iter().map(|r| shown(&r.path)).collect();
    assert_eq!(paths, ["/pkg/src/a.jl", "/pkg/src/b.jl"]);
}

// --- Pulled diagnostics ----------------------------------------------------------

fn report_for(text: &str, faults: Vec<ParseDiagnostic>, findings: Vec<Finding>) -> Vec<Diagnostic> {
    let clean = faults.is_empty();
    let encoding = PositionEncoding::Utf16;
    document_diagnostics(
        parse_diagnostics_to_lsp(&faults, text, encoding),
        compute_lint_diagnostics(text, clean, findings, encoding),
        Vec::new(),
    )
}

#[test]
fn a_clean_document_reports_nothing() {
    assert!(report_for("x = 1\n", Vec::new(), Vec::new()).is_empty());
}

#[test]
fn lint_findings_join_the_report() {
    let diags = report_for(UNUSED_LOCAL, Vec::new(), vec![unused_tmp()]);
    assert_eq!(diags.len(), 1);
    assert_eq!(diags[0].code.as_deref(), Some("unused-binding"));
}

#[test]
fn parse_errors_suppress_lint_findings() {
    let text = "function f(x)\n    tmp = x + 1\n    return x\n";
    let fault = ParseDiagnostic {
        start: text.len(),
        end: text.len(),
        message: "expected `end`".to_string(),
    };
    let diags = report_for(text, vec![fault], vec![unused_tmp()]);
    assert!(!diags.is_empty());
    assert!(
        diags.iter().all(|d| d.severity == DiagnosticSeverity::Error && d.code.is_none()),
        "a parse-broken buffer must report parse errors only, got {diags:?}"
    );
}

#[test]
fn falls_back_when_the_db_lags() {
    let diags = report_for(served(None, UNUSED_LOCAL), Vec::new(), vec![unused_tmp()]);
    assert_eq!(diags.len(), 1);
    assert_eq!(diags[0].code.as_deref(), Some("unused-binding"));
}

#[test]
fn an_unchanged_report_carries_its_id_alone() {
    match diagnostic_report(Vec::new(), "id".to_string(), Some("id")) {
        DiagnosticReport::Unchanged { result_id } => assert_eq!(result_id, "id"),
        other => panic!("expected no change, got {other:?}"),
    }
    match diagnostic_report(Vec::new(), "id".to_string(), Some("older")) {
        DiagnosticReport::Full { id, .. } => assert_eq!(id.as_deref(), Some("id")),
        other => panic!("expected a full report, got {other:?}"),
    }
    match full_report(Vec::new()) {
        DiagnosticReport::Full { id, items } => {
            assert!(id.is_none());
            assert!(items.is_empty());
        }
        other => panic!("expected a full report, got {other:?}"),
    }
}

// --- Ids of contents -------------------------------------------------------------

fn hash_of(values: &[u32]) -> String {
    let json = serde_json::to_vec(values).unwrap();
    content_hash(Some(&json))
}

#[test]
fn identical_values_hash_equal_and_distinct_values_differ() {
    assert_eq!(hash_of(&[1, 2, 3]), hash_of(&[1, 2, 3]));
    assert_ne!(hash_of(&[1, 2, 3]), hash_of(&[1, 2, 4]));
}

#[test]
fn empty_findings_hash_is_stable() {
    assert_eq!(hash_of(&[]), hash_of(&[]));
    assert_ne!(hash_of(&[]), content_hash(None));
}

#[test]
fn an_id_is_that_of_the_bytes_as_a_hasher_takes_them() {
    let bytes = vec![b'[', b']'];
    let mut hasher = std::collections::hash_map::DefaultHasher::new();
    bytes.hash(&mut hasher);
    assert_eq!(content_hash(Some(&bytes)), format!("{:016x}", hasher.finish()));
    let mut hasher = std::collections::hash_map::DefaultHasher::new();
    u64::MAX.hash(&mut hasher);
    assert_eq!(content_hash(None), format!("{:016x}", hasher.finish()));
}

// --- Configuration ---------------------------------------------------------------

#[derive(Clone, Copy, Debug, PartialEq)]
struct Style {
    line_width: u32,
    indent_width: u32,
}

const DEFAULT: Style = Style { line_width: 92, indent_width: 4 };

/// The options of single rules, as a configuration spells them.
type Options = Vec<(String, String)>;

fn lint_config(ignore: &[&str]) -> LintConfig<Options> {
    LintConfig {
        select: None,
        ignore: texts(ignore),
        severity: Vec::new(),
        options: Arc::new(Vec::new()),
    }
}

fn config(style: Style) -> Config<Style, Options> {
    Config { style, lint: lint_config(&[]) }
}

fn indent(width: u32) -> Config<Style, Options> {
    config(Style { indent_width: width, ..DEFAULT })
}

/// Settings as a client sends them, read as far as the sources below need it.
fn settings(value: serde_json::Value) -> ClientSettings<Style, Options> {
    fn read(value: &serde_json::Value) -> ReadConfig<Style, Options> {
        let known = value.as_object().is_some_and(|o| o.keys().all(|k| k == "format"));
        if !known {
            return ReadConfig::Failed { error: "unknown field".to_string() };
        }
        let width = value["format"]["indent-width"].as_u64().unwrap_or(4) as u32;
        ReadConfig::Read { config: indent(width), warnings: Vec::new() }
    }
    if value.is_null() {
        return ClientSettings::Null;
    }
    ClientSettings::Given { section: value.get("fatou").map(read), whole: read(&value) }
}

fn format_settings(width: u32) -> serde_json::Value {
    let mut format = serde_json::Map::new();
    format.insert("indent-width".to_string(), serde_json::Value::from(width));
    let mut whole = serde_json::Map::new();
    whole.insert("format".to_string(), serde_json::Value::Object(format));
    serde_json::Value::Object(whole)
}

fn under(key: &str, value: serde_json::Value) -> serde_json::Value {
    let mut whole = serde_json::Map::new();
    whole.insert(key.to_string(), value);
    serde_json::Value::Object(whole)
}

fn store_with(value: serde_json::Value) -> (ConfigStore<Style, Options>, Vec<String>) {
    ConfigStore::new(config(DEFAULT), Some(settings(value)), &registry())
}

fn store() -> ConfigStore<Style, Options> {
    ConfigStore::new(config(DEFAULT), None, &registry()).0
}

/// The configuration for a document, given what discovery finds above it.
fn for_uri(
    store: &mut ConfigStore<Style, Options>,
    uri: &str,
    discovery: Discovery<Style, Options>,
) -> (Style, Vec<String>) {
    let dir = path_of(uri).and_then(|p| p.parent());
    let style = |config: &ResolvedConfig<Style, Options>| config.style;
    if let Some(known) = store.lookup(dir.as_ref()) {
        return (style(known), Vec::new());
    }
    let dir = dir.unwrap();
    let warnings = store.learn(&dir, discovery, &registry());
    (style(store.lookup(Some(&dir)).unwrap()), warnings)
}

fn found(config: Config<Style, Options>) -> Discovery<Style, Options> {
    Discovery::Found { config, source: "/work/fatou.toml".to_string(), deprecations: Vec::new() }
}

#[test]
fn defaults_without_options_or_file() {
    let (mut store, warnings) = ConfigStore::new(config(DEFAULT), None, &registry());
    assert!(warnings.is_empty());
    let (style, warnings) = for_uri(&mut store, URI, Discovery::Absent);
    assert!(warnings.is_empty());
    assert_eq!(style, DEFAULT);
}

#[test]
fn client_settings_apply_bare_and_wrapped() {
    let (mut store, warnings) = store_with(format_settings(2));
    assert!(warnings.is_empty());
    assert_eq!(for_uri(&mut store, URI, Discovery::Absent).0.indent_width, 2);

    let (mut store, warnings) = store_with(under("fatou", format_settings(3)));
    assert!(warnings.is_empty());
    assert_eq!(for_uri(&mut store, URI, Discovery::Absent).0.indent_width, 3);
}

#[test]
fn discovered_fatou_toml_shadows_client_settings() {
    let (mut store, _) = store_with(format_settings(8));
    let (style, warnings) = for_uri(&mut store, URI, found(indent(2)));
    assert!(warnings.is_empty());
    assert_eq!(style.indent_width, 2);
}

#[test]
fn invalidation_drops_the_discovery_cache() {
    let mut store = store();
    assert_eq!(for_uri(&mut store, URI, found(indent(2))).0.indent_width, 2);
    // The cache serves the old config until invalidated.
    assert_eq!(for_uri(&mut store, URI, found(indent(7))).0.indent_width, 2);
    store.invalidate_discovered();
    assert_eq!(for_uri(&mut store, URI, found(indent(7))).0.indent_width, 7);
}

#[test]
fn new_client_settings_replace_the_old_and_null_keeps_them() {
    let (mut store, _) = store_with(format_settings(2));
    assert_eq!(for_uri(&mut store, URI, Discovery::Absent).0.indent_width, 2);

    let warnings = store.set_client_settings(settings(format_settings(6)), &registry());
    assert!(warnings.is_empty());
    assert_eq!(for_uri(&mut store, URI, Discovery::Absent).0.indent_width, 6);

    let warnings = store.set_client_settings(settings(serde_json::Value::Null), &registry());
    assert!(warnings.is_empty());
    assert_eq!(for_uri(&mut store, URI, Discovery::Absent).0.indent_width, 6);
}

#[test]
fn invalid_client_settings_warn_and_keep_previous() {
    let (mut store, _) = store_with(format_settings(2));
    let invalid = under("formt", serde_json::Value::Object(serde_json::Map::new()));
    let warnings = store.set_client_settings(settings(invalid), &registry());
    assert_eq!(warnings.len(), 1, "{warnings:?}");
    assert!(warnings[0].contains("invalid client settings"));
    assert_eq!(for_uri(&mut store, URI, Discovery::Absent).0.indent_width, 2);
}

#[test]
fn broken_fatou_toml_warns_and_falls_back_to_client_settings() {
    let (mut store, _) = store_with(format_settings(8));
    let broken = || Discovery::Unreadable { error: "failed to parse /work/fatou.toml".to_string() };
    let (style, warnings) = for_uri(&mut store, URI, broken());
    assert_eq!(warnings.len(), 1, "{warnings:?}");
    assert!(warnings[0].contains("failed to parse"));
    assert_eq!(style.indent_width, 8);
    // The fallback is cached: no repeated warning per request.
    assert!(for_uri(&mut store, URI, broken()).1.is_empty());
}

#[test]
fn unknown_rules_and_deprecated_keys_warn_once_per_load() {
    let mut store = store();
    let discovery = || Discovery::Found {
        config: Config {
            style: Style { line_width: 80, ..DEFAULT },
            lint: lint_config(&["no-such-rule"]),
        },
        source: "/work/fatou.toml".to_string(),
        deprecations: texts(&["`line_width` is deprecated"]),
    };
    let (style, warnings) = for_uri(&mut store, URI, discovery());
    assert_eq!(style.line_width, 80);
    assert_eq!(
        warnings,
        vec![
            "/work/fatou.toml: `line_width` is deprecated".to_string(),
            "unknown rule `no-such-rule` in select/ignore/severity".to_string(),
        ]
    );
    assert!(for_uri(&mut store, URI, discovery()).1.is_empty());
}

#[test]
fn a_non_file_uri_gets_the_client_settings() {
    let (mut store, _) = store_with(format_settings(2));
    let (style, warnings) = for_uri(&mut store, "untitled:Untitled-1", Discovery::Absent);
    assert!(warnings.is_empty());
    assert_eq!(style.indent_width, 2);
}

#[test]
fn both_rule_sets_carry_the_options_of_single_rules() {
    let options = vec![("line-length".to_string(), "max = 120".to_string())];
    let lint = LintConfig { options: Arc::new(options.clone()), ..lint_config(&[]) };
    let (rules, unknown) = ServerRules::from_config(&lint, &registry());
    assert!(unknown.is_empty());
    assert_eq!(*rules.get(false).options, options);
    assert_eq!(*rules.get(true).options, options);

    let mut store = store();
    let dir = path("/work");
    let discovery = Discovery::Found {
        config: Config { style: DEFAULT, lint },
        source: "/work/fatou.toml".to_string(),
        deprecations: Vec::new(),
    };
    assert!(store.learn(&dir, discovery, &registry()).is_empty());
    let found = store.lookup(Some(&dir)).expect("a configuration");
    assert_eq!(*found.rules.member.options, options);
    assert!(store.client.rules.plain.options.is_empty());
}

// --- Documentation ---------------------------------------------------------------

/// A docstring that stands at byte `at` of its source, as it is written.
fn doc(text: &str, at: u32) -> DocText {
    let find = |needle: &str| {
        let start = text.find(needle).unwrap() as u32;
        span(start, start + needle.len() as u32)
    };
    DocText {
        map: SourceMap {
            starts: (at..at + text.len() as u32).collect(),
            ends: (at + 1..at + text.len() as u32 + 1).collect(),
        },
        refs: vec![RefTarget { range: find("chosen-id"), target: "chosen-id".to_string() }],
        links: vec![AnchorLink {
            range: find("#first-title"),
            destination: "#first-title".to_string(),
        }],
        footnotes: vec![FootnoteRef { range: find("[^note]"), id: "note".to_string() }],
        anchors: Vec::new(),
        notes: Vec::new(),
        fences: vec![find("x = 1\n")],
        target_start: at,
        text: text.to_string(),
    }
}

const DOC: &str = "See [title](#first-title), [id](@ref chosen-id), and [^note].\n\
    ```julia\n\
    x = 1\n\
    ```\n\
    See [open](@ref Base.sh";

fn offset_in(needle: &str, within: usize) -> u32 {
    (DOC.find(needle).unwrap() + within) as u32
}

#[test]
fn references_in_documentation_are_found_under_the_cursor() {
    let doc = doc(DOC, 4);
    let explicit = doc.explicit_ref(offset_in("chosen-id", 3)).expect("an explicit target");
    assert_eq!(explicit.target, "chosen-id");
    assert_eq!(explicit.offset, 3);
    match doc.markdown_reference(offset_in("#first-title", 4)) {
        Some(MarkdownReference::Anchor(id)) => assert_eq!(id, "first-title"),
        other => panic!("expected an anchor, got {other:?}"),
    }
    match doc.markdown_reference(offset_in("[^note]", 2)) {
        Some(MarkdownReference::Footnote(id)) => assert_eq!(id, "note"),
        other => panic!("expected a footnote, got {other:?}"),
    }
    assert!(doc.markdown_reference(offset_in("See", 1)).is_none());
}

#[test]
fn a_reference_that_is_being_typed_is_found_without_its_end() {
    let doc = doc(DOC, 4);
    let end = DOC.len() as u32;
    let typed = doc.explicit_ref(end).expect("an open target");
    assert_eq!(typed.target, "Base.sh");
    assert_eq!(typed.range, span(end - 7, end));
    assert_eq!(typed.offset, 7);
    assert!(doc.explicit_ref(offset_in("See [open]", 3)).is_none());
}

#[test]
fn embedded_code_maps_back_to_its_source() {
    let docs = vec![doc(DOC, 4), doc(DOC, 4000)];
    let source = 4 + offset_in("x = 1", 2);
    assert_eq!(documentation_at(&docs, source), 0);
    assert_eq!(documentation_at(&docs, 4001), 1);
    assert_eq!(documentation_at(&docs, 3000), 2);
    let offset = docs[0].map.decoded_offset(source).expect("a decoded place");
    let code = docs[0].embedded_julia(offset).expect("a fence");
    assert_eq!(code.text, "x = 1\n");
    assert_eq!(code.offset, 2);
    let name = code.source_range(&docs[0].map, span(0, 1)).expect("a source range");
    assert_eq!(name, span(source - 2, source - 1));
    let index = LineIndex::new(&code.text);
    let value = code.source_range_from_lsp(
        &docs[0].map,
        range(at(0, 4), at(0, 5)),
        &index,
        PositionEncoding::Utf16,
    );
    assert_eq!(value, Some(span(source + 2, source + 3)));
    assert!(docs[0].embedded_julia(0).is_none());
}

#[test]
fn documentation_is_shown_trimmed() {
    assert_eq!(render("\n  text \n").as_deref(), Some("text"));
    assert!(render(" \n\t").is_none());
    let index = LineIndex::new("ab\ncd");
    assert_eq!(
        lsp_range(span(1, 4), &index, PositionEncoding::Utf8),
        range(at(0, 1), at(1, 1))
    );
}
