//! Features over small Julia sources: definitions, references, renames, hovers,
//! signatures, calls, tokens, folds and selections.

use fatou_lsp::call_hierarchy::{compute_prepare_call_hierarchy, CallHierarchyItem, ItemKind};
use fatou_lsp::calls::{
    incoming_calls, outgoing_calls, prepare_call_hierarchy, CallGroup, CallScope, SourceFile,
    SymbolSites,
};
use fatou_lsp::completion::{
    compute_completions, resolve_completion, Candidate, CompletionItem, CompletionItemKind,
    ResolveData, SequenceTables, Source, Visible,
};
use fatou_lsp::cross_file::{
    cross_file_definitions, gather_sites, CrossFileSite, OccurrenceRec,
};
use fatou_lsp::definition::{
    compute_definition, is_workspace_function, site_locations, Definition, DefinitionReply,
    DiskFile,
};
use fatou_lsp::documentation::{
    anchor_labels, AnchorLink, DocAnchor, DocText, FootnoteDef, FootnoteRef, RefTarget,
};
use fatou_lsp::folding::{
    compute_folding_ranges, DocHeading, DocKind, DocNode, DocSource, FoldingRange,
    FoldingRangeKind, JuliaFence, SourceMap,
};
use fatou_lsp::graph_diagnostics::ProjectGraph;
use fatou_lsp::hover::{compute_hover, FenceNames, MAX_METHODS};
use fatou_lsp::index::{
    ConstDef, DefLocation, FunctionGroup, Library, MacroDef, Method, ModuleIndex, PackageIndex,
    PackageRoot, Param, Span, TypeDef, TypeExpr, TypeKind,
};
use fatou_lsp::paths::FilePath;
use fatou_lsp::pull_diagnostics::{cache_is_current, DiagnosticReport};
use fatou_lsp::read_jobs::{
    run_read, Document, ReadAnswer, ReadJob, RequestId, Snapshot, WorkspaceSymbol,
};
use fatou_lsp::references::{
    compute_document_highlights, compute_references, DocumentHighlight, DocumentHighlightKind,
    Location,
};
use fatou_lsp::rename::{
    compute_prepare_rename, compute_rename, cross_file_rename, validate_new_name,
};
use fatou_lsp::result_id::content_hash;
use fatou_lsp::selection::{compute_selection_ranges, SelectionRange};
use fatou_lsp::semantic::{
    Access, Binding, BindingKind, ExportEntry, Ident, LoadKind, ModuleLoad, QualifiedRead,
    Resolution, SemanticModel,
};
use fatou_lsp::semantic_tokens::{
    compute_semantic_tokens, highlight_index, legend, semantic_tokens_delta, HighlightKind,
    SemanticToken, TokensDelta,
};
use fatou_lsp::signature_help::{
    active_parameter, compute_signature_help, Active, SignatureHelp,
};
use fatou_lsp::text::{LineIndex, Position, PositionEncoding, Range, TextRange};
use fatou_lsp::tree::{Element, SyntaxKind as K, SyntaxTree};

// --- Definitions ---------------------------------------------------------------

/// The files of packages that can be read.
struct Disk {
    env: Env,
    files: Vec<DiskFile>,
}

fn disk(env: Env) -> Disk {
    Disk { env, files: Vec::new() }
}

impl Disk {
    /// Adds a package whose sources are in `root`.
    fn add(&mut self, name: &str, root: &str, files: &[(&str, &str)], exports: &[&str]) {
        self.env.library.packages.push(harvest(name, files));
        self.env.library.roots.push(PackageRoot { name: name.to_string(), path: path(root) });
        self.env.exports.push((name.to_string(), texts(exports)));
        for (file, src) in files {
            let spelled = format!("{root}/{file}");
            self.files.push(DiskFile {
                path: path(&spelled),
                uri: format!("file://{spelled}"),
                text: src.to_string(),
            });
        }
    }
}

fn def_at(marked: &str, disk: &Disk) -> Vec<Location> {
    let (src, position) = cursor(marked);
    let model = model_of(&src, &disk.env);
    match compute_definition(
        URI,
        &src,
        position,
        &model,
        &disk.env.library,
        disk.env.workspace.as_ref(),
        &Vec::new(),
        PositionEncoding::Utf16,
    ) {
        Definition::Here(locations) => locations,
        Definition::OnDisk(sites) => site_locations(sites, &disk.files, PositionEncoding::Utf16),
    }
}

fn single_def_at(marked: &str, disk: &Disk) -> Option<Location> {
    let mut locations = def_at(marked, disk);
    match locations.len() {
        0 => None,
        1 => Some(locations.remove(0)),
        n => panic!("expected at most one definition site, got {n}"),
    }
}

#[test]
fn local_variable_jumps_to_its_assignment() {
    let loc =
        single_def_at("function f()\n    x = 1\n    x|\nend", &disk(no_library())).unwrap();
    assert_eq!(loc.uri, URI);
    // The `x` in `x = 1` on line 1, column 4.
    assert_eq!(loc.range.start, at(1, 4));
    assert_eq!(loc.range.end, at(1, 5));
}

#[test]
fn call_jumps_to_the_function_definition() {
    let loc = single_def_at("greet(a) = a\ngreet|(1)", &disk(no_library())).unwrap();
    assert_eq!(loc.uri, URI);
    assert_eq!(loc.range.start, at(0, 0));
    assert_eq!(loc.range.end, at(0, 5));
}

#[test]
fn parameter_use_jumps_to_the_parameter() {
    let loc = single_def_at("function f(abc)\n    abc|\nend", &disk(no_library())).unwrap();
    assert_eq!(loc.range.start, at(0, 11));
    assert_eq!(loc.range.end, at(0, 14));
}

#[test]
fn unresolved_name_has_no_definition() {
    assert!(def_at("nope|()", &disk(no_library())).is_empty());
}

const GREETINGS: &str = "module Greetings\nexport greet\ngreet(name) = name\nend\n";

#[test]
fn using_export_jumps_into_the_depot_source() {
    let mut disk = disk(no_library());
    disk.add("Greetings", "/depot/Greetings", &[("src/Greetings.jl", GREETINGS)], &["greet"]);
    let loc = single_def_at("using Greetings\ngreet|(1)", &disk).unwrap();
    assert_eq!(loc.uri, "file:///depot/Greetings/src/Greetings.jl");
    // The `greet` definition on line 2, column 0 of the depot source.
    assert_eq!(loc.range.start, at(2, 0));
    assert_eq!(loc.range.end, at(2, 5));
}

#[test]
fn library_without_a_known_root_has_no_definition() {
    let mut disk = disk(no_library());
    disk.add("Greetings", "/depot/Greetings", &[("src/Greetings.jl", GREETINGS)], &["greet"]);
    disk.env.library.roots.clear();
    assert!(def_at("using Greetings\ngreet|(1)", &disk).is_empty());
}

fn my_package(files: &[(&str, &str)]) -> Disk {
    let mut disk = disk(no_library());
    disk.add("MyPkg", "/work/MyPkg", files, &[]);
    disk.env.workspace = Some(harvest("MyPkg", files));
    disk
}

#[test]
fn workspace_sibling_jumps_into_the_other_file() {
    let disk = my_package(&[
        ("src/MyPkg.jl", "module MyPkg\ninclude(\"bar.jl\")\nend\n"),
        ("src/bar.jl", "bar(x) = x\n"),
    ]);
    let loc = single_def_at("bar|(1)", &disk).unwrap();
    assert_eq!(loc.uri, "file:///work/MyPkg/src/bar.jl");
    assert_eq!(loc.range.start, at(0, 0));
    assert_eq!(loc.range.end, at(0, 3));
}

#[test]
fn workspace_tier_is_off_without_membership() {
    let mut disk = my_package(&[
        ("src/MyPkg.jl", "module MyPkg\ninclude(\"bar.jl\")\nend\n"),
        ("src/bar.jl", "bar(x) = x\n"),
    ]);
    disk.env.workspace = None;
    assert!(def_at("bar|(1)", &disk).is_empty());
}

#[test]
fn call_returns_every_local_method() {
    let locs = def_at("f(x::Int) = 1\nf(x::String) = \"s\"\nf|(1)", &disk(no_library()));
    assert_eq!(locs.len(), 2, "{locs:?}");
    // Source order: the first method on line 0, the second on line 1.
    assert_eq!(locs[0].range.start, at(0, 0));
    assert_eq!(locs[1].range.start, at(1, 0));
}

#[test]
fn long_and_short_form_methods_are_both_found() {
    let locs =
        def_at("function f(x)\n    x\nend\nf(x, y) = x\nf|(1)", &disk(no_library()));
    assert_eq!(locs.len(), 2, "{locs:?}");
    assert_eq!(locs[0].range.start, at(0, 9));
    assert_eq!(locs[1].range.start, at(3, 0));
}

#[test]
fn cursor_on_the_first_method_returns_all_methods() {
    let locs = def_at("f|(x::Int) = 1\nf(x::String) = \"s\"", &disk(no_library()));
    assert_eq!(locs.len(), 2, "{locs:?}");
}

#[test]
fn cursor_on_a_later_method_returns_all_methods() {
    let locs = def_at("f(x::Int) = 1\nf|(x::String) = \"s\"", &disk(no_library()));
    assert_eq!(locs.len(), 2, "{locs:?}");
    assert_eq!(locs[0].range.start, at(0, 0));
    assert_eq!(locs[1].range.start, at(1, 0));
}

#[test]
fn variable_reassignment_keeps_a_single_definition() {
    let loc = single_def_at(
        "function g()\n    x = 1\n    x = 2\n    x|\nend",
        &disk(no_library()),
    )
    .unwrap();
    assert_eq!(loc.range.start, at(1, 4));
}

#[test]
fn nested_local_function_methods_are_all_found() {
    let locs = def_at(
        "function outer()\n    g(x) = 1\n    g(x, y) = 2\n    g|(1)\nend",
        &disk(no_library()),
    );
    assert_eq!(locs.len(), 2, "{locs:?}");
    assert_eq!(locs[0].range.start, at(1, 4));
    assert_eq!(locs[1].range.start, at(2, 4));
}

#[test]
fn using_export_returns_all_library_methods() {
    let mut disk = disk(no_library());
    let src = "module Greetings\nexport greet\ngreet(name) = name\ngreet(a, b) = a\nend\n";
    disk.add("Greetings", "/depot/Greetings", &[("src/Greetings.jl", src)], &["greet"]);
    let locs = def_at("using Greetings\ngreet|(1)", &disk);
    assert_eq!(locs.len(), 2, "{locs:?}");
    assert!(locs.iter().all(|l| l.uri == "file:///depot/Greetings/src/Greetings.jl"));
    // Ordered by offset within the depot source.
    assert_eq!(locs[0].range.start, at(2, 0));
    assert_eq!(locs[1].range.start, at(3, 0));
}

#[test]
fn workspace_sibling_methods_span_member_files() {
    let disk = my_package(&[
        ("src/MyPkg.jl", "module MyPkg\ninclude(\"bar.jl\")\ninclude(\"baz.jl\")\nend\n"),
        ("src/baz.jl", "bar(x, y) = x\n"),
        ("src/bar.jl", "bar(x) = x\n"),
    ]);
    let locs = def_at("bar|(1)", &disk);
    assert_eq!(locs.len(), 2, "{locs:?}");
    // Ordered by path: bar.jl before baz.jl.
    assert_eq!(locs[0].uri, "file:///work/MyPkg/src/bar.jl");
    assert_eq!(locs[1].uri, "file:///work/MyPkg/src/baz.jl");
}

const BASE_ENTRY: &str = "file:///julia/Base/src/Base.jl";
const MYPKG_ENTRY: &str = "file:///work/MyPkg/src/MyPkg.jl";

/// A `Base` that exports `show`, and the workspace's package with one entry file.
fn extension_fixture(mypkg_src: &str) -> Disk {
    let mut disk = my_package(&[("src/MyPkg.jl", mypkg_src)]);
    disk.add(
        "Base",
        "/julia/Base",
        &[("src/Base.jl", "module Base\nexport show\nshow(io) = nothing\nend\n")],
        &["show"],
    );
    disk
}

#[test]
fn qualified_extension_surfaces_workspace_methods() {
    let disk = extension_fixture("module MyPkg\nBase.show(io, x) = 1\nend\n");
    let locs = def_at("Base.show|(io, 2)", &disk);
    assert_eq!(locs.len(), 2, "{locs:?}");
    assert!(locs.iter().any(|l| l.uri == BASE_ENTRY), "{locs:?}");
    assert!(locs.iter().any(|l| l.uri == MYPKG_ENTRY), "{locs:?}");
}

#[test]
fn extension_definition_callee_navigates() {
    let disk = extension_fixture("module MyPkg\nBase.show(io, x) = 1\nend\n");
    let locs = def_at("Base.sho|w(io, x) = 1", &disk);
    assert_eq!(locs.len(), 2, "{locs:?}");
}

#[test]
fn extension_in_submodule_surfaces() {
    let disk = extension_fixture("module MyPkg\nmodule Inner\nBase.show(io, x) = 1\nend\nend\n");
    let locs = def_at("Base.show|(io, 2)", &disk);
    assert_eq!(locs.len(), 2, "{locs:?}");
    assert!(locs.iter().any(|l| l.uri == MYPKG_ENTRY), "{locs:?}");
}

#[test]
fn extension_without_target_package_surfaces() {
    let mut disk = extension_fixture("module MyPkg\nBase.show(io, x) = 1\nend\n");
    disk.env.library.packages.retain(|p| p.name != "Base");
    disk.env.library.roots.retain(|p| p.name != "Base");
    let loc = single_def_at("Base.show|(io, 2)", &disk).unwrap();
    assert_eq!(loc.uri, MYPKG_ENTRY);
}

#[test]
fn qualified_read_prefers_the_bare_group() {
    let mut disk = disk(no_library());
    disk.add(
        "Foo",
        "/depot/Foo",
        &[("src/Foo.jl", "module Foo\nBase.g(x) = 1\ng(x) = 2\nend\n")],
        &[],
    );
    let loc = single_def_at("Foo.g|(1)", &disk).unwrap();
    assert_eq!(loc.uri, "file:///depot/Foo/src/Foo.jl");
    assert_eq!(loc.range.start, at(2, 0));
}

#[test]
fn bare_base_name_includes_workspace_extension() {
    let disk = extension_fixture("module MyPkg\nmodule Inner\nBase.show(io, x) = 1\nend\nend\n");
    let locs = def_at("show|(1)", &disk);
    assert_eq!(locs.len(), 2, "{locs:?}");
    assert!(locs.iter().any(|l| l.uri == BASE_ENTRY), "{locs:?}");
    assert!(locs.iter().any(|l| l.uri == MYPKG_ENTRY), "{locs:?}");
}

/// The workspace's package `MyPkg`, whose top level defines `functions`, with its
/// member files.
struct Workspace {
    env: Env,
    files: Vec<(String, String)>,
}

fn workspace(functions: &[&str], files: &[(&str, &str)]) -> Workspace {
    let mut root = module("MyPkg");
    for name in functions {
        root.functions.push(group(name, Vec::new(), None));
    }
    let mut env = no_library();
    env.workspace = Some(package(root));
    Workspace {
        env,
        files: files.iter().map(|(n, t)| (n.to_string(), t.to_string())).collect(),
    }
}

fn member_uri(name: &str) -> String {
    format!("file:///work/MyPkg/src/{name}")
}

impl Workspace {
    fn text(&self, name: &str) -> &str {
        &self.files.iter().find(|(n, _)| n == name).unwrap().1
    }

    /// Every occurrence of a name at the top level of the members.
    fn occurrences(&self, name: &str) -> Vec<OccurrenceRec> {
        let mut out = Vec::new();
        for (file, (_, text)) in self.files.iter().enumerate() {
            let model = model_of(text, &self.env);
            for (id, binding) in model.bindings.iter().enumerate() {
                let top = matches!(binding.kind, BindingKind::Function | BindingKind::Global);
                if top && binding.name == name {
                    for o in model.occurrences(id) {
                        out.push(OccurrenceRec {
                            file,
                            range: o.range,
                            access: o.access,
                            is_def: o.is_def,
                        });
                    }
                }
            }
            for ident in &model.idents {
                if ident.binding.is_none() && ident.name == name {
                    out.push(OccurrenceRec {
                        file,
                        range: ident.range,
                        access: ident.access,
                        is_def: false,
                    });
                }
            }
        }
        out
    }

    fn sites(&self, name: &str) -> Vec<CrossFileSite> {
        gather_sites(&self.occurrences(name), &self.sources(), PositionEncoding::Utf16)
    }

    fn sources(&self) -> Vec<SourceFile> {
        self.files
            .iter()
            .map(|(n, t)| SourceFile {
                path: path(&format!("/work/MyPkg/src/{n}")),
                uri: Some(member_uri(n)),
                text: t.clone(),
                tree: tree_of(t),
            })
            .collect()
    }

    /// Definitions of the workspace's name: across its files where it is a
    /// function, or else within the file.
    fn definitions(&self, file: &str, position: Position, name: &str) -> Vec<Location> {
        if is_workspace_function(self.env.workspace.as_ref(), &Vec::new(), name, false) {
            let across = cross_file_definitions(&self.sites(name));
            if !across.is_empty() {
                return across;
            }
        }
        let text = self.text(file);
        let model = model_of(text, &self.env);
        match compute_definition(
            &member_uri(file),
            text,
            position,
            &model,
            &self.env.library,
            self.env.workspace.as_ref(),
            &Vec::new(),
            PositionEncoding::Utf16,
        ) {
            Definition::Here(locations) => locations,
            Definition::OnDisk(_) => Vec::new(),
        }
    }
}

#[test]
fn cross_file_definitions_span_member_files() {
    let ws = workspace(
        &["greet"],
        &[("a.jl", "greet(a) = a\ngreet(a, b) = a\n"), ("b.jl", "callit() = greet(2)\n")],
    );
    // Cursor on the `greet` call in b.jl: both methods in a.jl come back.
    let locs = ws.definitions("b.jl", at(0, 11), "greet");
    assert_eq!(locs.len(), 2, "{locs:?}");
    assert!(locs.iter().all(|l| l.uri == member_uri("a.jl")));
    assert!(locs.iter().any(|l| l.range.start == at(0, 0)));
    assert!(locs.iter().any(|l| l.range.start == at(1, 0)));
    // Cursor on the first method's own definition: same answer.
    let locs = ws.definitions("a.jl", at(0, 0), "greet");
    assert_eq!(locs.len(), 2, "{locs:?}");
}

#[test]
fn cross_file_gate_skips_non_function_symbols() {
    let ws = workspace(&["greet"], &[("a.jl", "x = 1\nx = 2\nx\n")]);
    let locs = ws.definitions("a.jl", at(2, 0), "x");
    assert_eq!(locs.len(), 1, "{locs:?}");
    assert_eq!(locs[0].range.start, at(0, 0));
}

// --- References ------------------------------------------------------------------

fn refs(marked: &str, include_declaration: bool) -> Option<Vec<Location>> {
    let (src, position) = cursor(marked);
    let model = model_of(&src, &no_library());
    compute_references(
        URI,
        &src,
        position,
        &model,
        PositionEncoding::Utf16,
        include_declaration,
    )
}

fn highlights(marked: &str) -> Option<Vec<DocumentHighlight>> {
    let (src, position) = cursor(marked);
    let model = model_of(&src, &no_library());
    compute_document_highlights(&src, position, &model, PositionEncoding::Utf16)
}

#[test]
fn local_references_include_the_definition() {
    let locs = refs("function f()\n    x = 1\n    x|\n    x + 1\nend", true).unwrap();
    let ranges: Vec<_> =
        locs.iter().map(|l| (l.range.start.line, l.range.start.character)).collect();
    assert_eq!(ranges, vec![(1, 4), (2, 4), (3, 4)]);
}

#[test]
fn references_can_exclude_the_declaration() {
    let locs = refs("function f()\n    x = 1\n    x|\n    x + 1\nend", false).unwrap();
    let ranges: Vec<_> =
        locs.iter().map(|l| (l.range.start.line, l.range.start.character)).collect();
    // The `x = 1` definition on line 1 is dropped.
    assert_eq!(ranges, vec![(2, 4), (3, 4)]);
}

#[test]
fn references_from_the_definition_site() {
    let locs = refs("function f()\n    x| = 1\n    x\nend", true).unwrap();
    assert_eq!(locs.len(), 2);
}

#[test]
fn highlight_kinds_distinguish_read_from_write() {
    let hs = highlights("function f()\n    x = 1\n    x| = 2\n    x\nend").unwrap();
    let kinds: Vec<_> = hs.iter().map(|h| (h.range.start.line, h.kind)).collect();
    assert_eq!(
        kinds,
        vec![
            (1, DocumentHighlightKind::Write),
            (2, DocumentHighlightKind::Write),
            (3, DocumentHighlightKind::Read),
        ]
    );
}

#[test]
fn augmented_assignment_highlights_as_a_write() {
    let hs = highlights("function f()\n    x = 1\n    x| += 1\nend").unwrap();
    let write = hs
        .iter()
        .find(|h| h.range.start.line == 2)
        .expect("the `x += 1` occurrence");
    assert_eq!(write.kind, DocumentHighlightKind::Write);
}

#[test]
fn parameter_references_reach_every_use() {
    let locs = refs("function f(abc)\n    abc| + abc\nend", true).unwrap();
    // The parameter plus its two uses on line 1.
    assert_eq!(locs.len(), 3);
}

#[test]
fn free_read_has_no_intra_file_references() {
    assert!(refs("println|(1)", true).is_none());
    assert!(highlights("println|(1)").is_none());
}

// --- Renames ---------------------------------------------------------------------

fn prepare_name(marked: &str) -> Option<Range> {
    let (src, position) = cursor(marked);
    let model = model_of(&src, &no_library());
    compute_prepare_rename(&src, position, &model, false, PositionEncoding::Utf16)
}

fn rename_edits(marked: &str, new_name: &str) -> Vec<(u32, u32, String)> {
    let (src, position) = cursor(marked);
    let model = model_of(&src, &no_library());
    let changes = compute_rename(
        URI,
        &src,
        position,
        new_name,
        &model,
        &Vec::new(),
        PositionEncoding::Utf16,
    )
    .expect("a valid new name")
    .expect("a renameable symbol");
    assert_eq!(changes.len(), 1);
    assert_eq!(changes[0].uri, URI);
    changes[0]
        .edits
        .iter()
        .map(|e| (e.range.start.line, e.range.start.character, e.new_text.clone()))
        .collect()
}

#[test]
fn renames_every_occurrence_including_the_definition() {
    let edits = rename_edits("function f()\n    x = 1\n    x| + x\nend", "y");
    assert_eq!(
        edits,
        vec![(1, 4, "y".to_string()), (2, 4, "y".to_string()), (2, 8, "y".to_string())]
    );
}

#[test]
fn renames_from_the_definition_site() {
    let edits = rename_edits("function f()\n    x| = 1\n    x\nend", "y");
    assert_eq!(edits, vec![(1, 4, "y".to_string()), (2, 4, "y".to_string())]);
}

#[test]
fn renames_a_parameter() {
    let edits = rename_edits("function f(abc)\n    abc| + abc\nend", "z");
    assert_eq!(
        edits,
        vec![(0, 11, "z".to_string()), (1, 4, "z".to_string()), (1, 10, "z".to_string())]
    );
}

#[test]
fn a_shadowing_local_binding_is_left_untouched() {
    let src = "x| = 1\nfunction f()\n    x = 2\n    x\nend\nx";
    let edits = rename_edits(src, "y");
    // Only the global definition (line 0) and its trailing use (line 5).
    assert_eq!(edits, vec![(0, 0, "y".to_string()), (5, 0, "y".to_string())]);
}

#[test]
fn renames_a_macro_by_its_bare_name_preserving_the_sigil() {
    let src = "macro greet|(x)\n    x\nend\n@greet 1";
    let edits = rename_edits(src, "hello");
    assert_eq!(edits, vec![(0, 6, "hello".to_string()), (3, 1, "hello".to_string())]);
}

#[test]
fn a_free_read_is_not_renameable() {
    assert!(prepare_name("println|(1)").is_none());
    let (src, position) = cursor("println|(1)");
    let model = model_of(&src, &no_library());
    let edit = compute_rename(
        URI,
        &src,
        position,
        "output",
        &model,
        &Vec::new(),
        PositionEncoding::Utf16,
    )
    .unwrap();
    assert!(edit.is_none());
}

#[test]
fn prepare_rename_reports_the_identifier_range() {
    let range = prepare_name("function f()\n    xyz = 1\n    xy|z\nend").unwrap();
    assert_eq!(range.start, at(2, 4));
    assert_eq!(range.end, at(2, 7));
}

#[test]
fn an_invalid_new_name_is_rejected() {
    let (src, position) = cursor("function f()\n    x| = 1\nend");
    let model = model_of(&src, &no_library());
    for bad in ["", "1x", "a b", "@m", "x-y"] {
        let err = compute_rename(
            URI,
            &src,
            position,
            bad,
            &model,
            &Vec::new(),
            PositionEncoding::Utf16,
        )
        .expect_err(&format!("`{bad}` should be rejected"));
        assert!(err.contains(bad) || bad.is_empty());
        assert_eq!(err, format!("`{bad}` is not a valid identifier"));
    }
    // A valid identifier with a trailing `!` and Unicode is accepted.
    assert!(validate_new_name("mutate!").is_ok());
    assert!(validate_new_name("δx").is_ok());
}

#[test]
fn an_exclamation_mark_stands_at_the_end_of_a_name() {
    for good in ["a", "_", "a!", "a!!", "_1!", "x1_y"] {
        assert!(validate_new_name(good).is_ok(), "{good}");
    }
    for bad in ["!", "a!b", "a!_!", "a!1"] {
        let err = validate_new_name(bad).expect_err(bad);
        assert_eq!(err, format!("`{bad}` is not a valid identifier"));
    }
}

#[test]
fn cross_file_rename_rewrites_every_member_file() {
    let ws = workspace(
        &["greet"],
        &[("a.jl", "greet(a) = a\ngreet(1)\n"), ("b.jl", "callit() = greet(2)\n")],
    );
    let model = model_of(ws.text("a.jl"), &ws.env);
    let changes = compute_rename(
        &member_uri("a.jl"),
        ws.text("a.jl"),
        at(0, 0),
        "hello",
        &model,
        &ws.sites("greet"),
        PositionEncoding::Utf16,
    )
    .expect("a valid new name")
    .expect("greet is a renameable workspace symbol");
    // a.jl: the definition and the call; b.jl: the one call.
    let a = changes.iter().find(|c| c.uri == member_uri("a.jl")).expect("edits in a.jl");
    assert_eq!(a.edits.len(), 2);
    assert!(a.edits.iter().all(|e| e.new_text == "hello"));
    let b = changes.iter().find(|c| c.uri == member_uri("b.jl")).expect("edits in b.jl");
    assert_eq!(b.edits.len(), 1);
    assert_eq!(b.edits[0].range.start, at(0, 11));
}

#[test]
fn cross_file_edits_are_grouped_ordered_and_unique() {
    let site = |file: &str, line: u32, column: u32| CrossFileSite {
        uri: member_uri(file),
        range: Range { start: at(line, column), end: at(line, column + 3) },
        access: Access::Read,
        is_def: false,
    };
    let sites = vec![
        site("b.jl", 4, 2),
        site("a.jl", 1, 9),
        site("b.jl", 0, 7),
        site("b.jl", 4, 2),
        site("a.jl", 1, 0),
    ];
    let changes = cross_file_rename(&sites, "fresh");
    let mut found: Vec<(String, u32, u32, u32, String)> = Vec::new();
    for change in &changes {
        for edit in &change.edits {
            let range = &edit.range;
            found.push((
                change.uri.clone(),
                range.start.line,
                range.start.character,
                range.end.character,
                edit.new_text.clone(),
            ));
        }
    }
    assert_eq!(changes.len(), 2);
    let edit = |file: &str, line: u32, from: u32, to: u32| {
        (member_uri(file), line, from, to, "fresh".to_string())
    };
    assert_eq!(
        found,
        vec![
            edit("b.jl", 0, 7, 10),
            edit("b.jl", 4, 2, 5),
            edit("a.jl", 1, 0, 3),
            edit("a.jl", 1, 9, 12),
        ]
    );
    assert!(cross_file_rename(&Vec::new(), "fresh").is_empty());
}

#[test]
fn prepare_rename_accepts_a_workspace_free_read() {
    let ws = workspace(
        &["greet"],
        &[("a.jl", "greet(a) = a\n"), ("b.jl", "callit() = greet(2)\n")],
    );
    let model = model_of(ws.text("b.jl"), &ws.env);
    let range = compute_prepare_rename(
        ws.text("b.jl"),
        at(0, 11),
        &model,
        true,
        PositionEncoding::Utf16,
    )
    .expect("the workspace free read is renameable");
    // The `greet` token spans columns 11..16 on line 0.
    assert_eq!(range.start, at(0, 11));
    assert_eq!(range.end, at(0, 16));
}

// --- Hovers ----------------------------------------------------------------------

fn hover_of(
    src: &str,
    needle: &str,
    env: &Env,
    docs: &Vec<DocText>,
    names: Option<&FenceNames>,
) -> Option<String> {
    let offset = src.find(needle).unwrap() + needle.len();
    let position = LineIndex::new(src).byte_to_position(offset, PositionEncoding::Utf16);
    let model = model_of(src, env);
    compute_hover(
        src,
        position,
        &model,
        &env.library,
        env.workspace.as_ref(),
        docs,
        names,
        PositionEncoding::Utf16,
    )
    .map(|h| h.value)
}

fn hover_at(src: &str, needle: &str, env: &Env) -> Option<String> {
    hover_of(src, needle, env, &Vec::new(), None)
}

#[test]
fn workspace_sibling_shows_its_signature() {
    let mut root = module("MyPkg");
    root.functions.push(group("sibling", vec![method(&["x"], &[])], Some("a sibling function")));
    let mut env = no_library();
    env.workspace = Some(package(root));
    let value = hover_at("sibling(1)", "sibling", &env).unwrap();
    assert!(value.contains("sibling"), "{value}");
    assert!(value.contains("a sibling function"), "{value}");
}

#[test]
fn local_parameter_shows_kind() {
    let value = hover_at("function f(abc)\n    abc\nend", "    ab", &no_library()).unwrap();
    assert!(value.contains("abc"), "{value}");
    assert!(value.contains("*parameter*"), "{value}");
}

#[test]
fn local_function_shows_signature() {
    let value = hover_at(
        "function greet(a, b)\n    a + b\nend\ngreet(1, 2)",
        "gre",
        &no_library(),
    )
    .unwrap();
    assert!(value.contains("function greet(a, b)"), "{value}");
    assert!(value.contains("*function*"), "{value}");
}

#[test]
fn local_function_shows_decoded_documentation() {
    let src = "\"A decoded\\n**docstring**.\"\ngreet(name) = name\nresult = greet(\"Ada\")";
    let needle = "result = gre";
    let mut model = model_of(src, &no_library());
    let greet = model.bindings.iter_mut().find(|b| b.name == "greet").unwrap();
    greet.docs.push("A decoded\n**docstring**.".to_string());
    let offset = src.find(needle).unwrap() + needle.len();
    let position = LineIndex::new(src).byte_to_position(offset, PositionEncoding::Utf16);
    let env = no_library();
    let hover = compute_hover(
        src,
        position,
        &model,
        &env.library,
        None,
        &Vec::new(),
        None,
        PositionEncoding::Utf16,
    )
    .unwrap();
    assert!(hover.value.contains("A decoded\n**docstring**."), "{}", hover.value);
}

/// The code of a fence, embedded in a docstring that is written as it stands, with
/// the names in it.
fn embedded_in(src: &str, code: &str, outside: &Env) -> (Vec<DocText>, FenceNames) {
    let at = src.find(code).unwrap() as u32;
    let model = model_of(code, &no_library());
    let outer_model = model_of(src, outside);
    let outer = model
        .idents
        .iter()
        .map(|ident| {
            match outer_model.bindings.iter().position(|b| b.name == ident.name) {
                Some(id) => Resolution::Binding(id),
                None => Resolution::Unresolved,
            }
        })
        .collect();
    let doc = DocText {
        text: src.to_string(),
        map: plain_map(src.len() as u32),
        refs: Vec::new(),
        links: Vec::new(),
        footnotes: Vec::new(),
        anchors: Vec::new(),
        notes: Vec::new(),
        fences: vec![TextRange { start: at, end: at + code.len() as u32 }],
        target_start: src.rfind("\"\"\"").unwrap() as u32,
    };
    (vec![doc], FenceNames { model, outer })
}

#[test]
fn embedded_julia_has_hover() {
    let src = "\"\"\"\n\
         ```julia\n\
         example_value = 1\n\
         answer = example_value\n\
         ```\n\
         \"\"\"\n\
         f() = 1\n";
    let env = no_library();
    let (docs, names) = embedded_in(src, "example_value = 1\nanswer = example_value\n", &env);
    let value = hover_of(src, "answer = example_va", &env, &docs, Some(&names)).unwrap();
    assert!(value.contains("example_value"), "{value}");
    assert!(value.contains("*global*"), "{value}");
}

#[test]
fn embedded_julia_hover_sees_the_documented_file_scope() {
    let src = "\"\"\"\n\
         ```julia\n\
         answer = greet(\"Ada\")\n\
         ```\n\
         \"\"\"\n\
         greet(name) = name\n";
    let env = no_library();
    let (docs, names) = embedded_in(src, "answer = greet(\"Ada\")\n", &env);
    let value = hover_of(src, "answer = gre", &env, &docs, Some(&names)).unwrap();
    assert!(value.contains("greet(name) = name"), "{value}");
}

fn base_with(root: ModuleIndex, exports: &[&str]) -> Env {
    library(vec![(root, exports)])
}

#[test]
fn library_function_shows_method_group_and_docstring() {
    let mut base = module("Base");
    base.functions.push(group(
        "map",
        vec![method(&["f", "iter"], &[]), method(&["f", "A"], &[])],
        Some("Transform collection `iter` by applying `f`."),
    ));
    let env = base_with(base, &["map"]);
    let value = hover_at("map(sin, xs)", "ma", &env).unwrap();
    assert!(value.contains("map(f, iter)"), "{value}");
    assert!(value.contains("map(f, A)"), "{value}");
    assert!(value.contains("Transform collection"), "{value}");
}

#[test]
fn method_group_is_capped_with_a_count() {
    let mut base = module("Base");
    base.functions.push(group("f", (0..15).map(|_| method(&["x"], &[])).collect(), None));
    let env = base_with(base, &["f"]);
    let value = hover_at("f(1)", "f", &env).unwrap();
    assert_eq!(value.matches("f(x)").count(), MAX_METHODS);
    assert!(value.contains("# + 5 more methods"), "{value}");
}

#[test]
fn library_type_shows_definition() {
    let mut base = module("Base");
    let mut dict = typedef("Dict", true);
    dict.supertype = Some(TypeExpr::Name { path: texts(&["AbstractDict"]) });
    dict.doc = Some("A hash table.".to_string());
    base.types.push(dict);
    let env = base_with(base, &["Dict"]);
    let value = hover_at("Dict()", "Di", &env).unwrap();
    assert!(value.contains("mutable struct Dict <: AbstractDict"), "{value}");
    assert!(value.contains("A hash table."), "{value}");
}

#[test]
fn library_macro_shows_at_name() {
    let mut base = module("Base");
    let mut time = macrodef("@time", &["expr"]);
    time.doc = Some("Time an expression.".to_string());
    base.macros.push(time);
    let env = base_with(base, &["@time"]);
    let value = hover_at("@time f()", "@ti", &env).unwrap();
    assert!(value.contains("@time(expr)"), "{value}");
    assert!(value.contains("Time an expression."), "{value}");
}

#[test]
fn qualified_read_resolves_member() {
    let mut root = module("LinearAlgebra");
    root.functions.push(group("norm", vec![method(&["x"], &[])], Some("The norm.")));
    let env = base_with(root, &[]);
    let value = hover_at("LinearAlgebra.norm(v)", "LinearAlgebra.no", &env).unwrap();
    assert!(value.contains("norm(x)"), "{value}");
    assert!(value.contains("The norm."), "{value}");
}

/// A workspace package whose root holds one `Base.show` extension group.
fn extending_workspace() -> PackageIndex {
    let mut root = module("MyPkg");
    let mut show = group("show", vec![method(&["io", "x"], &[])], None);
    show.owner = Some(texts(&["Base"]));
    root.functions.push(show);
    package(root)
}

#[test]
fn qualified_read_merges_workspace_extension_methods() {
    let mut base = module("Base");
    base.functions.push(group(
        "show",
        vec![method(&["io"], &[])],
        Some("Write a representation."),
    ));
    let mut env = base_with(base, &["show"]);
    env.workspace = Some(extending_workspace());
    let value = hover_at("Base.show(io, 2)", "Base.sh", &env).unwrap();
    assert!(value.contains("show(io)"), "{value}");
    assert!(value.contains("show(io, x)"), "{value}");
    assert!(value.contains("Write a representation."), "{value}");
}

#[test]
fn qualified_read_renders_extensions_without_the_target_package() {
    let mut env = no_library();
    env.workspace = Some(extending_workspace());
    let value = hover_at("Base.show(io, 2)", "Base.sh", &env).unwrap();
    assert!(value.contains("show(io, x)"), "{value}");
}

#[test]
fn const_shows_value() {
    let mut base = module("Base");
    let mut pi = constant("pi", Some("3.14159"));
    pi.doc = Some("The constant pi.".to_string());
    base.consts.push(pi);
    let env = base_with(base, &["pi"]);
    let value = hover_at("pi", "p", &env).unwrap();
    assert!(value.contains("pi = 3.14159"), "{value}");
}

#[test]
fn unresolved_name_has_no_hover() {
    assert!(hover_at("unknown_symbol", "unk", &no_library()).is_none());
}

/// What a request is answered from: the text that the database holds where that is
/// the text of the buffer, or else the buffer itself.
fn served<'t>(held: Option<&'t str>, buffer: &'t str) -> &'t str {
    match held {
        Some(held) if cache_is_current(Some(held), buffer) => held,
        _ => buffer,
    }
}

#[test]
fn hover_via_db_matches_compute_and_falls_back() {
    let mut base = module("Base");
    base.functions.push(group("map", vec![method(&["f", "iter"], &[])], Some("Map.")));
    let env = base_with(base, &["map"]);
    let buffer = "map(sin, xs)\n";
    let hover = |src: &str| {
        compute_hover(
            src,
            at(0, 1),
            &model_of(src, &env),
            &env.library,
            None,
            &Vec::new(),
            None,
            PositionEncoding::Utf8,
        )
        .map(|h| (h.value, h.range))
    };
    let expected = hover(buffer);
    assert!(expected.is_some());
    // Cache hit: the held text equals the live buffer.
    assert_eq!(hover(served(Some(buffer), buffer)), expected);
    // Stale buffer: the held text differs.
    let other = "xs\n";
    assert_eq!(hover(served(Some(buffer), other)), hover(other));
    assert!(hover(other).is_none());
}
/// A docstring that reads as it is written: every byte stands for itself.
fn plain_map(length: u32) -> SourceMap {
    SourceMap { starts: (0..length).collect(), ends: (1..length + 1).collect() }
}

// --- Signature help --------------------------------------------------------------

fn help_at(marked: &str, env: &Env) -> Option<SignatureHelp> {
    let (src, position) = cursor(marked);
    compute_signature_help(
        &src,
        position,
        &tree_of(&src),
        &model_of(&src, env),
        &env.library,
        PositionEncoding::Utf16,
    )
}

fn labels(help: &SignatureHelp) -> Vec<&str> {
    help.signatures.iter().map(|s| s.label.as_str()).collect()
}

fn base_function(name: &str, methods: Vec<Method>) -> Env {
    let mut base = module("Base");
    base.functions.push(group(name, methods, None));
    base_with(base, &[name])
}

#[test]
fn library_method_group_and_active_parameter() {
    let mut base = module("Base");
    base.functions.push(group(
        "map",
        vec![method(&["f", "iter"], &[]), method(&["f", "A"], &[])],
        Some("Transform `iter` by `f`."),
    ));
    let env = base_with(base, &["map"]);
    let help = help_at("map(sin, |xs)", &env).unwrap();
    assert_eq!(labels(&help), ["map(f, iter)", "map(f, A)"]);
    // Cursor is in the second positional argument.
    assert_eq!(help.active_parameter, Some(1));
    assert_eq!(help.signatures[0].active_parameter, Some(1));
    // The docstring rides along as signature documentation.
    assert!(help.signatures[0].documentation.is_some());
    // `f` and `iter` as they stand in the label.
    assert_eq!(help.signatures[0].parameters, vec![(4, 5), (7, 11)]);
}

#[test]
fn active_parameter_advances_past_commas() {
    let env = base_function("f", vec![method(&["a", "b"], &[])]);
    assert_eq!(help_at("f(1|)", &env).unwrap().active_parameter, Some(0));
    assert_eq!(help_at("f(1, |2)", &env).unwrap().active_parameter, Some(1));
}

#[test]
fn cursor_right_after_open_paren_is_first_parameter() {
    let env = base_function("f", vec![method(&["a", "b"], &[])]);
    assert_eq!(help_at("f(|)", &env).unwrap().active_parameter, Some(0));
}

#[test]
fn vararg_swallows_further_arguments() {
    let mut rest = method(&["a", "rest"], &[]);
    rest.params[1].is_vararg = true;
    let env = base_function("g", vec![rest]);
    // Third positional still highlights the vararg (index 1).
    assert_eq!(help_at("g(1, 2, |3)", &env).unwrap().active_parameter, Some(1));
}

#[test]
fn an_argument_past_the_last_parameter_has_none() {
    let env = base_function("f", vec![method(&["a", "b"], &[])]);
    let help = help_at("f(1, 2, |3)", &env).unwrap();
    assert_eq!(help.active_parameter, None);
    assert_eq!(help.signatures[0].active_parameter, None);
    let two = method(&["a", "b"], &[]);
    assert_eq!(active_parameter(&two, &Active::Positional(1)), Some(1));
    assert_eq!(active_parameter(&two, &Active::Positional(2)), None);
    assert_eq!(active_parameter(&method(&[], &[]), &Active::Positional(0)), None);
}

#[test]
fn an_argument_of_a_definition_is_shown_verbatim() {
    let help = help_at(
        "function greet(a, b::Int; z  =  1)\n    a\nend\ngreet(1, |2)",
        &no_library(),
    )
    .unwrap();
    assert_eq!(labels(&help), ["greet(a, b::Int; z  =  1)"]);
}

#[test]
fn keyword_argument_highlights_matching_parameter() {
    let env = base_function("h", vec![method(&["a"], &["by", "rev"])]);
    let help = help_at("h(x; rev|=true)", &env).unwrap();
    // `a` is index 0, `by` index 1, `rev` index 2.
    assert_eq!(help.active_parameter, Some(2));
    assert_eq!(labels(&help), ["h(a; by, rev)"]);
    assert_eq!(help.signatures[0].parameters, vec![(2, 3), (5, 7), (9, 12)]);
}

#[test]
fn qualified_callee_resolves_member() {
    let mut root = module("LinearAlgebra");
    root.functions.push(group("norm", vec![method(&["x", "p"], &[])], None));
    let env = base_with(root, &[]);
    let help = help_at("LinearAlgebra.norm(v, |2)", &env).unwrap();
    assert_eq!(labels(&help), ["norm(x, p)"]);
    assert_eq!(help.active_parameter, Some(1));
}

#[test]
fn intra_file_function_shows_its_signature() {
    let help = help_at(
        "function greet(a, b::Int; c=1)\n    a\nend\ngreet(1, |2)",
        &no_library(),
    )
    .unwrap();
    assert_eq!(labels(&help), ["greet(a, b::Int; c=1)"]);
    assert_eq!(help.active_parameter, Some(1));
}

#[test]
fn nested_call_selects_inner_callee() {
    let mut base = module("Base");
    base.functions.push(group("f", vec![method(&["x"], &[])], None));
    base.functions.push(group("g", vec![method(&["y"], &[])], None));
    let env = base_with(base, &["f", "g"]);
    let help = help_at("f(g(|))", &env).unwrap();
    assert_eq!(labels(&help), ["g(y)"]);
}

#[test]
fn outside_a_call_has_no_help() {
    let env = base_function("f", vec![method(&["a"], &[])]);
    assert!(help_at("f(1) |+ 2", &env).is_none());
}

#[test]
fn unresolved_callee_has_no_help() {
    assert!(help_at("mystery(|1)", &no_library()).is_none());
}

#[test]
fn active_signature_prefers_a_fitting_arity() {
    let env = base_function("f", vec![method(&["a"], &[]), method(&["a", "b"], &[])]);
    // Two positional arguments: only the second method fits.
    let help = help_at("f(1, |2)", &env).unwrap();
    assert_eq!(help.active_signature, 1);
    assert_eq!(help.active_parameter, Some(1));
}

#[test]
fn a_function_without_methods_has_no_help() {
    let env = base_function("f", Vec::new());
    assert!(help_at("f(|)", &env).is_none());
}

#[test]
fn via_db_matches_compute_and_falls_back() {
    let env = base_function("map", vec![method(&["f", "iter"], &[])]);
    let buffer = "map(sin, xs)\n";
    let help = |src: &str| {
        compute_signature_help(
            src,
            at(0, 9),
            &tree_of(src),
            &model_of(src, &env),
            &env.library,
            PositionEncoding::Utf8,
        )
        .map(|h| (h.signatures.into_iter().map(|s| s.label).collect::<Vec<_>>(), h.active_parameter))
    };
    let expected = help(buffer);
    assert!(expected.is_some());
    assert_eq!(help(served(Some(buffer), buffer)), expected);
    let other = "map(sin, xs, extra)\n";
    assert_eq!(help(served(Some(buffer), other)), help(other));
}

// --- Call hierarchy --------------------------------------------------------------

fn prepare(marked: &str) -> Option<CallHierarchyItem> {
    let (src, position) = cursor(marked);
    compute_prepare_call_hierarchy(
        URI,
        &src,
        position,
        &tree_of(&src),
        &model_of(&src, &no_library()),
        PositionEncoding::Utf16,
    )
}

fn source_file(src: &str) -> SourceFile {
    SourceFile {
        path: path("/work/s.jl"),
        uri: Some(URI.to_string()),
        text: src.to_string(),
        tree: tree_of(src),
    }
}

fn incoming_of(src: &str, kind: ItemKind, position: Position) -> Option<Vec<CallGroup>> {
    incoming_calls(
        kind,
        position,
        URI,
        &source_file(src),
        &model_of(src, &no_library()),
        &None,
        &Vec::new(),
        PositionEncoding::Utf16,
    )
}

fn incoming(marked: &str) -> Vec<CallGroup> {
    let item = prepare(marked).expect("the marker names a function");
    let (src, _) = cursor(marked);
    incoming_of(&src, item.kind, item.selection_range.start).expect("item re-derives")
}

fn outgoing_of(src: &str, item: &CallHierarchyItem) -> Vec<CallGroup> {
    let env = no_library();
    let scope = CallScope {
        uri: URI,
        file: &source_file(src),
        model: &model_of(src, &env),
        library: &env.library,
        symbols: &Vec::new(),
        files: &Vec::new(),
        disk: &Vec::new(),
        encoding: PositionEncoding::Utf16,
    };
    outgoing_calls(item.kind, item.selection_range.start, &scope).expect("item re-derives")
}

fn outgoing(marked: &str) -> Vec<CallGroup> {
    let item = prepare(marked).expect("the marker names a function");
    let (src, _) = cursor(marked);
    outgoing_of(&src, &item)
}

#[test]
fn prepare_on_a_long_form_definition_name() {
    let item = prepare("function fo|o(x)\n    x\nend").unwrap();
    assert_eq!(item.name, "foo");
    assert_eq!(item.kind, ItemKind::Function);
    assert_eq!(item.detail.as_deref(), Some("(x)"));
    assert_eq!(item.selection_range.start, at(0, 9));
    assert_eq!(item.range.start, at(0, 0));
    assert_eq!(item.range.end, at(2, 3));
}

#[test]
fn prepare_on_a_short_form_definition() {
    let item = prepare("gre|et(a) = a").unwrap();
    assert_eq!(item.name, "greet");
    assert_eq!(item.selection_range.start, at(0, 0));
}

#[test]
fn prepare_on_a_call_site_points_at_the_definition() {
    let item = prepare("greet(a) = a\ngre|et(1)").unwrap();
    assert_eq!(item.name, "greet");
    // The item is the definition, not the call.
    assert_eq!(item.selection_range.start, at(0, 0));
}

#[test]
fn prepare_rejects_non_functions() {
    // A local variable, a struct name, and plain text all yield nothing.
    assert!(prepare("function f()\n    x| = 1\nend").is_none());
    assert!(prepare("struct Poi|nt\n    x\nend").is_none());
    assert!(prepare("1 +| 1").is_none());
}

#[test]
fn prepare_via_db_matches_compute_and_falls_back() {
    let (src, position) = cursor("greet(a) = a\ngre|et(1)");
    let item = |text: &str| {
        compute_prepare_call_hierarchy(
            URI,
            text,
            position,
            &tree_of(text),
            &model_of(text, &no_library()),
            PositionEncoding::Utf16,
        )
        .map(|i| (i.name, i.selection_range))
    };
    let expected = item(&src);
    assert!(expected.is_some(), "fixture must yield an item");
    assert_eq!(item(served(Some(&src), &src)), expected);
    assert_eq!(item(served(Some("y = 1\n"), &src)), expected);
}

#[test]
fn incoming_groups_a_callers_sites_and_keeps_top_level() {
    let calls =
        incoming("f|(x) = x\nfunction caller()\n    f(1)\n    f(2)\nend\nmap(f, [1])\nf(3)\n");
    assert_eq!(calls.len(), 2, "{calls:#?}");

    let file = &calls[0];
    assert_eq!(file.item.kind, ItemKind::File);
    assert_eq!(file.item.name, "s.jl");
    assert_eq!(file.from_ranges.len(), 1);
    assert_eq!(file.from_ranges[0].start, at(6, 0));

    let caller = &calls[1];
    assert_eq!(caller.item.name, "caller");
    assert_eq!(caller.item.kind, ItemKind::Function);
    assert_eq!(
        caller.from_ranges.iter().map(|r| r.start.line).collect::<Vec<_>>(),
        vec![2, 3]
    );
}

#[test]
fn incoming_excludes_other_method_definitions() {
    // The second method's signature mentions `f` but defines it.
    let calls = incoming("f|(x) = x\nf(x, y) = x\nf(1)\n");
    assert_eq!(calls.len(), 1);
    assert_eq!(calls[0].item.kind, ItemKind::File);
    assert_eq!(calls[0].from_ranges.len(), 1);
    assert_eq!(calls[0].from_ranges[0].start, at(2, 0));
}

#[test]
fn incoming_attributes_anonymous_functions_to_the_named_caller() {
    let calls = incoming("f|(x) = x\ng() = map(x -> f(x), [1])\n");
    assert_eq!(calls.len(), 1);
    assert_eq!(calls[0].item.name, "g");
}

#[test]
fn incoming_counts_broadcast_and_do_block_calls() {
    let calls = incoming(
        "f|(g, x) = g(x)\nfunction h()\n    f([1]) do x\n        x\n    end\n    f.([2])\nend\n",
    );
    assert_eq!(calls.len(), 1, "{calls:#?}");
    assert_eq!(calls[0].item.name, "h");
    assert_eq!(calls[0].from_ranges.len(), 2);
}

#[test]
fn incoming_attributes_module_top_level_to_the_module() {
    let calls = incoming("module M\nf|(x) = x\nf(1)\nend\n");
    assert_eq!(calls.len(), 1);
    assert_eq!(calls[0].item.name, "M");
    assert_eq!(calls[0].item.kind, ItemKind::Module);
}

#[test]
fn synthesized_containers_do_not_expand_upward() {
    let src = "module M\nf|(x) = x\nf(1)\nend\n";
    let calls = incoming(src);
    let item = &calls[0].item;
    let (src, _) = cursor(src);
    let above = incoming_of(&src, item.kind, item.selection_range.start);
    assert_eq!(above.map(|calls| calls.len()), Some(0));
}

#[test]
fn outgoing_finds_body_calls_and_skips_nested_definitions() {
    let calls = outgoing(
        "helper(x) = x\nother(x) = x\nfunction ma|in()\n    helper(1)\n    inner(y) = other(y)\n    nope(2)\nend\n",
    );
    assert_eq!(calls.len(), 1, "{calls:#?}");
    assert_eq!(calls[0].item.name, "helper");
    assert_eq!(calls[0].from_ranges.len(), 1);
    assert_eq!(calls[0].from_ranges[0].start, at(3, 4));
}

#[test]
fn outgoing_excludes_the_own_signature_and_finds_recursion() {
    let calls = outgoing("fa|ct(n) = n <= 1 ? 1 : n * fact(n - 1)\n");
    assert_eq!(calls.len(), 1);
    assert_eq!(calls[0].item.name, "fact");
    // Only the recursive call, not the defining signature.
    assert_eq!(calls[0].from_ranges.len(), 1);
    assert_eq!(calls[0].from_ranges[0].start, at(0, 27));
}

#[test]
fn outgoing_groups_repeat_calls_to_one_target() {
    let calls = outgoing("f(x) = x\ng|() = f(1) + f(2)\n");
    assert_eq!(calls.len(), 1);
    assert_eq!(calls[0].item.name, "f");
    assert_eq!(calls[0].from_ranges.len(), 2);
}

#[test]
fn outgoing_resolves_using_exports_into_the_library() {
    let mut fixture = disk(no_library());
    fixture.add("Greetings", "/depot/Greetings", &[("src/Greetings.jl", GREETINGS)], &["greet"]);
    let (src, position) = cursor("using Greetings\ncall|it() = greet(1)\n");
    let model = model_of(&src, &fixture.env);
    let item = compute_prepare_call_hierarchy(
        URI,
        &src,
        position,
        &tree_of(&src),
        &model,
        PositionEncoding::Utf16,
    )
    .unwrap();
    let depot = SourceFile {
        path: path("/depot/Greetings/src/Greetings.jl"),
        uri: Some("file:///depot/Greetings/src/Greetings.jl".to_string()),
        text: GREETINGS.to_string(),
        tree: tree_of(GREETINGS),
    };
    let scope = CallScope {
        uri: URI,
        file: &source_file(&src),
        model: &model,
        library: &fixture.env.library,
        symbols: &Vec::new(),
        files: &Vec::new(),
        disk: &vec![depot],
        encoding: PositionEncoding::Utf16,
    };
    let calls = outgoing_calls(item.kind, item.selection_range.start, &scope).unwrap();
    assert_eq!(calls.len(), 1, "{calls:#?}");
    assert_eq!(calls[0].item.name, "greet");
    assert_eq!(calls[0].item.uri, "file:///depot/Greetings/src/Greetings.jl");
    // The full short-form definition on line 2 of the depot source.
    assert_eq!(calls[0].item.selection_range.start, at(2, 0));
    assert_eq!(calls[0].item.range.start, at(2, 0));
    assert_eq!(calls[0].item.range.end, at(2, 18));
    // The call site is reported in the caller's document.
    assert_eq!(calls[0].from_ranges[0].start, at(1, 11));
}

fn greet_and_callit() -> Workspace {
    workspace(
        &["greet", "callit"],
        &[("a.jl", "greet(a) = a\n"), ("b.jl", "callit() = greet(2)\n")],
    )
}

fn prepare_in(ws: &Workspace, file: &str, position: Position, name: &str) -> CallHierarchyItem {
    let text = ws.text(file);
    prepare_call_hierarchy(
        &member_uri(file),
        text,
        position,
        &tree_of(text),
        &model_of(text, &ws.env),
        &Some(ws.occurrences(name)),
        &ws.sources(),
        PositionEncoding::Utf16,
    )
    .expect("a workspace symbol")
}

#[test]
fn cross_file_prepare_points_into_the_defining_file() {
    let ws = greet_and_callit();
    // Cursor on the `greet` call in b.jl (a free read resolving to MyPkg).
    let item = prepare_in(&ws, "b.jl", at(0, 11), "greet");
    assert_eq!(item.name, "greet");
    assert_eq!(item.uri, member_uri("a.jl"));
    assert_eq!(item.selection_range.start, at(0, 0));
}

#[test]
fn cross_file_incoming_finds_callers_in_sibling_files() {
    let ws = greet_and_callit();
    let item = prepare_in(&ws, "a.jl", at(0, 0), "greet");
    let sources = ws.sources();
    let calls = incoming_calls(
        item.kind,
        item.selection_range.start,
        &item.uri,
        &sources[0],
        &model_of(ws.text("a.jl"), &ws.env),
        &Some(ws.occurrences("greet")),
        &sources,
        PositionEncoding::Utf16,
    )
    .unwrap();
    assert_eq!(calls.len(), 1, "{calls:#?}");
    assert_eq!(calls[0].item.name, "callit");
    assert_eq!(calls[0].item.uri, member_uri("b.jl"));
    assert_eq!(calls[0].from_ranges[0].start, at(0, 11));
}

#[test]
fn cross_file_outgoing_targets_the_sibling_definition() {
    let ws = greet_and_callit();
    let item = prepare_in(&ws, "b.jl", at(0, 1), "callit");
    assert_eq!(item.name, "callit");
    let sources = ws.sources();
    let symbols = vec![SymbolSites {
        path: Vec::new(),
        name: "greet".to_string(),
        recs: ws.occurrences("greet"),
    }];
    let scope = CallScope {
        uri: &item.uri,
        file: &sources[1],
        model: &model_of(ws.text("b.jl"), &ws.env),
        library: &ws.env.library,
        symbols: &symbols,
        files: &sources,
        disk: &Vec::new(),
        encoding: PositionEncoding::Utf16,
    };
    let calls = outgoing_calls(item.kind, item.selection_range.start, &scope).unwrap();
    assert_eq!(calls.len(), 1, "{calls:#?}");
    assert_eq!(calls[0].item.name, "greet");
    assert_eq!(calls[0].item.uri, member_uri("a.jl"));
    assert_eq!(calls[0].item.selection_range.start, at(0, 0));
    // The call site stays in the caller's document.
    assert_eq!(calls[0].from_ranges[0].start, at(0, 11));
}

#[test]
fn outgoing_from_a_file_item_reports_top_level_calls() {
    let marked = "f|(x) = x\ng() = f(1)\nf(2)\n";
    let calls = incoming(marked);
    let file = calls
        .iter()
        .find(|c| c.item.kind == ItemKind::File)
        .expect("a top-level caller");
    let (src, _) = cursor(marked);
    let out = outgoing_of(&src, &file.item);
    assert_eq!(out.len(), 1);
    assert_eq!(out[0].item.name, "f");
    assert_eq!(out[0].from_ranges.len(), 1);
    assert_eq!(out[0].from_ranges[0].start, at(2, 0));
}

#[test]
fn an_item_that_is_gone_has_no_calls() {
    assert!(incoming_of("x = 1\n", ItemKind::Function, at(0, 0)).is_none());
}

// --- Semantic tokens -------------------------------------------------------------

#[test]
fn legend_order_matches_highlight_kind_discriminants() {
    let legend = legend();
    for (kind, token_type) in [
        (HighlightKind::Keyword, "keyword"),
        (HighlightKind::Macro, "macro"),
        (HighlightKind::String, "string"),
        (HighlightKind::Number, "number"),
        (HighlightKind::Function, "function"),
        (HighlightKind::Type, "type"),
        (HighlightKind::Module, "namespace"),
    ] {
        assert_eq!(legend[highlight_index(kind) as usize], token_type);
    }
    assert_eq!(legend.len(), 7, "every kind is in the legend");
}

fn tokens_of(src: &str, env: &Env) -> Vec<SemanticToken> {
    compute_semantic_tokens(
        src,
        &tree_of(src),
        &model_of(src, env),
        &env.library,
        env.workspace.as_ref(),
        PositionEncoding::Utf8,
    )
}

/// The tokens of `src` as painted text and kind, in document order.
fn painted(src: &str, env: &Env) -> Vec<(String, u32)> {
    let line_index = LineIndex::new(src);
    let (mut line, mut character) = (0u32, 0u32);
    let mut out = Vec::new();
    for t in tokens_of(src, env) {
        if t.delta_line > 0 {
            line += t.delta_line;
            character = 0;
        }
        character += t.delta_start;
        let start = line_index.position_to_byte(at(line, character), PositionEncoding::Utf8);
        out.push((src[start..start + t.length as usize].to_string(), t.token_type));
    }
    out
}

fn expect(pairs: &[(&str, HighlightKind)]) -> Vec<(String, u32)> {
    pairs.iter().map(|&(text, kind)| (text.to_string(), highlight_index(kind))).collect()
}

#[test]
fn the_paint_of_the_tree_wins_on_an_overlap() {
    let src = "x = true\n";
    let env = no_library();
    let mut model = model_of(src, &env);
    for (start, end) in [(4, 6), (4, 8), (2, 6), (7, 9)] {
        model.bindings.push(Binding {
            name: "name".to_string(),
            kind: BindingKind::Function,
            def_range: TextRange { start, end },
            docs: Vec::new(),
        });
    }
    let encoding = PositionEncoding::Utf8;
    let tokens =
        compute_semantic_tokens(src, &tree_of(src), &model, &env.library, None, encoding);
    let shown: Vec<_> = tokens.iter().map(|t| (t.delta_start, t.length, t.token_type)).collect();
    assert_eq!(shown, vec![(4, 4, highlight_index(HighlightKind::Keyword))]);
}

#[test]
fn function_names_paint_at_definition_and_use() {
    assert_eq!(
        painted("square(x) = x * x\nsquare(2)\n", &no_library()),
        expect(&[
            ("square", HighlightKind::Function),
            ("square", HighlightKind::Function),
            ("2", HighlightKind::Number),
        ]),
    );
}

#[test]
fn definition_names_paint_by_binding_kind() {
    let src = "module M\nfunction f(x)\n    x\nend\nmacro m(x)\n    x\nend\nstruct S\n    a\nend\nend\n";
    assert_eq!(
        painted(src, &no_library()),
        expect(&[
            ("module", HighlightKind::Keyword),
            ("M", HighlightKind::Module),
            ("function", HighlightKind::Keyword),
            ("f", HighlightKind::Function),
            ("end", HighlightKind::Keyword),
            ("macro", HighlightKind::Keyword),
            ("m", HighlightKind::Macro),
            ("end", HighlightKind::Keyword),
            ("struct", HighlightKind::Keyword),
            ("S", HighlightKind::Type),
            ("end", HighlightKind::Keyword),
            ("end", HighlightKind::Keyword),
        ]),
    );
}

#[test]
fn local_uses_paint_by_their_binding_kind() {
    assert_eq!(
        painted("struct P\n    a\nend\nP\n", &no_library()),
        expect(&[
            ("struct", HighlightKind::Keyword),
            ("P", HighlightKind::Type),
            ("end", HighlightKind::Keyword),
            ("P", HighlightKind::Type),
        ]),
    );
    assert_eq!(
        painted("module M\nend\nM\n", &no_library()),
        expect(&[
            ("module", HighlightKind::Keyword),
            ("M", HighlightKind::Module),
            ("end", HighlightKind::Keyword),
            ("M", HighlightKind::Module),
        ]),
    );
}

#[test]
fn variables_and_parameters_stay_plain() {
    assert_eq!(
        painted("x = 1\nfunction g(y)\n    x + y\nend\n", &no_library()),
        expect(&[
            ("1", HighlightKind::Number),
            ("function", HighlightKind::Keyword),
            ("g", HighlightKind::Function),
            ("end", HighlightKind::Keyword),
        ]),
    );
}

#[test]
fn library_free_reads_classify_by_symbol_kind() {
    let mut base = module("Base");
    base.functions.push(group("map", Vec::new(), None));
    base.types.push(typedef("Dict", false));
    base.consts.push(constant("pi", None));
    base.submodules.push(module("Threads"));
    let env = base_with(base, &["map", "Dict", "pi", "Threads"]);
    assert_eq!(
        painted("map(pi, xs)\nDict\nThreads\n", &env),
        expect(&[
            ("map", HighlightKind::Function),
            ("Dict", HighlightKind::Type),
            ("Threads", HighlightKind::Module),
        ]),
    );
}

#[test]
fn using_export_paints_from_the_used_module() {
    let mut a = module("A");
    a.functions.push(group("greet", Vec::new(), None));
    let env = base_with(a, &["greet"]);
    assert_eq!(
        painted("using A\ngreet(1)\n", &env),
        expect(&[
            ("using", HighlightKind::Keyword),
            ("greet", HighlightKind::Function),
            ("1", HighlightKind::Number),
        ]),
    );
}

#[test]
fn a_local_shadow_masks_the_library() {
    let mut base = module("Base");
    base.functions.push(group("map", Vec::new(), None));
    let env = base_with(base, &["map"]);
    // The parameter `map` shadows Base's function: both sites stay plain.
    assert_eq!(
        painted("function h(map)\n    map\nend\n", &env),
        expect(&[
            ("function", HighlightKind::Keyword),
            ("h", HighlightKind::Function),
            ("end", HighlightKind::Keyword),
        ]),
    );
}

#[test]
fn qualified_reads_paint_namespaces_and_the_member() {
    let mut inner = module("Threads");
    inner.macros.push(macrodef("@spawn", &[]));
    inner.functions.push(group("nthreads", Vec::new(), None));
    let mut base = module("Base");
    base.submodules.push(inner);
    base.functions.push(group("map", Vec::new(), None));
    let env = base_with(base, &[]);
    assert_eq!(
        painted("Base.map(f, xs)\n", &env),
        expect(&[("Base", HighlightKind::Module), ("map", HighlightKind::Function)]),
    );
    assert_eq!(
        painted("Base.Threads.nthreads()\n", &env),
        expect(&[
            ("Base", HighlightKind::Module),
            ("Threads", HighlightKind::Module),
            ("nthreads", HighlightKind::Function),
        ]),
    );
    // The macro member paints syntactically; the qualifiers resolve.
    assert_eq!(
        painted("Base.Threads.@spawn f()\n", &env),
        expect(&[
            ("Base", HighlightKind::Module),
            ("Threads", HighlightKind::Module),
            ("@spawn", HighlightKind::Macro),
        ]),
    );
    // An unharvested package leaves the whole chain plain.
    assert_eq!(painted("Nope.f(1)\n", &env), expect(&[("1", HighlightKind::Number)]));
}

#[test]
fn operator_reads_stay_plain_even_when_they_resolve() {
    let mut base = module("Base");
    base.functions.push(group("+", Vec::new(), None));
    let env = base_with(base, &["+"]);
    let src = "1 + 2\n";
    let mut model = model_of(src, &env);
    model.idents.push(Ident {
        name: "+".to_string(),
        range: TextRange { start: 2, end: 3 },
        binding: None,
        is_macro: false,
        access: Access::Read,
        resolution: Resolution::System { module: "Base".to_string(), name: "+".to_string() },
    });
    let tokens = compute_semantic_tokens(
        src,
        &tree_of(src),
        &model,
        &env.library,
        None,
        PositionEncoding::Utf8,
    );
    let number = highlight_index(HighlightKind::Number);
    assert_eq!(
        tokens,
        vec![
            SemanticToken { delta_line: 0, delta_start: 0, length: 1, token_type: number },
            SemanticToken { delta_line: 0, delta_start: 4, length: 1, token_type: number },
        ]
    );
}

#[test]
fn export_list_names_paint_by_their_binding_kind() {
    assert_eq!(
        painted("module M\nexport f\nf(x) = x\nend\n", &no_library()),
        expect(&[
            ("module", HighlightKind::Keyword),
            ("M", HighlightKind::Module),
            ("export", HighlightKind::Keyword),
            ("f", HighlightKind::Function),
            ("f", HighlightKind::Function),
            ("end", HighlightKind::Keyword),
        ]),
    );
}

#[test]
fn semantic_tokens_via_db_match_compute_and_fall_back() {
    let buffer = "function f(x)\n    @show x + 1\nend\n";
    let env = no_library();
    let expected = tokens_of(buffer, &env);
    assert!(!expected.is_empty(), "fixture must yield tokens");
    assert_eq!(tokens_of(served(Some(buffer), buffer), &env), expected);
    assert_eq!(tokens_of(served(Some("y = 1\n"), buffer), &env), expected);
    assert_eq!(tokens_of(served(None, buffer), &env), expected);
}

#[test]
fn an_unchanged_result_id_answers_without_tokens() {
    let tokens = tokens_of("x = 1\n", &no_library());
    match semantic_tokens_delta(tokens, "abc".to_string(), "abc") {
        TokensDelta::Unchanged { result_id } => assert_eq!(result_id, "abc"),
        other => panic!("expected no change, got {other:?}"),
    }
    let tokens = tokens_of("x = 1\n", &no_library());
    match semantic_tokens_delta(tokens, "abc".to_string(), "old") {
        TokensDelta::Full { result_id, data } => {
            assert_eq!(result_id, "abc");
            assert_eq!(data.len(), 1);
        }
        other => panic!("expected all tokens, got {other:?}"),
    }
}

#[test]
fn a_token_over_several_lines_is_one_token_a_line() {
    let src = "x = \"\"\"ab\ncde\"\"\"\n";
    assert_eq!(
        painted(src, &no_library()),
        expect(&[
            ("\"\"\"ab", HighlightKind::String),
            ("cde\"\"\"", HighlightKind::String),
        ]),
    );
}

// --- Folds and selections --------------------------------------------------------

fn folds_of(src: &str) -> Vec<FoldingRange> {
    compute_folding_ranges(src, &tree_of(src), &Vec::new())
}

#[test]
fn folds_via_db_match_compute_and_fall_back() {
    let buffer = "function f(x)\n    x\nend\n";
    let expected = folds_of(buffer);
    assert_eq!(expected.len(), 1, "fixture must yield a fold");
    assert_eq!(folds_of(served(Some(buffer), buffer)), expected);
    assert_eq!(folds_of(served(Some("y = 1\n"), buffer)), expected);
    assert_eq!(folds_of(served(None, buffer)), expected);
}

#[test]
fn folds_markdown_sections_and_embedded_julia() {
    let source = "\"\"\"\n\
         # Overview\n\
         \n\
         Intro.\n\
         \n\
         ## Example\n\
         \n\
         ```julia\n\
         function example(x)\n    x\n\
         end\n\
         ```\n\
         \"\"\"\n\
         f(x) = x\n";
    let start = source.find("# Overview").unwrap();
    let end = source.rfind("\"\"\"").unwrap();
    let text = &source[start..end];
    let find = |needle: &str| text.find(needle).unwrap() as u32;
    let code = "function example(x)\n    x\nend\n";
    let content = TextRange { start: find(code), end: find(code) + code.len() as u32 };
    let doc = DocSource {
        text: text.to_string(),
        map: SourceMap {
            starts: (start as u32..end as u32).collect(),
            ends: (start as u32 + 1..end as u32 + 1).collect(),
        },
        headings: vec![
            DocHeading { level: 1, start: find("# Overview") },
            DocHeading { level: 2, start: find("## Example") },
        ],
        nodes: vec![DocNode {
            range: TextRange { start: find("```julia"), end: text.len() as u32 },
            kind: DocKind::FencedCodeBlock,
            fence: Some(JuliaFence { content, tree: tree_of(code) }),
        }],
    };
    let folds = compute_folding_ranges(source, &tree_of(source), &vec![doc]);
    let spans: Vec<_> = folds.iter().map(|fold| (fold.start_line, fold.end_line)).collect();
    assert!(spans.contains(&(1, 11)), "overview section: {folds:?}");
    assert!(spans.contains(&(5, 11)), "example section: {folds:?}");
    assert!(spans.contains(&(7, 11)), "code fence: {folds:?}");
    assert!(spans.contains(&(8, 10)), "embedded function: {folds:?}");
}

#[test]
fn only_blocks_of_a_docstring_fold() {
    let text = "one\ntwo\nthree\n";
    let source = "\"\"\"\none\ntwo\nthree\n\"\"\"\nf\n";
    let folds = |kind: DocKind| {
        let doc = DocSource {
            text: text.to_string(),
            map: SourceMap { starts: (4..18).collect(), ends: (5..19).collect() },
            headings: Vec::new(),
            nodes: vec![DocNode { range: TextRange { start: 0, end: 8 }, kind, fence: None }],
        };
        compute_folding_ranges(source, &tree_of("f\n"), &vec![doc])
    };
    for kind in [
        DocKind::BlockQuote,
        DocKind::Admonition,
        DocKind::List,
        DocKind::IndentedCodeBlock,
        DocKind::FencedCodeBlock,
        DocKind::MathBlock,
        DocKind::FootnoteDefinition,
        DocKind::Table,
    ] {
        let found = folds(kind);
        assert_eq!(found.len(), 1, "{kind:?}");
        assert_eq!((found[0].start_line, found[0].end_line), (1, 2), "{kind:?}");
        assert_eq!(found[0].kind, Some(FoldingRangeKind::Region), "{kind:?}");
    }
    assert!(folds(DocKind::Other).is_empty());
}

fn chain(selection: &SelectionRange) -> Vec<Range> {
    let mut out = vec![selection.range];
    let mut next = &selection.parent;
    while let Some(parent) = next {
        out.push(parent.range);
        next = &parent.parent;
    }
    out
}

#[test]
fn selections_via_db_match_compute_and_fall_back() {
    let buffer = "function f(x)\n    x + 1\nend\n";
    let positions = vec![at(1, 4)];
    let selections = |src: &str| {
        compute_selection_ranges(src, &tree_of(src), &positions, PositionEncoding::Utf8)
            .iter()
            .map(chain)
            .collect::<Vec<_>>()
    };
    let expected = selections(buffer);
    assert_eq!(expected.len(), 1, "fixture must yield a chain");
    assert_eq!(selections(served(Some(buffer), buffer)), expected);
    assert_eq!(selections(served(Some("y = 1\n"), buffer)), expected);
    assert_eq!(selections(served(None, buffer)), expected);
    // From the name outward: `x`, `x + 1`, the function, the file.
    let chain = &expected[0];
    assert_eq!(chain[0], Range { start: at(1, 4), end: at(1, 5) });
    assert_eq!(chain[1], Range { start: at(1, 4), end: at(1, 9) });
    assert_eq!(chain[chain.len() - 1], Range { start: at(0, 0), end: at(3, 0) });
}
// --- Completion ------------------------------------------------------------------

const LATEX_SYMBOLS: &[(&str, &str)] = &[
    ("\\^2", "²"),
    ("\\_1", "₁"),
    ("\\alpha", "α"),
    ("\\beta", "β"),
    ("\\delta", "δ"),
    ("\\nabla", "∇"),
    ("\\nu", "ν"),
    ("\\sigma", "σ"),
];

const EMOJI_SYMBOLS: &[(&str, &str)] = &[
    ("\\:+1:", "👍"),
    ("\\:heart:", "❤"),
    ("\\:smile:", "😄"),
    ("\\:smile_cat:", "😸"),
    ("\\:smiley:", "😃"),
    ("\\:smiley_cat:", "😺"),
    ("\\:smiling_face_with_3_hearts:", "🥰"),
    ("\\:smiling_face_with_tear:", "🥲"),
    ("\\:smiling_imp:", "😈"),
    ("\\:smirk:", "😏"),
    ("\\:smirk_cat:", "😼"),
];

/// The names that are visible anywhere in a source: those of the file, of the
/// workspace and of Base, in this order, each once.
fn visible_in(model: &SemanticModel, env: &Env) -> Visible {
    let mut values: Vec<Candidate> = Vec::new();
    let mut macros: Vec<Candidate> = Vec::new();
    let mut offer = |name: &str, source: Source| {
        let into = if name.starts_with('@') { &mut macros } else { &mut values };
        if !into.iter().any(|c| c.name == name) {
            into.push(Candidate { name: name.to_string(), source });
        }
    };
    for (id, binding) in model.bindings.iter().enumerate().rev() {
        offer(&binding.name, Source::Binding(id));
    }
    if let Some(package) = &env.workspace {
        for function in &package.root.functions {
            offer(&function.name, Source::Module(package.name.clone()));
        }
    }
    for name in env.exports_of("Base") {
        offer(name, Source::Module("Base".to_string()));
    }
    Visible { values, macros }
}

fn completions_at(src: &str, needle: &str, env: &Env) -> Vec<CompletionItem> {
    let offset = src.find(needle).unwrap() + needle.len();
    completions_in(src, offset, env, &Vec::new())
}

fn completions_in(
    src: &str,
    offset: usize,
    env: &Env,
    docs: &Vec<DocText>,
) -> Vec<CompletionItem> {
    let position = LineIndex::new(src).byte_to_position(offset, PositionEncoding::Utf16);
    let model = model_of(src, env);
    let visible = visible_in(&model, env);
    compute_completions(
        src,
        position,
        &tree_of(src),
        &model,
        &env.library,
        &visible,
        &texts(&["function", "end", "module"]),
        &SequenceTables { latex: LATEX_SYMBOLS, emoji: EMOJI_SYMBOLS },
        docs,
        PositionEncoding::Utf16,
    )
}

fn completions_bare(src: &str, needle: &str) -> Vec<CompletionItem> {
    completions_at(src, needle, &no_library())
}

fn item_labels(items: &[CompletionItem]) -> Vec<String> {
    items.iter().map(|i| i.label.clone()).collect()
}

fn item<'a>(items: &'a [CompletionItem], label: &str) -> &'a CompletionItem {
    items
        .iter()
        .find(|i| i.label == label)
        .unwrap_or_else(|| panic!("no {label:?} in {:?}", item_labels(items)))
}

fn edit_of(item: &CompletionItem) -> (&str, Range) {
    let edit = item.text_edit.as_ref().expect("a text edit");
    (edit.new_text.as_str(), edit.range)
}

#[test]
fn value_context_offers_workspace_siblings() {
    let mut env = base_with(module("Base"), &["println"]);
    let mut root = module("MyPkg");
    root.functions.push(group("sibling", Vec::new(), None));
    env.workspace = Some(package(root));
    let names = item_labels(&completions_at("function f()\n    \nend", "    ", &env));
    assert!(names.contains(&"sibling".to_string()), "{names:?}");
    // The sibling ranks after locals and before Base.
    assert!(names.iter().position(|n| n == "sibling") < names.iter().position(|n| n == "println"));
}

#[test]
fn value_context_lists_locals_before_library_and_includes_keywords() {
    let env = base_with(module("Base"), &["println"]);
    let src = "function f(a)\n    b = 1\n    \nend";
    let items = completions_at(src, "b = 1\n    ", &env);
    let names = item_labels(&items);
    for expected in ["a", "b", "f", "println", "function", "end"] {
        assert!(names.contains(&expected.to_string()), "missing {expected}");
    }
    // Locals precede the library name.
    assert!(names.iter().position(|n| n == "b") < names.iter().position(|n| n == "println"));
    // A keyword is a KEYWORD item.
    assert_eq!(item(&items, "function").kind, CompletionItemKind::Keyword);
}

#[test]
fn shadowed_name_appears_once() {
    let env = base_with(module("Base"), &["map"]);
    let src = "function f()\n    map = 1\n    \nend";
    let names = item_labels(&completions_at(src, "map = 1\n    ", &env));
    assert_eq!(names.iter().filter(|n| *n == "map").count(), 1);
}

#[test]
fn macro_context_offers_only_at_names() {
    let mut base = module("Base");
    base.macros.push(macrodef("@time", &[]));
    let env = base_with(base, &["@time", "time"]);
    let names = item_labels(&completions_at("@t", "@t", &env));
    assert!(names.contains(&"@time".to_string()));
    assert!(!names.contains(&"time".to_string()));
}

#[test]
fn member_context_lists_defined_names_and_submodules() {
    let mut root = module("A");
    root.functions.push(group("foo", Vec::new(), None));
    root.types.push(typedef("Bar", false));
    root.consts.push(constant("BAUD", Some("9600")));
    root.submodules.push(module("Inner"));
    let env = base_with(root, &[]);
    let items = completions_at("A.", "A.", &env);
    let names = item_labels(&items);
    for expected in ["foo", "Bar", "BAUD", "Inner"] {
        assert!(names.contains(&expected.to_string()), "missing {expected}");
    }
    assert_eq!(item(&items, "Bar").kind, CompletionItemKind::Class);
    assert_eq!(item(&items, "Inner").kind, CompletionItemKind::Module);
}

#[test]
fn member_context_walks_a_submodule_chain() {
    let mut inner = module("B");
    inner.functions.push(group("deep", Vec::new(), None));
    let mut root = module("A");
    root.submodules.push(inner);
    let env = base_with(root, &[]);
    assert_eq!(item_labels(&completions_at("A.B.", "A.B.", &env)), vec!["deep".to_string()]);
}

#[test]
fn macro_member_context_offers_only_macros() {
    let mut root = module("A");
    root.functions.push(group("plain", Vec::new(), None));
    root.macros.push(macrodef("@mac", &[]));
    let env = base_with(root, &[]);
    assert_eq!(item_labels(&completions_at("A.@", "A.@", &env)), vec!["@mac".to_string()]);
}

#[test]
fn unknown_receiver_yields_no_members() {
    let env = base_with(module("A"), &[]);
    assert!(completions_at("Nope.", "Nope.", &env).is_empty());
}

#[test]
fn resolve_fills_docs_and_signature() {
    let mut root = module("A");
    let mut typed = method(&["x"], &[]);
    typed.params[0].type_annotation = Some(TypeExpr::Name { path: texts(&["Int"]) });
    root.functions.push(group("foo", vec![typed], Some("does a foo")));
    let env = base_with(root, &[]);
    let bare = CompletionItem {
        label: "foo".to_string(),
        kind: CompletionItemKind::Function,
        detail: None,
        documentation: None,
        filter_text: None,
        text_edit: None,
        data: Some(ResolveData { module: texts(&["A"]), name: "foo".to_string() }),
    };
    let resolved = resolve_completion(&env.library, bare);
    assert_eq!(resolved.detail.as_deref(), Some("foo(x::Int)"));
    assert_eq!(resolved.documentation.as_deref(), Some("does a foo"));
}

#[test]
fn resolve_leaves_an_item_without_docs_alone() {
    let mut root = module("A");
    root.functions.push(group("foo", vec![method(&["x"], &[])], None));
    let env = base_with(root, &[]);
    let item = |data: Option<ResolveData>| CompletionItem {
        label: "foo".to_string(),
        kind: CompletionItemKind::Function,
        detail: Some("A".to_string()),
        documentation: None,
        filter_text: None,
        text_edit: None,
        data,
    };
    let data = |module: &[&str], name: &str| {
        Some(ResolveData { module: texts(module), name: name.to_string() })
    };
    for key in [
        None,
        data(&["A"], "foo"),
        data(&["A"], "unknown"),
        data(&["A"], "@unknown"),
        data(&["A", "B"], "foo"),
        data(&["Z"], "foo"),
        data(&[], "foo"),
    ] {
        let carried =
            key.as_ref().map(|d| ResolveData { module: d.module.clone(), name: d.name.clone() });
        let resolved = resolve_completion(&env.library, item(key));
        assert_eq!(format!("{resolved:?}"), format!("{:?}", item(carried)));
    }
}

#[test]
fn latex_sequence_offers_expansions_and_replaces_the_backslash() {
    let items = completions_bare("x = \\alph", "\\alph");
    let alpha = item(&items, "\\alpha");
    assert_eq!(alpha.detail.as_deref(), Some("α"));
    assert_eq!(alpha.kind, CompletionItemKind::Text);
    let (new_text, range) = edit_of(alpha);
    assert_eq!(new_text, "α");
    // The edit swallows the backslash, so accepting leaves `x = α`.
    assert_eq!(range.start.character, 4);
    assert_eq!(range.end.character, 9);
    // Only the matching prefix is offered.
    assert!(!item_labels(&items).contains(&"\\beta".to_string()));
}

#[test]
fn sequence_directly_after_an_identifier_is_offered() {
    let items = completions_bare("x\\_1", "\\_1");
    let (new_text, range) = edit_of(item(&items, "\\_1"));
    assert_eq!(new_text, "₁");
    // The edit starts at the backslash, leaving the `x` alone.
    assert_eq!(range.start.character, 1);
}

#[test]
fn emoji_sequences_are_offered() {
    let items = completions_bare("\\:smi", "\\:smi");
    assert_eq!(edit_of(item(&items, "\\:smile:")).0, "😄");
}

#[test]
fn a_bare_backslash_offers_latex_only() {
    let names = item_labels(&completions_bare("\\", "\\"));
    assert!(names.contains(&"\\alpha".to_string()));
    assert!(!names.contains(&"\\:smile:".to_string()));
    assert_eq!(names.len(), LATEX_SYMBOLS.len());
}

#[test]
fn a_colon_opens_the_emoji_table() {
    let names = item_labels(&completions_bare("\\:", "\\:"));
    assert_eq!(names.len(), EMOJI_SYMBOLS.len());
    assert!(names.contains(&"\\:smile:".to_string()));
}

#[test]
fn verbatim_strings_offer_nothing() {
    for src in [
        "m = r\"\\d",
        "p = raw\"\\n",
        "c = `ls \\d",
        "m = match(r\"\\s", // still unterminated, mid-typing
    ] {
        let needle = &src[src.len() - 2..];
        assert!(completions_bare(src, needle).is_empty(), "expected nothing in {src:?}");
    }
}

#[test]
fn plain_strings_and_docstrings_still_offer_sequences() {
    for src in ["s = \"\\alph", "\"\"\"\n\\alph"] {
        let names = item_labels(&completions_bare(src, "\\alph"));
        assert!(
            names.contains(&"\\alpha".to_string()),
            "expected sequences in {src:?}, got {names:?}"
        );
    }
}

#[test]
fn a_lone_escape_stays_quiet_only_inside_a_plain_string() {
    assert!(completions_bare("s = \"\\n", "\\n").is_empty());
    assert!(completions_bare("s = \"\\u", "\\u").is_empty());
    // One more character and `\nu` is offered again.
    let names = item_labels(&completions_bare("s = \"\\nu", "\\nu"));
    assert!(names.contains(&"\\nu".to_string()), "{names:?}");
    // A non-escape character is never ambiguous, even at one character.
    assert!(!completions_bare("s = \"\\^", "\\^").is_empty());
    // The same run in code is not an escape at all.
    assert!(!completions_bare("x = \\n", "\\n").is_empty());
}

#[test]
fn candidate_counts_match_the_repl() {
    for (typed, expected) in [
        ("\\alph", 1),
        ("\\:smi", 9),
        ("\\:smile", 4),
        ("\\:smile:", 1),
        ("\\:+1:", 1),
    ] {
        let src = format!("x = {typed}");
        let items = completions_bare(&src, typed);
        assert_eq!(items.len(), expected, "{typed:?} offered {:?}", item_labels(&items));
    }
}

#[test]
fn an_unknown_sequence_offers_nothing() {
    assert!(completions_bare("\\notasymbol", "\\notasymbol").is_empty());
}

// --- Answers to requests ---------------------------------------------------------

/// Answers one request about a source.
fn answer(env: &Env, job: ReadJob<u32>) -> (RequestId, ReadAnswer<u32>) {
    let none = Vec::new();
    let snapshot = Snapshot {
        library: &env.library,
        workspace: env.workspace.as_ref(),
        files: &none,
        symbols: &Vec::new(),
        disk: &Vec::new(),
        texts: &Vec::new(),
        graph: &ProjectGraph { unresolved: Vec::new(), cycles: Vec::new() },
        sources: &Vec::new(),
        keywords: &Vec::new(),
        tables: &SequenceTables { latex: LATEX_SYMBOLS, emoji: EMOJI_SYMBOLS },
    };
    run_read(&snapshot, job, PositionEncoding::Utf16)
}

fn document(src: &str, env: &Env) -> Document {
    Document {
        uri: URI.to_string(),
        path: Some(path("/work/s.jl")),
        text: src.to_string(),
        tree: tree_of(src),
        model: model_of(src, env),
        docs: docs_of(src),
    }
}

#[test]
fn an_invalid_rename_is_an_error_of_the_request() {
    let env = no_library();
    let rename = |new_name: &str| ReadJob::Rename {
        id: RequestId::Number(7),
        document: document("x = 1\nx\n", &env),
        position: at(1, 0),
        new_name: new_name.to_string(),
        recs: None,
    };
    let (id, refused) = answer(&env, rename("1x"));
    assert!(matches!(id, RequestId::Number(7)));
    match refused {
        ReadAnswer::InvalidParams(message) => {
            assert_eq!(message, "`1x` is not a valid identifier");
        }
        other => panic!("expected an error, got {other:?}"),
    }
    match answer(&env, rename("y")).1 {
        ReadAnswer::Renamed(Some(changes)) => assert_eq!(changes[0].edits.len(), 2),
        other => panic!("expected edits, got {other:?}"),
    }
}

#[test]
fn one_definition_is_answered_alone() {
    let env = no_library();
    let definition = |src: &str, position: Position| ReadJob::Definition {
        id: RequestId::Text("a".to_string()),
        document: document(src, &env),
        position,
        symbol: None,
    };
    let (_, one) = answer(&env, definition("x = 1\nx\n", at(1, 0)));
    assert!(matches!(one, ReadAnswer::Defined(DefinitionReply::Scalar(_))), "{one:?}");
    let (_, two) = answer(&env, definition("f(x) = 1\nf(x, y) = 2\nf(1)\n", at(2, 0)));
    assert!(matches!(two, ReadAnswer::Defined(DefinitionReply::Several(_))), "{two:?}");
    let (_, none) = answer(&env, definition("nope\n", at(0, 1)));
    assert!(matches!(none, ReadAnswer::Defined(DefinitionReply::Nothing)), "{none:?}");
}

#[test]
fn a_report_is_keyed_by_its_serialization() {
    let env = no_library();
    let report = |previous: Option<String>| ReadJob::DiagnosticReport {
        id: RequestId::Number(1),
        items: Vec::new(),
        json: Some(b"[]".to_vec()),
        previous_result_id: previous,
    };
    let id = match answer(&env, report(None)).1 {
        ReadAnswer::Report(DiagnosticReport::Full { id: Some(id), .. }) => id,
        other => panic!("expected a full report, got {other:?}"),
    };
    match answer(&env, report(Some(id.clone()))).1 {
        ReadAnswer::Report(DiagnosticReport::Unchanged { result_id }) => assert_eq!(result_id, id),
        other => panic!("expected no change, got {other:?}"),
    }
}

#[test]
fn requests_about_names_of_the_workspace_gather_their_sites() {
    let ws = workspace(
        &["greet"],
        &[("a.jl", "greet(a) = a\ngreet(1)\n"), ("b.jl", "callit() = greet(2)\n")],
    );
    let files = ws.sources();
    let snapshot = Snapshot {
        library: &ws.env.library,
        workspace: ws.env.workspace.as_ref(),
        files: &files,
        symbols: &Vec::new(),
        disk: &Vec::new(),
        texts: &Vec::new(),
        graph: &ProjectGraph { unresolved: Vec::new(), cycles: Vec::new() },
        sources: &Vec::new(),
        keywords: &Vec::new(),
        tables: &SequenceTables { latex: LATEX_SYMBOLS, emoji: EMOJI_SYMBOLS },
    };
    let source = || Document { uri: member_uri("b.jl"), ..document(ws.text("b.jl"), &ws.env) };
    let run = |job: ReadJob<u32>| run_read(&snapshot, job, PositionEncoding::Utf16).1;
    let starts = |all: &[Location]| -> Vec<(String, Position)> {
        all.iter().map(|l| (l.uri.clone(), l.range.start)).collect()
    };
    let symbol = WorkspaceSymbol {
        path: Vec::new(),
        name: "greet".to_string(),
        is_macro: false,
        recs: ws.occurrences("greet"),
    };
    match run(ReadJob::Definition {
        id: RequestId::Number(1),
        document: source(),
        position: at(0, 11),
        symbol: Some(symbol),
    }) {
        ReadAnswer::Defined(DefinitionReply::Scalar(found)) => {
            assert_eq!((found.uri, found.range.start), (member_uri("a.jl"), at(0, 0)));
        }
        other => panic!("expected one definition, got {other:?}"),
    }
    match run(ReadJob::References {
        id: RequestId::Number(2),
        document: source(),
        position: at(0, 11),
        include_declaration: false,
        recs: Some(ws.occurrences("greet")),
    }) {
        ReadAnswer::Locations(Some(found)) => assert_eq!(
            starts(&found),
            vec![(member_uri("a.jl"), at(1, 0)), (member_uri("b.jl"), at(0, 11))]
        ),
        other => panic!("expected references, got {other:?}"),
    }
    match run(ReadJob::Rename {
        id: RequestId::Number(3),
        document: source(),
        position: at(0, 11),
        new_name: "hello".to_string(),
        recs: Some(ws.occurrences("greet")),
    }) {
        ReadAnswer::Renamed(Some(changes)) => {
            let counts: Vec<_> =
                changes.iter().map(|c| (c.uri.clone(), c.edits.len())).collect();
            assert_eq!(counts, vec![(member_uri("a.jl"), 2), (member_uri("b.jl"), 1)]);
        }
        other => panic!("expected edits, got {other:?}"),
    }
}

#[test]
fn tokens_are_keyed_by_their_serialization() {
    let env = no_library();
    let token = SemanticToken { delta_line: 0, delta_start: 4, length: 1, token_type: 3 };
    let reply = |json: &[u8]| {
        let job = ReadJob::SemanticTokensReply {
            id: RequestId::Number(1),
            data: vec![token],
            json: Some(json.to_vec()),
        };
        match answer(&env, job).1 {
            ReadAnswer::NumberedTokens { result_id, data } => {
                assert_eq!(data.len(), 1);
                assert_eq!(data[0].delta_start, 4);
                result_id
            }
            other => panic!("expected tokens, got {other:?}"),
        }
    };
    assert_eq!(reply(b"[0,4,1,3,0]"), content_hash(Some(&b"[0,4,1,3,0]".to_vec())));
    assert_ne!(reply(b"[0,4,1,3,0]"), reply(b"[0,4,2,3,0]"));
}

#[test]
fn signature_help_looks_past_the_workspace() {
    let mut base = module("Base");
    base.functions.push(group("show", vec![method(&["io", "x"], &[])], None));
    let outside = base_with(base, &["show"]);
    let src = "show(1, 2)\n";
    let job = ReadJob::SignatureHelp {
        id: RequestId::Number(1),
        document: document(src, &no_library()),
        position: at(0, 8),
        names: model_of(src, &outside),
    };
    match answer(&outside, job).1 {
        ReadAnswer::Signatures(Some(help)) => assert_eq!(labels(&help), ["show(io, x)"]),
        other => panic!("expected help, got {other:?}"),
    }
}

// --- Markdown in docstrings --------------------------------------------------------

fn slug(title: &str) -> String {
    title.to_lowercase().replace(' ', "-")
}

/// What stands between `open` and `close` in a text, wherever they do.
fn between(text: &str, open: &str, close: char) -> Vec<(usize, usize)> {
    let mut found = Vec::new();
    let mut from = 0;
    while let Some(at) = text[from..].find(open) {
        let start = from + at + open.len();
        let Some(length) = text[start..].find(close) else {
            return found;
        };
        found.push((start, start + length));
        from = start + length;
    }
    found
}

/// A docstring in three quotes, whose content begins at byte `at` of the source:
/// without the indentation of its lines, and with its escapes decoded.
fn doc_of(content: &str, at: usize, target_start: usize) -> DocText {
    let indent = content
        .split('\n')
        .enumerate()
        .filter(|(i, line)| *i + 1 == content.split('\n').count() || !line.trim().is_empty())
        .map(|(_, line)| line.len() - line.trim_start_matches(' ').len())
        .min()
        .unwrap_or(0);
    let mut text = String::new();
    let mut map = SourceMap { starts: Vec::new(), ends: Vec::new() };
    let mut line_start = 0;
    for line in content.split_inclusive('\n') {
        let mut i = indent.min(line.len() - line.trim_start_matches(' ').len());
        while i < line.len() {
            let rest = &line[i..];
            let (c, width) = if rest.starts_with("\\u") {
                let code = u32::from_str_radix(&rest[2..6], 16).unwrap();
                (char::from_u32(code).unwrap(), 6)
            } else {
                let c = rest.chars().next().unwrap();
                (c, c.len_utf8())
            };
            text.push(c);
            let escaped = width != c.len_utf8();
            for byte in 0..c.len_utf8() {
                let start = at + line_start + i + if escaped { 0 } else { byte };
                map.starts.push(start as u32);
                map.ends.push((start + if escaped { width } else { 1 }) as u32);
            }
            i += width;
        }
        line_start += line.len();
    }
    let span = |(start, end): (usize, usize)| TextRange { start: start as u32, end: end as u32 };
    let cut = |(start, end): (usize, usize)| text[start..end].to_string();
    let mut anchors = Vec::new();
    let mut notes = Vec::new();
    let mut line_start = 0;
    for line in text.split_inclusive('\n') {
        let range = span((line_start, line_start + line.trim_end().len()));
        if let Some(title) = line.trim_end().strip_prefix("# ") {
            anchors.push(DocAnchor { id: slug(title), label: title.to_string(), range });
        }
        for (start, end) in between(line, "(@id ", ')') {
            let place = (line_start + start, line_start + end);
            anchors.push(DocAnchor { id: cut(place), label: cut(place), range: span(place) });
        }
        if let Some((id, _)) = line.strip_prefix("[^").and_then(|l| l.split_once("]:")) {
            notes.push(FootnoteDef { id: id.to_string(), range });
        }
        line_start += line.len();
    }
    DocText {
        refs: between(&text, "(@ref ", ')')
            .into_iter()
            .map(|place| RefTarget { range: span(place), target: cut(place) })
            .collect(),
        links: between(&text, "](", ')')
            .into_iter()
            .map(|place| AnchorLink { range: span(place), destination: cut(place) })
            .collect(),
        footnotes: between(&text, "[^", ']')
            .into_iter()
            .filter(|(_, end)| !text[*end..].starts_with("]:"))
            .map(|(start, end)| FootnoteRef {
                range: span((start - 2, end + 1)),
                id: cut((start, end)),
            })
            .collect(),
        anchors,
        notes,
        fences: Vec::new(),
        target_start: target_start as u32,
        map,
        text,
    }
}

/// The docstrings of a source that stand in three quotes.
fn docs_of(src: &str) -> Vec<DocText> {
    let quotes = "\"\"\"\n";
    let mut docs = Vec::new();
    let mut from = 0;
    while let Some(open) = src[from..].find(quotes) {
        let start = from + open + quotes.len();
        let Some(length) = src[start..].find("\"\"\"") else {
            return docs;
        };
        let end = start + length;
        let target = (end + quotes.len()).min(src.len());
        docs.push(doc_of(&src[start..end], start, target));
        from = target;
    }
    docs
}

#[test]
fn cached_markdown_requests_follow_live_source_maps_and_fallbacks() {
    let original = "x = 1\n\
         \"\"\"\n    # First title\n\n    [Spot](@id chosen-id)\n\n    [^note]: First note.\n    \"\"\"\n\
         f() = x\n\
         \"\"\"\n# First title\n\n[Spot](@id chosen-id)\n\n\
         [^note]: Second note.\n\"\"\"\ng() = 2\n\
         \"\"\"\nSee [title](#first-title), [id](@ref chosen-id), and [^note].\n\
         See [missing](#missing).\n\"\"\"\nh() = 3\n";
    let env = no_library();
    let mut held: Option<String> = None;
    for text in [
        original.to_string(),
        original.replace("    ", "        "),
        original.replace("x = 1", "# A new comment.\nx = 10000"),
        original.replace("First title", "\\u0046irst title"),
        format!("\"$opaque\"\nopaque() = 0\n{original}"),
        original.replacen("chosen-id", "changed-id", 1),
        original.replace("First title", "Other title"),
    ] {
        let index = LineIndex::new(&text);
        let encoding = PositionEncoding::Utf16;
        // The buffer is stale before each new text is held, and current after.
        for pass in 0..3 {
            if pass == 1 {
                held = Some(text.clone());
            }
            let src = served(held.as_deref(), &text);
            let docs = docs_of(src);
            let model = SemanticModel {
                bindings: Vec::new(),
                idents: Vec::new(),
                exports: Vec::new(),
                qualified_reads: Vec::new(),
                module_loads: Vec::new(),
            };
            for (marker, destination) in [
                (
                    "#first-tit",
                    text.find("# First").or_else(|| text.find("# \\u0046irst")),
                ),
                ("@ref chosen-i", text.find("chosen-id)")),
                ("and [^no", text.find("[^note]: First")),
                ("#miss", None),
            ] {
                let offset = text.rfind(marker).unwrap() + marker.len();
                let position = index.byte_to_position(offset, encoding);
                let actual = match compute_definition(
                    URI,
                    src,
                    position,
                    &model,
                    &env.library,
                    None,
                    &docs,
                    encoding,
                ) {
                    Definition::Here(locations) => locations,
                    Definition::OnDisk(sites) => site_locations(sites, &Vec::new(), encoding),
                };
                assert_eq!(actual.len(), usize::from(destination.is_some()), "{marker}");
                if let Some(destination) = destination {
                    assert_eq!(
                        actual[0].range.start,
                        index.byte_to_position(destination, encoding),
                        "{marker}"
                    );
                }
            }
            let offset = text.rfind("@ref chosen-i").unwrap() + "@ref chosen-i".len();
            let actual = completions_in(src, offset, &env, &docs);
            let anchors: Vec<_> = actual
                .iter()
                .filter(|item| item.kind == CompletionItemKind::Reference)
                .map(|item| item.label.as_str())
                .collect();
            assert_eq!(anchors.iter().filter(|name| **name == "chosen-id").count(), 1);
            assert_eq!(anchors.contains(&"First title"), !text.contains("Other title"));
        }
    }
}

#[test]
fn anchors_are_offered_only_behind_a_reference() {
    let src = "\"\"\"\n# One\n[a](@id one)\n# One\nSee [x](@ref o\n\"\"\"\nf() = 1\n";
    let docs = docs_of(src);
    assert_eq!(anchor_labels(&docs), texts(&["One", "one"]));
    let kinds = |needle: &str| {
        let offset = src.find(needle).unwrap() + needle.len();
        completions_in(src, offset, &no_library(), &docs)
            .iter()
            .filter(|item| item.kind == CompletionItemKind::Reference)
            .map(|item| item.label.clone())
            .collect::<Vec<_>>()
    };
    assert_eq!(kinds("(@ref o"), texts(&["One", "one"]));
    assert!(kinds("See").is_empty());
    assert!(kinds("f()").is_empty());
}

#[test]
fn a_job_that_cannot_be_delivered_gives_its_request_back() {
    let job: ReadJob<u32> = ReadJob::Given { id: RequestId::Number(3), answer: 9 };
    assert!(matches!(job.into_reply_parts(), RequestId::Number(3)));
    let env = no_library();
    let (_, given) = answer(&env, ReadJob::Given { id: RequestId::Number(3), answer: 9 });
    assert!(matches!(given, ReadAnswer::Given(9)));
}

// --- A small front end for the sources below --------------------------------

enum Node {
    Leaf(K, usize, usize),
    Tree(K, Vec<Node>),
}

impl Node {
    fn start(&self) -> usize {
        match self {
            Node::Leaf(_, start, _) => *start,
            Node::Tree(_, children) => children.first().map_or(0, Node::start),
        }
    }

    fn end(&self) -> usize {
        match self {
            Node::Leaf(_, _, end) => *end,
            Node::Tree(_, children) => children.last().map_or(0, Node::end),
        }
    }

    fn range(&self) -> TextRange {
        TextRange { start: self.start() as u32, end: self.end() as u32 }
    }

    fn kind(&self) -> K {
        match self {
            Node::Leaf(kind, _, _) | Node::Tree(kind, _) => *kind,
        }
    }

    /// The nodes directly below.
    fn nodes(&self) -> Vec<&Node> {
        match self {
            Node::Leaf(..) => Vec::new(),
            Node::Tree(_, children) => {
                children.iter().filter(|c| matches!(c, Node::Tree(..))).collect()
            }
        }
    }

    fn text<'s>(&self, src: &'s str) -> &'s str {
        &src[self.start()..self.end()]
    }
}

/// Tokens: kind, start, end.
fn lex(src: &str) -> Vec<(K, usize, usize)> {
    let mut out = Vec::new();
    let bytes = src.as_bytes();
    let mut i = 0;
    while i < src.len() {
        let c = src[i..].chars().next().unwrap();
        let start = i;
        if c == ' ' || c == '\t' || c == '\r' {
            while i < src.len() && (bytes[i] == b' ' || bytes[i] == b'\t' || bytes[i] == b'\r') {
                i += 1;
            }
            out.push((K::WHITESPACE, start, i));
        } else if c == '\n' {
            i += 1;
            out.push((K::NEWLINE, start, i));
        } else if c == '#' {
            while i < src.len() && bytes[i] != b'\n' {
                i += 1;
            }
            out.push((K::COMMENT, start, i));
        } else if c.is_alphabetic() || c == '_' {
            while let Some(c) = src[i..].chars().next() {
                if !(c.is_alphanumeric() || c == '_' || c == '!') {
                    break;
                }
                i += c.len_utf8();
            }
            let word = &src[start..i];
            if i < src.len() && bytes[i] == b'"' {
                out.push((K::STRING_PREFIX, start, i));
                continue;
            }
            let kind = match word {
                "function" => K::FUNCTION_KW,
                "macro" => K::MACRO_KW,
                "end" => K::END_KW,
                "struct" => K::STRUCT_KW,
                "mutable" => K::MUTABLE_KW,
                "module" => K::MODULE_KW,
                "do" => K::DO_KW,
                "using" => K::USING_KW,
                "import" => K::IMPORT_KW,
                "export" => K::EXPORT_KW,
                "true" => K::TRUE_KW,
                "false" => K::FALSE_KW,
                _ => K::IDENT,
            };
            out.push((kind, start, i));
        } else if c.is_ascii_digit() {
            while i < src.len() && bytes[i].is_ascii_digit() {
                i += 1;
            }
            out.push((K::INTEGER, start, i));
        } else if c == '"' || c == '`' {
            let quote = if src[i..].starts_with("\"\"\"") { "\"\"\"" } else { &src[i..i + 1] };
            let (open, close) = if c == '"' {
                (K::STRING_DELIM_OPEN, K::STRING_DELIM_CLOSE)
            } else {
                (K::CMD_DELIM_OPEN, K::CMD_DELIM_CLOSE)
            };
            i += quote.len();
            out.push((open, start, i));
            let content = i;
            while i < src.len() && !src[i..].starts_with(quote) {
                let step = src[i..].chars().next().unwrap();
                i += step.len_utf8();
                if step == '\\' {
                    if let Some(next) = src[i..].chars().next() {
                        i += next.len_utf8();
                    }
                }
            }
            if i > content {
                out.push((K::STRING_CONTENT, content, i));
            }
            if i < src.len() {
                out.push((close, i, i + quote.len()));
                i += quote.len();
            }
        } else {
            let two = src.get(i..i + 2).unwrap_or("");
            if ["+=", "->", "::", "<=", ">=", "=="].contains(&two) {
                i += 2;
                out.push((K::OTHER, start, i));
            } else {
                i += c.len_utf8();
                let kind = match c {
                    '@' => K::AT,
                    '=' => K::EQ,
                    ',' => K::COMMA,
                    ';' => K::SEMICOLON,
                    ')' => K::RPAREN,
                    _ => K::OTHER,
                };
                out.push((kind, start, i));
            }
        }
    }
    out
}

struct Parser<'s> {
    src: &'s str,
    tokens: Vec<(K, usize, usize)>,
    at: usize,
}

impl<'s> Parser<'s> {
    fn kind(&self) -> Option<K> {
        self.tokens.get(self.at).map(|t| t.0)
    }

    fn text(&self) -> &'s str {
        self.tokens.get(self.at).map_or("", |t| &self.src[t.1..t.2])
    }

    fn take(&mut self) -> Node {
        let (kind, start, end) = self.tokens[self.at];
        self.at += 1;
        Node::Leaf(kind, start, end)
    }

    fn blanks(&mut self, out: &mut Vec<Node>) {
        while self.kind() == Some(K::WHITESPACE) {
            out.push(self.take());
        }
    }

    /// What comes behind the blanks here.
    fn ahead(&self) -> (Option<K>, &'s str) {
        let mut i = self.at;
        while self.tokens.get(i).map(|t| t.0) == Some(K::WHITESPACE) {
            i += 1;
        }
        match self.tokens.get(i) {
            Some(t) => (Some(t.0), &self.src[t.1..t.2]),
            None => (None, ""),
        }
    }

    fn block(&mut self, out: &mut Vec<Node>) {
        while let Some(kind) = self.kind() {
            match kind {
                K::WHITESPACE | K::NEWLINE | K::COMMENT | K::SEMICOLON => {
                    let token = self.take();
                    out.push(token);
                }
                K::END_KW => break,
                _ => {
                    let statement = self.statement();
                    out.push(statement);
                }
            }
        }
    }

    fn body(&mut self, out: &mut Vec<Node>) {
        self.block(out);
        if self.kind() == Some(K::END_KW) {
            out.push(self.take());
        }
    }

    fn definition(&mut self, kind: K) -> Node {
        let mut out = Vec::new();
        while matches!(
            self.kind(),
            Some(K::FUNCTION_KW | K::MACRO_KW | K::STRUCT_KW | K::MUTABLE_KW | K::MODULE_KW)
        ) {
            out.push(self.take());
            self.blanks(&mut out);
        }
        let signature = self.binary();
        out.push(Node::Tree(K::SIGNATURE, vec![signature]));
        self.body(&mut out);
        Node::Tree(kind, out)
    }

    fn statement(&mut self) -> Node {
        match self.kind() {
            Some(K::FUNCTION_KW) => self.definition(K::FUNCTION_DEF),
            Some(K::MACRO_KW) => self.definition(K::MACRO_DEF),
            Some(K::STRUCT_KW | K::MUTABLE_KW) => self.definition(K::STRUCT_DEF),
            Some(K::MODULE_KW) => self.definition(K::MODULE_DEF),
            Some(kind @ (K::USING_KW | K::IMPORT_KW | K::EXPORT_KW)) => {
                let mut out = vec![self.take()];
                while !matches!(self.kind(), None | Some(K::NEWLINE)) {
                    let token = self.take();
                    out.push(match token.kind() {
                        K::IDENT => Node::Tree(K::NAME, vec![token]),
                        _ => token,
                    });
                }
                Node::Tree(
                    match kind {
                        K::USING_KW => K::USING_STMT,
                        K::IMPORT_KW => K::IMPORT_STMT,
                        _ => K::OTHER,
                    },
                    out,
                )
            }
            _ => self.expression(),
        }
    }

    fn expression(&mut self) -> Node {
        let left = self.binary();
        let (kind, text) = self.ahead();
        if kind == Some(K::EQ) || text == "+=" || text == "->" {
            let mut out = vec![left];
            self.blanks(&mut out);
            out.push(self.take());
            self.blanks(&mut out);
            let right = self.expression();
            out.push(right);
            let kind = if text == "->" { K::OTHER } else { K::ASSIGNMENT_EXPR };
            return Node::Tree(kind, out);
        }
        left
    }

    fn binary(&mut self) -> Node {
        let mut out = vec![self.postfix()];
        loop {
            let (kind, text) = self.ahead();
            if kind != Some(K::OTHER) || !"+-*/<>?:^".contains(&text[..1]) || text == "->" || text == "+=" {
                break;
            }
            if text == "::" {
                let left = out.pop().unwrap();
                let operator = self.take();
                let right = self.postfix();
                out.push(Node::Tree(K::TYPE_ANNOTATION, vec![left, operator, right]));
                continue;
            }
            self.blanks(&mut out);
            out.push(self.take());
            self.blanks(&mut out);
            let right = self.postfix();
            out.push(right);
        }
        if out.len() == 1 {
            out.pop().unwrap()
        } else {
            Node::Tree(K::OTHER, out)
        }
    }

    fn postfix(&mut self) -> Node {
        let mut node = self.primary();
        loop {
            if self.text() == "(" {
                let arguments = self.arguments();
                node = Node::Tree(K::CALL_EXPR, vec![node, arguments]);
                if self.ahead().0 == Some(K::DO_KW) {
                    let mut out = vec![node];
                    self.blanks(&mut out);
                    out.push(self.take());
                    while !matches!(self.kind(), None | Some(K::NEWLINE)) {
                        let token = self.take();
                        out.push(match token.kind() {
                            K::IDENT => Node::Tree(K::NAME, vec![token]),
                            _ => token,
                        });
                    }
                    self.body(&mut out);
                    node = Node::Tree(K::DO_EXPR, out);
                }
            } else if self.text() == "." {
                let dot = self.take();
                if self.text() == "(" {
                    let arguments = self.arguments();
                    node = Node::Tree(K::DOT_CALL_EXPR, vec![node, dot, arguments]);
                } else if self.kind() == Some(K::AT) {
                    // A qualified macro: its name holds the whole path.
                    let mut out = leaves(node);
                    out.push(dot);
                    out.push(self.take());
                    if self.kind() == Some(K::IDENT) {
                        out.push(self.take());
                    }
                    return self.macro_call(Node::Tree(K::MACRO_NAME, out));
                } else {
                    let mut out = vec![node, dot];
                    if self.kind() == Some(K::IDENT) {
                        let name = self.take();
                        out.push(Node::Tree(K::NAME, vec![name]));
                    }
                    node = Node::Tree(K::OTHER, out);
                }
            } else {
                return node;
            }
        }
    }

    fn macro_call(&mut self, name: Node) -> Node {
        let mut out = vec![name];
        while !matches!(self.kind(), None | Some(K::NEWLINE)) {
            if self.kind() == Some(K::WHITESPACE) {
                out.push(self.take());
            } else {
                let argument = self.binary();
                out.push(argument);
            }
        }
        Node::Tree(K::OTHER, out)
    }

    fn primary(&mut self) -> Node {
        match self.kind() {
            None => Node::Leaf(K::OTHER, self.src.len(), self.src.len()),
            Some(K::IDENT) => {
                let name = self.take();
                Node::Tree(K::NAME, vec![name])
            }
            Some(K::AT) => {
                let mut name = vec![self.take()];
                if self.kind() == Some(K::IDENT) {
                    name.push(self.take());
                }
                self.macro_call(Node::Tree(K::MACRO_NAME, name))
            }
            Some(K::STRING_PREFIX | K::STRING_DELIM_OPEN | K::CMD_DELIM_OPEN) => {
                let mut out = Vec::new();
                let mut kind = K::STRING_LITERAL;
                while let Some(piece) = self.kind() {
                    match piece {
                        K::CMD_DELIM_OPEN => kind = K::CMD_LITERAL,
                        K::STRING_PREFIX | K::STRING_DELIM_OPEN | K::STRING_CONTENT => {}
                        K::STRING_DELIM_CLOSE | K::CMD_DELIM_CLOSE => {
                            out.push(self.take());
                            break;
                        }
                        _ => break,
                    }
                    out.push(self.take());
                }
                Node::Tree(kind, out)
            }
            Some(_) if self.text() == "[" || self.text() == "(" => {
                let mut out = vec![self.take()];
                while let Some(kind) = self.kind() {
                    if self.text() == "]" || kind == K::RPAREN {
                        out.push(self.take());
                        break;
                    }
                    if matches!(kind, K::COMMA | K::WHITESPACE | K::NEWLINE) {
                        out.push(self.take());
                    } else {
                        let item = self.expression();
                        out.push(item);
                    }
                }
                Node::Tree(K::OTHER, out)
            }
            Some(_) => {
                let token = self.take();
                Node::Tree(K::OTHER, vec![token])
            }
        }
    }

    fn argument(&mut self) -> Node {
        let named = self.kind() == Some(K::IDENT) && {
            let mut i = self.at + 1;
            while self.tokens.get(i).map(|t| t.0) == Some(K::WHITESPACE) {
                i += 1;
            }
            self.tokens.get(i).map(|t| t.0) == Some(K::EQ)
        };
        if named {
            let name = self.take();
            let mut out = vec![Node::Tree(K::NAME, vec![name])];
            self.blanks(&mut out);
            out.push(self.take());
            self.blanks(&mut out);
            let value = self.expression();
            out.push(value);
            Node::Tree(K::KEYWORD_ARG, out)
        } else {
            let value = self.expression();
            Node::Tree(K::ARG, vec![value])
        }
    }

    fn arguments(&mut self) -> Node {
        let mut out = vec![self.take()];
        while let Some(kind) = self.kind() {
            match kind {
                K::RPAREN => {
                    out.push(self.take());
                    break;
                }
                K::COMMA | K::WHITESPACE | K::NEWLINE => out.push(self.take()),
                K::SEMICOLON => {
                    let mut parameters = vec![self.take()];
                    while let Some(kind) = self.kind() {
                        match kind {
                            K::RPAREN => break,
                            K::COMMA | K::WHITESPACE | K::NEWLINE => parameters.push(self.take()),
                            _ => {
                                let argument = self.argument();
                                parameters.push(argument);
                            }
                        }
                    }
                    out.push(Node::Tree(K::PARAMETERS, parameters));
                }
                _ => {
                    let argument = self.argument();
                    out.push(argument);
                }
            }
        }
        Node::Tree(K::ARG_LIST, out)
    }
}

fn leaves(node: Node) -> Vec<Node> {
    match node {
        Node::Leaf(..) => vec![node],
        Node::Tree(_, children) => children.into_iter().flat_map(leaves).collect(),
    }
}

fn parse(src: &str) -> Node {
    let mut parser = Parser { src, tokens: lex(src), at: 0 };
    let mut out = Vec::new();
    while parser.kind().is_some() {
        parser.block(&mut out);
        if parser.kind().is_some() {
            out.push(parser.take());
        }
    }
    Node::Tree(K::ROOT, out)
}

fn flatten(node: &Node, parent: usize, out: &mut Vec<Element>, src: &str) {
    let at = out.len();
    let range = if at == 0 {
        TextRange { start: 0, end: src.len() as u32 }
    } else {
        node.range()
    };
    out.push(Element {
        kind: node.kind(),
        range,
        is_token: matches!(node, Node::Leaf(..)),
        parent,
        end: at + 1,
    });
    if let Node::Tree(_, children) = node {
        for child in children {
            flatten(child, at, out, src);
        }
    }
    out[at].end = out.len();
}

fn tree_of(src: &str) -> SyntaxTree {
    let mut elements = Vec::new();
    flatten(&parse(src), 0, &mut elements, src);
    SyntaxTree { elements }
}

/// The names of a scope.
struct Scope {
    names: Vec<(String, usize)>,
    function: bool,
}

struct Binder<'s> {
    src: &'s str,
    scopes: Vec<Scope>,
    model: SemanticModel,
    exported: Vec<(String, TextRange)>,
}

impl<'s> Binder<'s> {
    fn find(&self, name: &str) -> Option<usize> {
        for scope in self.scopes.iter().rev() {
            if let Some((_, id)) = scope.names.iter().find(|(n, _)| n == name) {
                return Some(*id);
            }
        }
        None
    }

    fn bind(&mut self, key: &str, node: &Node, kind: BindingKind) {
        let scope = self.scopes.last().unwrap();
        if scope.names.iter().any(|(n, _)| n == key) {
            return;
        }
        let id = self.model.bindings.len();
        self.model.bindings.push(Binding {
            name: node.text(self.src).to_string(),
            kind,
            def_range: node.range(),
            docs: Vec::new(),
        });
        self.scopes.last_mut().unwrap().names.push((key.to_string(), id));
    }

    fn occurrence(&mut self, node: &Node, access: Access) {
        let name = node.text(self.src).to_string();
        self.named(name.clone(), name, node.range(), access, false);
    }

    fn named(&mut self, key: String, name: String, range: TextRange, access: Access, is_macro: bool) {
        let binding = self.find(&key);
        if let Some(id) = binding {
            if self.model.bindings[id].def_range == range {
                return;
            }
        }
        self.model.idents.push(Ident {
            name,
            range,
            binding,
            is_macro,
            access,
            resolution: Resolution::Unresolved,
        });
    }

    /// The callee of a definition's signature, through its wrappers.
    fn callee<'n>(node: &'n Node) -> &'n Node {
        match node.kind() {
            K::CALL_EXPR | K::TYPE_ANNOTATION => Self::callee(node.nodes()[0]),
            _ => node,
        }
    }

    fn declare(&mut self, node: &Node) {
        match node.kind() {
            K::FUNCTION_DEF | K::MACRO_DEF | K::STRUCT_DEF | K::MODULE_DEF => {
                let name = Self::callee(node.nodes()[0].nodes()[0]);
                if name.kind() == K::NAME {
                    let text = name.text(self.src).to_string();
                    match node.kind() {
                        K::FUNCTION_DEF => self.bind(&text, name, BindingKind::Function),
                        K::MACRO_DEF => self.bind(&format!("@{text}"), name, BindingKind::Macro),
                        K::STRUCT_DEF => self.bind(&text, name, BindingKind::Type),
                        _ => self.bind(&text, name, BindingKind::Module),
                    }
                }
            }
            K::ASSIGNMENT_EXPR => {
                let left = node.nodes()[0];
                let name = Self::callee(left);
                if name.kind() == K::NAME {
                    let text = name.text(self.src).to_string();
                    if left.kind() == K::CALL_EXPR {
                        self.bind(&text, name, BindingKind::Function);
                    } else {
                        let function = self.scopes.last().unwrap().function;
                        let captured = self
                            .scopes
                            .iter()
                            .any(|s| s.function && s.names.iter().any(|(n, _)| *n == text));
                        if !captured {
                            let kind =
                                if function { BindingKind::Local } else { BindingKind::Global };
                            self.bind(&text, name, kind);
                        }
                    }
                }
            }
            _ => {}
        }
    }

    fn statements(&mut self, nodes: &[&Node]) {
        for node in nodes {
            self.declare(node);
        }
        for node in nodes {
            self.walk(node);
        }
    }

    fn enter(&mut self, function: bool) {
        self.scopes.push(Scope { names: Vec::new(), function });
    }

    /// Binds the parameters of a call that is a signature.
    fn parameters(&mut self, call: &Node) {
        for list in call.nodes().into_iter().filter(|n| n.kind() == K::ARG_LIST) {
            for argument in list.nodes() {
                match argument.kind() {
                    K::ARG => self.parameter(argument.nodes()[0], BindingKind::Param),
                    K::KEYWORD_ARG => self.parameter(argument.nodes()[0], BindingKind::Param),
                    K::PARAMETERS => {
                        for keyword in argument.nodes() {
                            self.parameter(keyword.nodes()[0], BindingKind::KeywordParam);
                        }
                    }
                    _ => {}
                }
            }
        }
    }

    fn parameter(&mut self, node: &Node, kind: BindingKind) {
        match node.kind() {
            K::NAME => {
                let text = node.text(self.src).to_string();
                self.bind(&text, node, kind);
            }
            K::TYPE_ANNOTATION => {
                self.parameter(node.nodes()[0], kind);
                self.walk(node.nodes()[1]);
            }
            _ => {}
        }
    }

    fn path(&self, node: &Node, out: &mut Vec<String>) {
        match node {
            Node::Leaf(K::IDENT, start, end) => out.push(self.src[*start..*end].to_string()),
            Node::Leaf(..) => {}
            Node::Tree(_, children) => children.iter().for_each(|c| self.path(c, out)),
        }
    }

    fn is_chain(&self, node: &Node) -> bool {
        node.kind() == K::OTHER
            && matches!(node, Node::Tree(_, children)
                if children.len() == 3 && children[1].text(self.src) == "."
                    && (children[0].kind() == K::NAME || self.is_chain(&children[0])))
    }

    fn definition(&mut self, signature: &Node, body: &[&Node]) {
        let name = Self::callee(signature);
        if name.kind() == K::NAME {
            self.occurrence(name, Access::Write);
        } else {
            self.walk(name);
        }
        self.enter(true);
        let mut call = signature;
        while call.kind() == K::TYPE_ANNOTATION {
            call = call.nodes()[0];
        }
        self.parameters(call);
        self.statements(body);
        self.scopes.pop();
    }

    fn walk(&mut self, node: &Node) {
        let nodes = node.nodes();
        match node.kind() {
            K::FUNCTION_DEF => self.definition(nodes[0].nodes()[0], &nodes[1..]),
            K::MACRO_DEF => {
                self.enter(true);
                self.parameters(nodes[0].nodes()[0]);
                self.statements(&nodes[1..]);
                self.scopes.pop();
            }
            K::STRUCT_DEF => {}
            K::MODULE_DEF => {
                self.enter(false);
                self.statements(&nodes[1..]);
                for (name, range) in std::mem::take(&mut self.exported) {
                    let binding = self.find(&name);
                    self.model.exports.push(ExportEntry { range, binding });
                }
                self.scopes.pop();
            }
            K::ASSIGNMENT_EXPR => {
                let plain = match node {
                    Node::Tree(_, children) => {
                        children.iter().any(|c| c.kind() == K::EQ && matches!(c, Node::Leaf(..)))
                    }
                    _ => false,
                };
                if plain && nodes[0].kind() == K::CALL_EXPR {
                    self.definition(nodes[0], &nodes[1..]);
                } else {
                    if nodes[0].kind() == K::NAME {
                        let access = if plain { Access::Write } else { Access::ReadWrite };
                        self.occurrence(nodes[0], access);
                    } else {
                        self.walk(nodes[0]);
                    }
                    self.walk(nodes[1]);
                }
            }
            K::DO_EXPR => {
                self.walk(nodes[0]);
                self.enter(true);
                let line = self.src[nodes[0].end()..].find('\n').unwrap() + nodes[0].end();
                let split = nodes.iter().position(|n| n.start() > line).unwrap_or(nodes.len());
                for name in &nodes[1..split] {
                    self.parameter(name, BindingKind::Param);
                }
                self.statements(&nodes[split..]);
                self.scopes.pop();
            }
            K::USING_STMT => {
                for name in nodes {
                    self.model.module_loads.push(ModuleLoad {
                        kind: LoadKind::Using,
                        components: vec![name.text(self.src).to_string()],
                        whole: true,
                    });
                }
            }
            K::IMPORT_STMT => {}
            K::KEYWORD_ARG => self.walk(nodes[1]),
            K::NAME => self.occurrence(node, Access::Read),
            K::MACRO_NAME => {
                let mut path = Vec::new();
                self.path(node, &mut path);
                if path.len() == 1 {
                    let range = TextRange {
                        start: node.start() as u32 + 1,
                        end: node.end() as u32,
                    };
                    let name = path.remove(0);
                    self.named(format!("@{name}"), name, range, Access::Read, true);
                } else if path.len() > 1 {
                    let last = path.pop().unwrap();
                    path.push(format!("@{last}"));
                    self.model.qualified_reads.push(QualifiedRead {
                        path,
                        range: node.range(),
                        is_macro: true,
                    });
                }
            }
            K::OTHER if self.is_chain(node) => {
                let mut path = Vec::new();
                self.path(node, &mut path);
                self.model.qualified_reads.push(QualifiedRead {
                    path,
                    range: node.range(),
                    is_macro: false,
                });
            }
            K::OTHER if self.src[node.start()..].starts_with("export ") => {
                for name in nodes {
                    self.exported.push((name.text(self.src).to_string(), name.range()));
                }
            }
            K::OTHER
                if nodes.len() == 2
                    && self.src[nodes[0].end()..nodes[1].start()].trim() == "->" =>
            {
                self.enter(true);
                self.parameter(nodes[0], BindingKind::Param);
                self.statements(&nodes[1..]);
                self.scopes.pop();
            }
            _ => {
                for child in nodes {
                    self.walk(child);
                }
            }
        }
    }
}

/// The packages that names resolve to, with what they export.
struct Env {
    library: Library,
    exports: Vec<(String, Vec<String>)>,
    workspace: Option<PackageIndex>,
}

fn no_library() -> Env {
    Env {
        library: Library { packages: Vec::new(), roots: Vec::new() },
        exports: Vec::new(),
        workspace: None,
    }
}

impl Env {
    fn exports_of(&self, module: &str) -> &[String] {
        self.exports.iter().find(|(m, _)| m == module).map_or(&[], |(_, names)| names)
    }

    fn resolve(&self, name: &str, loads: &[ModuleLoad]) -> Resolution {
        if let Some(package) = &self.workspace {
            let root = &package.root;
            if root.functions.iter().any(|f| f.name == name && f.owner.is_none()) {
                return Resolution::Workspace { path: Vec::new(), name: name.to_string() };
            }
        }
        for load in loads {
            let module = &load.components[0];
            if self.exports_of(module).iter().any(|n| n == name) {
                return Resolution::Using { module: module.clone(), name: name.to_string() };
            }
        }
        if self.exports_of("Base").iter().any(|n| n == name) {
            return Resolution::System { module: "Base".to_string(), name: name.to_string() };
        }
        Resolution::Unresolved
    }
}

fn model_of(src: &str, env: &Env) -> SemanticModel {
    let root = parse(src);
    let mut binder = Binder {
        src,
        scopes: Vec::new(),
        model: SemanticModel {
            bindings: Vec::new(),
            idents: Vec::new(),
            exports: Vec::new(),
            qualified_reads: Vec::new(),
            module_loads: Vec::new(),
        },
        exported: Vec::new(),
    };
    binder.enter(false);
    binder.statements(&root.nodes());
    let mut model = binder.model;
    for ident in &mut model.idents {
        if ident.binding.is_none() {
            let name =
                if ident.is_macro { format!("@{}", ident.name) } else { ident.name.clone() };
            ident.resolution = env.resolve(&name, &model.module_loads);
        }
    }
    model
}

// --- Builders of packages ----------------------------------------------------

fn loc() -> DefLocation {
    DefLocation { file: "src/x.jl".to_string(), range: Span { start: 0, end: 0 } }
}

fn module(name: &str) -> ModuleIndex {
    ModuleIndex {
        name: name.to_string(),
        functions: Vec::new(),
        types: Vec::new(),
        consts: Vec::new(),
        macros: Vec::new(),
        submodules: Vec::new(),
        loc: loc(),
    }
}

fn package(root: ModuleIndex) -> PackageIndex {
    PackageIndex { name: root.name.clone(), root }
}

/// Packages with what their root modules export.
fn library(packages: Vec<(ModuleIndex, &[&str])>) -> Env {
    let mut env = no_library();
    for (root, exports) in packages {
        env.exports.push((root.name.clone(), exports.iter().map(|n| n.to_string()).collect()));
        env.library.packages.push(package(root));
    }
    env
}

fn param(name: &str) -> Param {
    Param { name: Some(name.to_string()), type_annotation: None, default: None, is_vararg: false }
}

fn method(params: &[&str], keywords: &[&str]) -> Method {
    Method {
        params: params.iter().map(|p| param(p)).collect(),
        keyword_params: keywords.iter().map(|p| param(p)).collect(),
        return_type: None,
        loc: loc(),
    }
}

fn group(name: &str, methods: Vec<Method>, doc: Option<&str>) -> FunctionGroup {
    FunctionGroup {
        name: name.to_string(),
        owner: None,
        methods,
        doc: doc.map(|d| d.to_string()),
    }
}

fn typedef(name: &str, mutable: bool) -> TypeDef {
    TypeDef {
        name: name.to_string(),
        kind: TypeKind::Struct { mutable },
        supertype: None,
        doc: None,
        loc: loc(),
    }
}

fn constant(name: &str, value: Option<&str>) -> ConstDef {
    ConstDef {
        name: name.to_string(),
        value_repr: value.map(|v| v.to_string()),
        doc: None,
        loc: loc(),
    }
}

fn macrodef(name: &str, params: &[&str]) -> MacroDef {
    MacroDef {
        name: name.to_string(),
        params: params.iter().map(|p| param(p)).collect(),
        doc: None,
        loc: loc(),
    }
}

fn texts(parts: &[&str]) -> Vec<String> {
    parts.iter().map(|p| p.to_string()).collect()
}

fn path(text: &str) -> FilePath {
    FilePath::parse(text).expect("an absolute path")
}

/// Adds what a source file defines to a module.
fn harvest_into(into: &mut ModuleIndex, nodes: &[&Node], file: &str, src: &str) {
    for node in nodes {
        let (signature, short) = match node.kind() {
            K::FUNCTION_DEF => (node.nodes()[0].nodes()[0], false),
            K::ASSIGNMENT_EXPR => (node.nodes()[0], true),
            K::MODULE_DEF => {
                let name = node.nodes()[0].text(src).to_string();
                let mut inner = module(&name);
                harvest_into(&mut inner, &node.nodes()[1..], file, src);
                into.submodules.push(inner);
                continue;
            }
            _ => continue,
        };
        if short && signature.kind() != K::CALL_EXPR {
            continue;
        }
        let callee = Binder::callee(signature);
        let text = callee.text(src);
        let (owner, name) = match text.rsplit_once('.') {
            Some((owner, name)) => {
                (Some(owner.split('.').map(|p| p.to_string()).collect::<Vec<_>>()), name)
            }
            None => (None, text),
        };
        let found = Method {
            params: Vec::new(),
            keyword_params: Vec::new(),
            return_type: None,
            loc: DefLocation {
                file: file.to_string(),
                range: Span { start: callee.start() as u32, end: callee.end() as u32 },
            },
        };
        match into.functions.iter_mut().find(|f| f.name == name && f.owner == owner) {
            Some(group) => group.methods.push(found),
            None => into.functions.push(FunctionGroup {
                name: name.to_string(),
                owner,
                methods: vec![found],
                doc: None,
            }),
        }
    }
}

/// A package made of source files: the entry file, whose module is the package's,
/// and the files that it takes in.
fn harvest(name: &str, files: &[(&str, &str)]) -> PackageIndex {
    let mut root = module(name);
    for (file, src) in files {
        let parsed = parse(src);
        let nodes = parsed.nodes();
        let entry = nodes.iter().find(|n| {
            n.kind() == K::MODULE_DEF && n.nodes()[0].text(src) == name
        });
        match entry {
            Some(entry) => {
                let at = entry.nodes()[0].start() as u32;
                root.loc = DefLocation {
                    file: file.to_string(),
                    range: Span { start: at, end: at + name.len() as u32 },
                };
                harvest_into(&mut root, &entry.nodes()[1..], file, src);
            }
            None => harvest_into(&mut root, &nodes, file, src),
        }
    }
    package(root)
}

// --- Helpers -----------------------------------------------------------------

const URI: &str = "file:///work/s.jl";

/// The source without its `|`, and the position where that was.
fn cursor(marked: &str) -> (String, Position) {
    let offset = marked.find('|').expect("a cursor marker");
    let src = marked.replacen('|', "", 1);
    let position = LineIndex::new(&src).byte_to_position(offset, PositionEncoding::Utf16);
    (src, position)
}

fn at(line: u32, character: u32) -> Position {
    Position { line, character }
}
