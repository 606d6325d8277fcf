//! Renames of files: where paths go, and what becomes of the includes.

use std::collections::BTreeMap;

use fatou_lsp::paths::{absolute_spelling, FilePath};
use fatou_lsp::rename_files::{
    escape_literal, is_package_name, path_of, renamed_package_projects, rewritten_literal,
    scan_set, top_modules, will_rename_files, FileEdits, FileRename, IncludeSite, MemberFile,
    NameParse, PackageInput, PackagePath, PackageProject, RenameMap, ScanCandidate, ScannedFile,
    SpannedName,
};
use fatou_lsp::text::{LineIndex, PositionEncoding, TextRange};
use fatou_lsp::tree::{Element, SyntaxKind as K, SyntaxTree};
use fatou_lsp::validity::tree_is_valid;

fn path(text: &str) -> FilePath {
    FilePath::parse(text).expect("an absolute path")
}

fn shown(path: &FilePath) -> String {
    absolute_spelling(path).expect("a spelling")
}

fn rename(old: &str, new: &str) -> FileRename {
    FileRename { old_uri: format!("file://{old}"), new_uri: format!("file://{new}") }
}

fn map_of(renames: Vec<FileRename>) -> RenameMap {
    RenameMap::from_files(&renames).expect("a non-empty rename map")
}

fn mapped(map: &RenameMap, text: &str) -> String {
    shown(&map.map(&path(text)))
}

/// The literal denoting `text` rewritten for an includer sitting at `includer`.
fn rewrite(text: &str, includer: &str, renames: Vec<FileRename>) -> Option<String> {
    let map = map_of(renames);
    let old_path = path(includer);
    let new_path = map.map(&old_path);
    rewritten_literal(text, &old_path.parent().unwrap(), &new_path.parent().unwrap(), &map)
}

#[test]
fn maps_a_file_rename_and_leaves_other_paths_alone() {
    let map = map_of(vec![rename("/work/src/a.jl", "/work/src/b.jl")]);
    assert_eq!(mapped(&map, "/work/src/a.jl"), "/work/src/b.jl");
    assert_eq!(mapped(&map, "/work/src/c.jl"), "/work/src/c.jl");
}

#[test]
fn maps_a_folder_rename_as_a_path_prefix() {
    let map = map_of(vec![rename("/work/src/sub", "/work/src/nested")]);
    assert_eq!(mapped(&map, "/work/src/sub/deep/a.jl"), "/work/src/nested/deep/a.jl");
    // A sibling whose name merely starts with the same text is untouched.
    assert_eq!(mapped(&map, "/work/src/submarine.jl"), "/work/src/submarine.jl");
}

#[test]
fn the_most_specific_entry_wins_and_mappings_never_chain() {
    let map = map_of(vec![
        rename("/work/src", "/work/lib"),
        rename("/work/src/a.jl", "/work/src/keep.jl"),
    ]);
    // The inner entry decides for the file it names...
    assert_eq!(mapped(&map, "/work/src/a.jl"), "/work/src/keep.jl");
    // ...and the folder entry still covers everything else under it.
    assert_eq!(mapped(&map, "/work/src/b.jl"), "/work/lib/b.jl");
}

#[test]
fn a_non_file_uri_entry_is_dropped_from_the_map() {
    let only_untitled = vec![FileRename {
        old_uri: "untitled:Untitled-1".to_string(),
        new_uri: "untitled:Untitled-2".to_string(),
    }];
    assert!(RenameMap::from_files(&only_untitled).is_none());
    let identity = vec![rename("/work/a.jl", "/work/a.jl")];
    assert!(RenameMap::from_files(&identity).is_none());
    assert!(RenameMap::from_files(&Vec::new()).is_none());
}

#[test]
fn a_uri_names_a_path_with_its_escapes_decoded() {
    assert_eq!(shown(&path_of("file:///work/a%20b.jl").unwrap()), "/work/a b.jl");
    assert!(path_of("untitled:Untitled-1").is_none());
    assert!(path_of("not a uri").is_none());
}

#[test]
fn rewrites_the_includers_literal_when_the_included_file_moves() {
    let edit = rewrite(
        "a.jl",
        "/work/src/MyPkg.jl",
        vec![rename("/work/src/a.jl", "/work/src/sub/a.jl")],
    );
    assert_eq!(edit.as_deref(), Some("sub/a.jl"));
}

#[test]
fn a_relative_spelling_walks_up_with_dot_dot() {
    let edit = rewrite(
        "a.jl",
        "/work/src/MyPkg.jl",
        vec![rename("/work/src/a.jl", "/work/lib/a.jl")],
    );
    assert_eq!(edit.as_deref(), Some("../lib/a.jl"));
}

#[test]
fn rebases_a_moved_files_own_relative_includes() {
    // `src/a.jl` includes `b.jl` beside it, then moves one level down.
    let edit = rewrite(
        "b.jl",
        "/work/src/a.jl",
        vec![rename("/work/src/a.jl", "/work/src/sub/a.jl")],
    );
    assert_eq!(edit.as_deref(), Some("../b.jl"));
}

#[test]
fn a_move_that_carries_both_ends_leaves_the_literal_alone() {
    let edit = rewrite(
        "b.jl",
        "/work/src/sub/a.jl",
        vec![rename("/work/src/sub", "/work/src/nested")],
    );
    assert_eq!(edit, None, "the two files stay side by side");
}

#[test]
fn an_absolute_literal_stays_absolute() {
    let edit = rewrite(
        "/work/src/a.jl",
        "/work/src/MyPkg.jl",
        vec![rename("/work/src/a.jl", "/work/src/sub/a.jl")],
    );
    assert_eq!(edit.as_deref(), Some("/work/src/sub/a.jl"));
}

#[test]
fn an_absolute_literal_is_untouched_when_only_the_includer_moves() {
    let edit = rewrite(
        "/work/src/a.jl",
        "/work/src/MyPkg.jl",
        vec![rename("/work/src/MyPkg.jl", "/work/src/sub/MyPkg.jl")],
    );
    assert_eq!(edit, None, "an absolute literal ignores the includer's dir");
}

#[test]
fn a_leading_dot_slash_is_preserved() {
    let edit = rewrite(
        "./a.jl",
        "/work/src/MyPkg.jl",
        vec![rename("/work/src/a.jl", "/work/src/sub/a.jl")],
    );
    assert_eq!(edit.as_deref(), Some("./sub/a.jl"));
}

#[test]
fn a_leading_dot_slash_gives_way_to_a_walk_up() {
    let edit = rewrite(
        "./a.jl",
        "/work/src/MyPkg.jl",
        vec![rename("/work/src/a.jl", "/work/lib/a.jl")],
    );
    assert_eq!(edit.as_deref(), Some("../lib/a.jl"));
}

#[test]
fn separators_are_always_forward_slashes() {
    let edit = rewrite(
        "a.jl",
        "/work/src/MyPkg.jl",
        vec![rename("/work/src/a.jl", "/work/src/one/two/a.jl")],
    )
    .expect("an edit");
    assert!(!edit.contains('\\'), "got {edit}");
    assert_eq!(edit, "one/two/a.jl");
}

#[test]
fn an_unmoved_include_is_untouched_even_when_spelled_non_canonically() {
    let edit = rewrite(
        "sub/../a.jl",
        "/work/src/MyPkg.jl",
        vec![rename("/work/src/other.jl", "/work/src/renamed.jl")],
    );
    assert_eq!(edit, None, "a literal the rename never touched stays verbatim");
}

#[test]
fn a_backslash_in_a_name_is_re_escaped_on_the_way_out() {
    let map = map_of(vec![FileRename {
        old_uri: "file:///work/src/a.jl".to_string(),
        new_uri: "file:///work/src/o%5Cd.jl".to_string(),
    }]);
    let edit = rewritten_literal("a.jl", &path("/work/src"), &path("/work/src"), &map);
    assert_eq!(edit.as_deref(), Some("o\\\\d.jl"));
}

#[test]
fn a_new_path_needing_escapes_is_escaped() {
    let edit = rewrite(
        "a.jl",
        "/work/src/MyPkg.jl",
        vec![rename("/work/src/a.jl", "/work/src/od$d/a.jl")],
    );
    assert_eq!(edit.as_deref(), Some("od\\$d/a.jl"));
}

#[test]
fn every_escaped_character_keeps_its_meaning() {
    assert_eq!(escape_literal("a\"b\\c$d"), "a\\\"b\\\\c\\$d");
    assert_eq!(escape_literal("plain/path.jl"), "plain/path.jl");
}

// --- Batches over a workspace --------------------------------------------------

fn pkg_path(rel: &str) -> String {
    let joined = format!("/work/MyPkg/{rel}");
    shown(&path(&joined))
}

fn moved(old: &str, new: &str) -> FileRename {
    FileRename {
        old_uri: format!("file://{}", pkg_path(old)),
        new_uri: format!("file://{}", pkg_path(new)),
    }
}

/// A file with its static includes.
fn scanned(file: &str, text: &str) -> ScannedFile {
    let dir = path(file).parent().unwrap();
    let mut sites = Vec::new();
    let mut targets = Vec::new();
    let mut from = 0;
    while let Some(found) = text[from..].find("include(\"") {
        let start = from + found + "include(\"".len();
        let end = start + text[start..].find('"').unwrap();
        let raw = &text[start..end];
        sites.push(IncludeSite {
            path: raw.to_string(),
            content: Some(TextRange { start: start as u32, end: end as u32 }),
        });
        targets.push(fatou_lsp::paths::resolve_target(raw, Some(&dir)));
        from = end;
    }
    ScannedFile { text: text.to_string(), targets, sites }
}

/// A module in a text: where it and its name stand, the docstring before it, and
/// the modules in it.
struct Found {
    doc: Option<usize>,
    start: usize,
    name: (usize, usize),
    end: usize,
    inner: Vec<Found>,
}

/// The modules of a text; a docstring is a line in quotes before one.
fn modules_in(text: &str) -> Vec<Found> {
    let mut open: Vec<Found> = Vec::new();
    let mut top: Vec<Found> = Vec::new();
    let mut doc = None;
    let mut at = 0;
    for line in text.split_inclusive('\n') {
        let word = line.trim_start();
        let start = at + line.len() - word.len();
        if let Some(kw) = ["module ", "baremodule "].iter().find(|kw| word.starts_with(**kw)) {
            let rest = &word[kw.len()..];
            let name: usize =
                rest.chars().take_while(|c| !c.is_whitespace()).map(char::len_utf8).sum();
            let from = start + kw.len();
            open.push(Found {
                doc,
                start,
                name: (from, from + name),
                end: start,
                inner: Vec::new(),
            });
        }
        doc = if word.starts_with('"') { Some(start) } else { None };
        at += line.len();
        if word.trim_end().ends_with("end") {
            let mut closed = open.pop().expect("an open module");
            closed.end = at - (line.len() - line.trim_end().len());
            match open.last_mut() {
                Some(outer) => outer.inner.push(closed),
                None => top.push(closed),
            }
        }
    }
    top
}

fn push_node(out: &mut Vec<Element>, kind: K, start: usize, end: usize, parent: usize) -> usize {
    let range = TextRange { start: start as u32, end: end as u32 };
    out.push(Element { kind, range, is_token: false, parent, end: out.len() + 1 });
    out.len() - 1
}

fn push_module(out: &mut Vec<Element>, module: &Found, parent: usize) {
    let first = out.len();
    let mut holder = parent;
    if let Some(doc) = module.doc {
        holder = push_node(out, K::DOC_ATTACHMENT, doc, module.end, parent);
        push_node(out, K::STRING_LITERAL, doc, module.start, holder);
    }
    let node = push_node(out, K::MODULE_DEF, module.start, module.end, holder);
    let (from, to) = module.name;
    let signature = push_node(out, K::SIGNATURE, from, to, node);
    push_node(out, K::NAME, from, to, signature);
    out[signature].end = out.len();
    for inner in &module.inner {
        push_module(out, inner, node);
    }
    let end = out.len();
    out[node].end = end;
    out[first].end = end;
}

/// The tree of a text, as far as its modules go.
fn module_tree(text: &str) -> SyntaxTree {
    let mut elements = Vec::new();
    push_node(&mut elements, K::OTHER, 0, text.len(), 0);
    for module in modules_in(text) {
        push_module(&mut elements, &module, 0);
    }
    elements[0].end = elements.len();
    let tree = SyntaxTree { elements };
    assert!(tree_is_valid(&tree));
    tree
}

/// A member file with its modules.
fn member(file: &str, text: &str) -> MemberFile {
    MemberFile {
        path: path(file),
        text: text.to_string(),
        clean: true,
        tree: module_tree(text),
    }
}

/// A file to look through: its place among the sources, and its path.
fn candidate(file: &str, at: usize) -> ScanCandidate {
    ScanCandidate { file: Some(at), path: Some(path(file)) }
}

#[test]
fn documented_modules_at_the_top_are_found() {
    let text = "\"\"\nmodule A\nmodule Inner\nend\nend\nmodule B end\n";
    let text = text.replacen("\"\"", "\"Documents A.\"", 1);
    let found: Vec<(String, u32)> = top_modules(&text, &module_tree(&text))
        .into_iter()
        .map(|module| (module.name, module.range.start))
        .collect();
    let at = |needle: &str| text.find(needle).unwrap() as u32 + 7;
    assert_eq!(
        found,
        vec![("A".to_string(), at("module A")), ("B".to_string(), at("module B"))]
    );
}

/// How the parser reads a name.
fn name_parse(name: &str) -> NameParse {
    let plain = name.starts_with(|c: char| c.is_alphabetic() || c == '_')
        && name.chars().all(|c| c.is_alphanumeric() || c == '_');
    NameParse {
        clean: name != "end",
        items: if plain { vec![Some(name.to_string())] } else { vec![None] },
    }
}

/// A project file that the workspace holds: its name and UUID, where they read as
/// strings of a project.
fn project(file: &str, text: &str) -> PackageProject {
    let value = |key: &str| -> Option<(String, usize, usize)> {
        let start = text.find(&format!("{key} = "))? + key.len() + 3;
        for quote in ["\"\"\"", "\"", "'"] {
            if text[start..].starts_with(quote) {
                let open = start + quote.len();
                let close = open + text[open..].find(quote)?;
                let inner = text[open..close].trim_start_matches('\n');
                return Some((inner.to_string(), start, close + quote.len()));
            }
        }
        None
    };
    let broken = text.trim_end().ends_with('=');
    PackageProject {
        path: Some(path(file)),
        text: text.to_string(),
        name: if broken {
            None
        } else {
            value("name").map(|(value, start, end)| SpannedName { value, start, end })
        },
        has_uuid: value("uuid").is_some(),
    }
}

fn batch(
    files: &[(&str, &str)],
    projects: Vec<PackageProject>,
    open_docs: &[(&str, &str)],
    renames: &[FileRename],
    encoding: PositionEncoding,
) -> Vec<FileEdits> {
    let renames: Vec<FileRename> = renames
        .iter()
        .map(|r| FileRename { old_uri: r.old_uri.clone(), new_uri: r.new_uri.clone() })
        .collect();
    let mut workspace = Vec::new();
    let mut open = Vec::new();
    let mut sources = Vec::new();
    let mut members = Vec::new();
    for (rel, text) in files {
        let file = pkg_path(&format!("src/{rel}"));
        workspace.push(candidate(&file, sources.len()));
        sources.push(scanned(&file, text));
        members.push(member(&file, text));
    }
    for (rel, text) in open_docs {
        let file = pkg_path(rel);
        open.push(candidate(&file, sources.len()));
        sources.push(scanned(&file, text));
    }
    let new_name = renames
        .last()
        .map(|r| {
            let last = r.new_uri.rsplit('/').next().unwrap();
            last.strip_suffix(".jl").unwrap_or(last).to_string()
        })
        .unwrap_or_default();
    let packages = projects
        .into_iter()
        .map(|project| PackageInput {
            old_parse: name_parse(project.name.as_ref().map_or("", |n| n.value.as_str())),
            new_parse: name_parse(&new_name),
            project,
        })
        .collect();
    will_rename_files(&renames, &workspace, &open, &sources, &packages, &members, encoding)
        .unwrap_or_default()
}

type Changes = BTreeMap<String, Vec<(u32, u32, String)>>;

fn changes_of(edits: Vec<FileEdits>) -> Changes {
    edits
        .into_iter()
        .map(|file| {
            (
                shown(&file.path),
                file.edits
                    .into_iter()
                    .map(|e| (e.range.start.line, e.range.start.character, e.new_text))
                    .collect(),
            )
        })
        .collect()
}

fn edits(files: &[(&str, &str)], renames: &[FileRename]) -> Changes {
    changes_of(batch(files, Vec::new(), &[], renames, PositionEncoding::Utf16))
}

#[test]
fn rename_files_rewrites_the_includers_literal_when_the_included_file_moves() {
    let changes = edits(
        &[("MyPkg.jl", "include(\"a.jl\")\n"), ("a.jl", "x = 1\n")],
        &[moved("src/a.jl", "src/sub/a.jl")],
    );
    assert_eq!(
        changes,
        BTreeMap::from([(pkg_path("src/MyPkg.jl"), vec![(0, 9, "sub/a.jl".to_string())])])
    );
}

#[test]
fn edits_address_the_files_old_uri() {
    let changes = edits(
        &[("a.jl", "include(\"b.jl\")\n"), ("b.jl", "x = 1\n")],
        &[moved("src/a.jl", "src/sub/a.jl")],
    );
    assert!(changes.contains_key(&pkg_path("src/a.jl")));
    assert!(!changes.contains_key(&pkg_path("src/sub/a.jl")));
}

#[test]
fn rename_files_rebases_a_moved_files_own_relative_includes() {
    let changes = edits(
        &[("a.jl", "include(\"b.jl\")\n"), ("b.jl", "x = 1\n")],
        &[moved("src/a.jl", "src/sub/a.jl")],
    );
    assert_eq!(
        changes,
        BTreeMap::from([(pkg_path("src/a.jl"), vec![(0, 9, "../b.jl".to_string())])])
    );
}

#[test]
fn a_folder_rename_that_moves_both_ends_produces_no_edit() {
    let changes = edits(
        &[("sub/a.jl", "include(\"b.jl\")\n"), ("sub/b.jl", "x = 1\n")],
        &[moved("src/sub", "src/nested")],
    );
    assert!(changes.is_empty(), "got {changes:?}");
}

#[test]
fn two_identical_literals_in_one_file_each_get_their_own_edit() {
    let changes = edits(
        &[("MyPkg.jl", "include(\"a.jl\")\ninclude(\"a.jl\")\n"), ("a.jl", "x = 1\n")],
        &[moved("src/a.jl", "src/sub/a.jl")],
    );
    assert_eq!(
        changes[&pkg_path("src/MyPkg.jl")],
        vec![(0, 9, "sub/a.jl".to_string()), (1, 9, "sub/a.jl".to_string())]
    );
}

#[test]
fn an_include_spelled_with_dot_dot_is_matched_after_normalization() {
    let changes = edits(
        &[("sub/a.jl", "include(\"../b.jl\")\n"), ("b.jl", "x = 1\n")],
        &[moved("src/b.jl", "src/c.jl")],
    );
    assert_eq!(
        changes[&pkg_path("src/sub/a.jl")],
        vec![(0, 9, "../c.jl".to_string())]
    );
}

#[test]
fn one_batch_rewrites_several_files() {
    let changes = edits(
        &[
            ("MyPkg.jl", "include(\"a.jl\")\ninclude(\"b.jl\")\n"),
            ("a.jl", "x = 1\n"),
            ("b.jl", "y = 2\n"),
        ],
        &[moved("src/a.jl", "src/sub/a.jl"), moved("src/b.jl", "src/sub/b.jl")],
    );
    assert_eq!(
        changes[&pkg_path("src/MyPkg.jl")],
        vec![(0, 9, "sub/a.jl".to_string()), (1, 9, "sub/b.jl".to_string())]
    );
}

#[test]
fn renaming_the_package_entry_file_still_rebases_its_own_includes() {
    let changes = edits(
        &[("MyPkg.jl", "include(\"a.jl\")\n"), ("a.jl", "x = 1\n")],
        &[moved("src/MyPkg.jl", "src/deep/MyPkg.jl")],
    );
    assert_eq!(
        changes[&pkg_path("src/MyPkg.jl")],
        vec![(0, 9, "../a.jl".to_string())]
    );
}

fn apply_file_edit(
    edits: &[FileEdits],
    file: &str,
    text: &str,
    encoding: PositionEncoding,
) -> String {
    let found = edits.iter().find(|e| shown(&e.path) == file).expect("edits of the file");
    let index = LineIndex::new(text);
    let mut spans: Vec<_> = found
        .edits
        .iter()
        .map(|edit| {
            (
                index.position_to_byte(edit.range.start, encoding),
                index.position_to_byte(edit.range.end, encoding),
                &edit.new_text,
            )
        })
        .collect();
    spans.sort_by_key(|&(start, ..)| start);
    for pair in spans.windows(2) {
        assert!(pair[0].1 <= pair[1].0, "overlapping edits: {spans:?}");
    }
    let mut result = text.to_string();
    for (start, end, replacement) in spans.into_iter().rev() {
        result.replace_range(start..end, replacement);
    }
    result
}

#[test]
fn entry_rename_updates_the_live_project_name_and_module() {
    let source = "\"Package documentation.\"\nmodule MyPkg\ninclude(\"a.jl\")\nend\n";
    let text = "# Unsaved project edits.\r\n\
        name = 'MyPkg' # Package name. 🐈\r\n\
        uuid = \"00000000-0000-0000-0000-000000000001\"\r\n\
        [deps]\r\n\
        Other = \"00000000-0000-0000-0000-000000000002\"\r\n";
    for project_name in ["Project.toml", "JuliaProject.toml"] {
        for encoding in [PositionEncoding::Utf8, PositionEncoding::Utf16] {
            let project_path = pkg_path(project_name);
            let edit = batch(
                &[("MyPkg.jl", source)],
                vec![project(&project_path, text)],
                &[],
                &[moved("src/MyPkg.jl", "src/NewPkg.jl")],
                encoding,
            );
            assert_eq!(edit.len(), 2);
            assert_eq!(
                apply_file_edit(&edit, &project_path, text, encoding),
                text.replace("'MyPkg'", "\"NewPkg\"")
            );
            assert_eq!(
                apply_file_edit(&edit, &pkg_path("src/MyPkg.jl"), source, encoding),
                source.replace("module MyPkg", "module NewPkg")
            );
        }
    }
}

const PROJECT: &str = "name = \"MyPkg\"\nuuid = \"00000000-0000-0000-0000-000000000001\"\n";

#[test]
fn entry_rename_in_a_folder_batch_edits_the_old_project_uri() {
    let changes = changes_of(batch(
        &[("MyPkg.jl", "module MyPkg\nend\n")],
        vec![project(&pkg_path("Project.toml"), PROJECT)],
        &[],
        &[moved("", "../MovedPkg"), moved("src/MyPkg.jl", "../MovedPkg/src/NewPkg.jl")],
        PositionEncoding::Utf16,
    ));
    assert_eq!(changes[&pkg_path("Project.toml")], vec![(0, 7, "\"NewPkg\"".to_string())]);
    assert_eq!(changes[&pkg_path("src/MyPkg.jl")], vec![(0, 7, "NewPkg".to_string())]);
}

#[test]
fn entry_moves_that_cannot_be_repaired_by_a_name_change_leave_metadata_alone() {
    for (old, new) in [
        ("src/MyPkg.jl", "src/deep/NewPkg.jl"),
        ("src/MyPkg.jl", "../Other/src/NewPkg.jl"),
        ("src/MyPkg.jl", "src/NewPkg.txt"),
        ("src/MyPkg.jl", "src/123.jl"),
        ("src/MyPkg.jl", "src/end.jl"),
        ("src/MyPkg.jl", "src/A-B.jl"),
        ("src/MyPkg.jl", "src/__.jl"),
        ("src/other.jl", "src/NewPkg.jl"),
        ("", "../MovedPkg"),
        ("src", "source"),
    ] {
        let changes = changes_of(batch(
            &[("MyPkg.jl", "module MyPkg\nend\n")],
            vec![project(&pkg_path("Project.toml"), PROJECT)],
            &[],
            &[moved(old, new)],
            PositionEncoding::Utf16,
        ));
        assert!(changes.is_empty(), "{old} -> {new}: {changes:?}");
    }
}

#[test]
fn entry_rename_requires_a_registered_named_project() {
    let rename = [moved("src/MyPkg.jl", "src/NewPkg.jl")];
    let files = [("MyPkg.jl", "module MyPkg\nend\n")];
    // A project file that no package of the workspace is known by.
    assert!(batch(&files, Vec::new(), &[], &rename, PositionEncoding::Utf16).is_empty());
    for text in [
        "name = \"MyPkg\"\n",
        "uuid = \"00000000-0000-0000-0000-000000000001\"\n",
        "name = \"MyPkg\"\nuuid = ",
        "name = 42\nuuid = \"00000000-0000-0000-0000-000000000001\"\n",
        "name = \"AlreadyRenamed\"\nuuid = \"00000000-0000-0000-0000-000000000001\"\n",
    ] {
        let held = project(&pkg_path("Project.toml"), text);
        let found = batch(&files, vec![held], &[], &rename, PositionEncoding::Utf16);
        assert!(found.is_empty(), "{text}");
    }
}

#[test]
fn entry_rename_handles_unicode_names_and_multiline_toml_strings() {
    let source = "baremodule 𝒫kg\nmodule 𝒫kg end\nend\n";
    let text =
        "name = \"\"\"\n𝒫kg\"\"\" # Keep.\nuuid = \"00000000-0000-0000-0000-000000000001\"\n";
    let project_path = pkg_path("JuliaProject.toml");
    let rename = FileRename {
        old_uri: "file:///work/MyPkg/src/%F0%9D%92%ABkg.jl".to_string(),
        new_uri: "file:///work/MyPkg/src/%CE%94Pkg.jl".to_string(),
    };
    for encoding in [PositionEncoding::Utf8, PositionEncoding::Utf16] {
        let packages = vec![PackageInput {
            project: project(&project_path, text),
            old_parse: name_parse("𝒫kg"),
            new_parse: name_parse("ΔPkg"),
        }];
        let file = pkg_path("src/𝒫kg.jl");
        let renames = vec![FileRename {
            old_uri: rename.old_uri.clone(),
            new_uri: rename.new_uri.clone(),
        }];
        let edit = will_rename_files(
            &renames,
            &vec![candidate(&file, 0)],
            &Vec::new(),
            &vec![scanned(&file, source)],
            &packages,
            &vec![member(&file, source)],
            encoding,
        )
        .expect("a Unicode package entry rename");
        assert_eq!(
            apply_file_edit(&edit, &project_path, text, encoding),
            text.replace("\"\"\"\n𝒫kg\"\"\"", "\"ΔPkg\"")
        );
        assert_eq!(
            apply_file_edit(&edit, &file, source, encoding),
            "baremodule ΔPkg\nmodule 𝒫kg end\nend\n"
        );
    }
}

#[test]
fn a_rename_outside_the_workspace_yields_no_edit() {
    let changes = edits(
        &[("MyPkg.jl", "include(\"a.jl\")\n"), ("a.jl", "x = 1\n")],
        &[rename("/elsewhere/z.jl", "/elsewhere/y.jl")],
    );
    assert!(changes.is_empty(), "got {changes:?}");
}

#[test]
fn an_open_non_member_buffer_is_scanned_too() {
    let changes = changes_of(batch(
        &[("a.jl", "x = 1\n")],
        Vec::new(),
        &[("test/runtests.jl", "include(\"../src/a.jl\")\n")],
        &[moved("src/a.jl", "src/sub/a.jl")],
        PositionEncoding::Utf16,
    ));
    assert_eq!(
        changes[&pkg_path("test/runtests.jl")],
        vec![(0, 9, "../src/sub/a.jl".to_string())]
    );
}

#[test]
fn a_file_is_scanned_once() {
    let candidate = |file: Option<usize>, text: Option<&str>| ScanCandidate {
        file,
        path: text.map(path),
    };
    let members = vec![candidate(Some(0), Some("/work/a.jl")), candidate(Some(1), None)];
    let open = vec![
        candidate(Some(0), Some("/work/a.jl")),
        candidate(None, Some("/work/new.jl")),
        candidate(Some(7), Some("/work/open.jl")),
    ];
    let scan: Vec<(usize, String)> =
        scan_set(&members, &open).into_iter().map(|e| (e.file, shown(&e.path))).collect();
    assert_eq!(scan, vec![(0, "/work/a.jl".to_string()), (7, "/work/open.jl".to_string())]);
}

#[test]
fn only_packages_whose_entry_moves_are_renamed() {
    let packages = vec![
        PackagePath { name: "MyPkg".to_string(), project: Some(path("/work/MyPkg/Project.toml")) },
        PackagePath { name: "Other".to_string(), project: Some(path("/work/Other/Project.toml")) },
        PackagePath { name: "Bare".to_string(), project: None },
    ];
    let renames = vec![moved("src/MyPkg.jl", "src/NewPkg.jl")];
    let found: Vec<String> =
        renamed_package_projects(&packages, &renames).iter().map(shown).collect();
    assert_eq!(found, vec!["/work/MyPkg/Project.toml".to_string()]);
}

#[test]
fn a_package_name_is_one_plain_name() {
    assert!(is_package_name("NewPkg", &name_parse("NewPkg")));
    assert!(!is_package_name("__", &name_parse("__")));
    assert!(!is_package_name("end", &name_parse("end")));
    assert!(!is_package_name("A-B", &name_parse("A-B")));
}

#[test]
fn a_target_on_another_drive_falls_back_to_an_absolute_literal() {
    let map = RenameMap::from_files(&vec![FileRename {
        old_uri: "file:///C:/work/src/a.jl".to_string(),
        new_uri: "file:///D:/elsewhere/a.jl".to_string(),
    }])
    .expect("a rename map");
    let dir = path("C:\\work\\src");
    let edit = rewritten_literal("a.jl", &dir, &dir, &map);
    assert_eq!(edit.as_deref(), Some("D:/elsewhere/a.jl"));
    let edit = rewritten_literal("./a.jl", &dir, &dir, &map);
    assert_eq!(edit.as_deref(), Some("D:/elsewhere/a.jl"));
    let edit = rewritten_literal("c:\\work\\src\\a.jl", &dir, &dir, &map);
    assert_eq!(edit.as_deref(), Some("D:/elsewhere/a.jl"));
    assert_eq!(rewritten_literal("b.jl", &dir, &dir, &map), None);
}

#[test]
fn a_move_on_one_drive_stays_relative() {
    let map = RenameMap::from_files(&vec![FileRename {
        old_uri: "file:///c%3A/work/src/a.jl".to_string(),
        new_uri: "file:///c%3A/work/lib/a.jl".to_string(),
    }])
    .expect("a rename map");
    let dir = path("C:\\work\\src");
    let edit = |text: &str| rewritten_literal(text, &dir, &dir, &map);
    assert_eq!(edit("a.jl").as_deref(), Some("../lib/a.jl"));
    assert_eq!(edit("..\\src\\a.jl").as_deref(), Some("../lib/a.jl"));
    assert_eq!(edit("/work/src/a.jl").as_deref(), Some("../lib/a.jl"));
    assert_eq!(edit("C:/work/src/a.jl").as_deref(), Some("C:/work/lib/a.jl"));
}

#[test]
fn a_target_that_becomes_the_directory_is_spelled_from_the_root() {
    // The includer moves into the folder that its literal names.
    let rewritten = |literal: &str| {
        rewrite(literal, "/work/src/main.jl", vec![rename("/work/src/main.jl", "/work/lib/main.jl")])
    };
    assert_eq!(rewritten("./../lib").as_deref(), Some("/work/lib"));
    assert_eq!(rewritten("../lib").as_deref(), Some("/work/lib"));
    assert_eq!(rewritten("./a.jl").as_deref(), Some("../src/a.jl"));
}
