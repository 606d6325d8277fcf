//! Project files: navigation, hints, and edits of compat bounds.

use fatou_lsp::code_action::{CodeAction, CodeActionKind};
use fatou_lsp::definition::DiskFile;
use fatou_lsp::document_link::DocumentLink;
use fatou_lsp::index::{DefLocation, Library, ModuleIndex, PackageIndex, PackageRoot, Span};
use fatou_lsp::paths::{absolute_spelling, FilePath};
use fatou_lsp::project_code_action::{self, LatestRelease, PartMinimum, ProjectActions};
use fatou_lsp::project_navigation::{
    manifest_document_links, manifest_roots, project_definition, project_document_links,
    project_hover, project_inlay_hints, DepEntry, InlayHint, ManifestPath, PackageKind,
    PackageMeta, ProjectLibrary, ProjectRoot, Tooltip,
};
use fatou_lsp::project_updates::{
    actions_from_updates, dependency_updates, hints_from_updates, targets, CompatEntry, CompatSpec,
    Judged, PackageReleases, ProjectTables, ProjectUpdates, UuidEntry, Version,
};
use fatou_lsp::references::Location;
use fatou_lsp::text::{LineIndex, Position, PositionEncoding, Range, TextRange};

const UTF16: PositionEncoding = PositionEncoding::Utf16;

fn at(line: u32, character: u32) -> Position {
    Position { line, character }
}

fn range(start: Position, end: Position) -> Range {
    Range { start, end }
}

fn path(text: &str) -> FilePath {
    FilePath::parse(text).expect("an absolute path")
}

fn shown(path: &FilePath) -> String {
    absolute_spelling(path).expect("a spelling")
}

// --- Tables of project files -----------------------------------------------------

struct Entry {
    table: String,
    name: String,
    name_range: TextRange,
    value: String,
    value_range: TextRange,
}

/// The entries of a project file, line by line; none where a line is broken.
fn entries(text: &str) -> Option<Vec<Entry>> {
    let mut out = Vec::new();
    let mut table = String::new();
    let mut offset = 0;
    for line in text.split_inclusive('\n') {
        let body = line.trim_end_matches(['\r', '\n']);
        if body.starts_with('[') {
            let inner = body.trim_start_matches('[');
            if !inner.ends_with(']') {
                return None;
            }
            table = inner.trim_end_matches(']').to_string();
        } else if let Some((key, rest)) = body.split_once(" = ") {
            let bare = key.trim_matches('"');
            let start = offset + key.find(bare).unwrap();
            let value_start = offset + key.len() + " = ".len();
            let quote = rest.chars().next().unwrap();
            let (value, length) = match quote {
                '"' | '\'' => {
                    let end = rest[1..].find(quote)? + 1;
                    (rest[1..end].to_string(), end + 1)
                }
                '{' => (String::new(), rest.len()),
                _ => return None,
            };
            out.push(Entry {
                table: table.clone(),
                name: bare.to_string(),
                name_range: TextRange {
                    start: start as u32,
                    end: (start + bare.len()) as u32,
                },
                value,
                value_range: TextRange {
                    start: value_start as u32,
                    end: (value_start + length) as u32,
                },
            });
        }
        offset += line.len();
    }
    Some(out)
}

fn is_dep_table(table: &str) -> bool {
    ["deps", "weakdeps", "extras"].contains(&table)
}

fn dep_entries(text: &str) -> Vec<DepEntry> {
    entries(text)
        .unwrap_or_default()
        .into_iter()
        .filter(|e| is_dep_table(&e.table))
        .map(|e| DepEntry { name: e.name, name_range: e.name_range, uuid_range: e.value_range })
        .collect()
}

fn uuid_of(text: &str) -> Option<u128> {
    let digits: String = text.chars().filter(|c| *c != '-').collect();
    if digits.len() != 32 {
        return None;
    }
    u128::from_str_radix(&digits, 16).ok()
}

fn tables(text: &str) -> Option<ProjectTables> {
    let entries = entries(text)?;
    let mut out = ProjectTables {
        compat: Vec::new(),
        sources: Vec::new(),
        deps: Vec::new(),
        weakdeps: Vec::new(),
        extras: Vec::new(),
    };
    for e in entries {
        let quoted = text[..e.name_range.start as usize].ends_with('"');
        let start = e.name_range.start - u32::from(quoted);
        if e.table == "compat" {
            out.compat.push(CompatEntry {
                name: e.name,
                start,
                bound: e.value,
                span: e.value_range,
            });
        } else if e.table == "sources" {
            out.sources.push(e.name);
        } else if is_dep_table(&e.table) {
            let entry = UuidEntry {
                name: e.name,
                span: TextRange { start, end: e.value_range.end },
                uuid: uuid_of(&e.value),
            };
            match e.table.as_str() {
                "deps" => out.deps.push(entry),
                "weakdeps" => out.weakdeps.push(entry),
                _ => out.extras.push(entry),
            }
        }
    }
    Some(out)
}

// --- Navigation ------------------------------------------------------------------

struct TestLib {
    library: Library,
    metas: Vec<PackageMeta>,
    files: Vec<DiskFile>,
}

impl TestLib {
    fn empty() -> TestLib {
        TestLib {
            library: Library { packages: Vec::new(), roots: Vec::new() },
            metas: Vec::new(),
            files: Vec::new(),
        }
    }

    fn project(&self) -> ProjectLibrary<'_> {
        ProjectLibrary { library: &self.library, metas: &self.metas }
    }

    fn with_meta(mut self, name: &str, version: Option<&str>, kind: PackageKind) -> TestLib {
        self.metas.push(PackageMeta {
            name: name.to_string(),
            version: version.map(|v| v.to_string()),
            kind,
        });
        self
    }
}

const ENTRY: &str = "/depot/Greetings/src/Greetings.jl";

fn greetings() -> TestLib {
    let mut lib = TestLib::empty();
    lib.library.packages.push(PackageIndex {
        name: "Greetings".to_string(),
        root: ModuleIndex {
            name: "Greetings".to_string(),
            functions: Vec::new(),
            types: Vec::new(),
            consts: Vec::new(),
            macros: Vec::new(),
            submodules: Vec::new(),
            loc: DefLocation {
                file: "src/Greetings.jl".to_string(),
                range: Span { start: 7, end: 16 },
            },
        },
    });
    lib.library
        .roots
        .push(PackageRoot { name: "Greetings".to_string(), path: path("/depot/Greetings") });
    lib.files.push(DiskFile {
        path: path(ENTRY),
        uri: format!("file://{ENTRY}"),
        text: "module Greetings\ngreet(name) = name\nend\n".to_string(),
    });
    lib
}

const PROJECT: &str = "\
name = \"Demo\"

[deps]
Greetings = \"1520ce14-60c1-5f80-bbc7-55ef81b5835c\"
";

fn cursor(marked: &str) -> (String, Position) {
    let offset = marked.find('|').expect("a cursor marker");
    let text = marked.replacen('|', "", 1);
    let position = LineIndex::new(&text).byte_to_position(offset, UTF16);
    (text, position)
}

fn def_at(marked: &str, lib: &TestLib) -> Vec<Location> {
    let (text, position) = cursor(marked);
    project_definition(&text, position, &dep_entries(&text), &lib.library, &lib.files, UTF16)
}

#[test]
fn a_dependency_name_jumps_to_its_entry_file() {
    let marked = PROJECT.replace("Greetings =", "Greet|ings =");
    let locations = def_at(&marked, &greetings());
    assert_eq!(locations.len(), 1, "expected exactly one location, got {locations:?}");
    assert_eq!(locations[0].uri, format!("file://{ENTRY}"));
    // The `Greetings` of `module Greetings`, line 0, columns 7..16.
    assert_eq!(locations[0].range.start, at(0, 7));
    assert_eq!(locations[0].range.end, at(0, 16));
}

fn elsewhere() -> [String; 3] {
    [
        PROJECT.replace("name =", "na|me ="),
        PROJECT.replace("[deps]", "[de|ps]"),
        PROJECT.replace("\"1520ce14", "\"1520|ce14"),
    ]
}

#[test]
fn nothing_else_in_the_file_jumps() {
    for marked in elsewhere() {
        assert!(def_at(&marked, &greetings()).is_empty(), "for {marked:?}");
    }
}

#[test]
fn an_unharvested_dependency_has_no_definition() {
    let marked = PROJECT.replace("Greetings =", "Greet|ings =");
    assert!(def_at(&marked, &TestLib::empty()).is_empty());
}

#[test]
fn a_broken_project_file_has_no_definition() {
    assert!(def_at("[deps\nGreet|ings = \"1520ce14\"\n", &greetings()).is_empty());
}

fn hover_at(marked: &str, lib: &TestLib) -> Option<String> {
    let (text, position) = cursor(marked);
    let hover = project_hover(&text, position, &dep_entries(&text), &lib.project(), UTF16)?;
    // The hover covers exactly the dependency name it reports on.
    assert_eq!(hover.range, range(at(3, 0), at(3, 9)));
    Some(hover.value)
}

#[test]
fn a_dependency_hover_reports_version_kind_and_path() {
    let lib = greetings().with_meta("Greetings", Some("0.4.5"), PackageKind::Registered);
    let marked = PROJECT.replace("Greetings =", "Greet|ings =");
    assert_eq!(
        hover_at(&marked, &lib),
        Some("**Greetings** v0.4.5\n\nRegistered package\n\n`/depot/Greetings`".to_string()),
    );
}

#[test]
fn a_path_on_a_drive_is_shown_with_its_own_separators() {
    let marked = PROJECT.replace("Greetings =", "Greet|ings =");
    for (root, display) in [
        ("C:/depot/Greetings", "C:\\depot\\Greetings"),
        ("\\\\server\\share\\Greetings", "\\\\server\\share\\Greetings"),
        ("/depot/Greetings", "/depot/Greetings"),
    ] {
        let mut lib = greetings();
        lib.library.roots[0].path = FilePath::parse(root).expect("an absolute path");
        assert_eq!(hover_at(&marked, &lib), Some(format!("**Greetings**\n\n`{display}`")));
    }
}

#[test]
fn an_unknown_version_or_path_is_simply_omitted() {
    let marked = PROJECT.replace("Greetings =", "Greet|ings =");
    let lib = TestLib::empty().with_meta("Greetings", None, PackageKind::Stdlib);
    assert_eq!(hover_at(&marked, &lib), Some("**Greetings**\n\nStandard library".to_string()));
    let lib = TestLib::empty().with_meta("Greetings", None, PackageKind::Dev);
    assert_eq!(
        hover_at(&marked, &lib),
        Some("**Greetings**\n\nDevelopment dependency".to_string()),
    );
}

#[test]
fn a_dependency_nothing_is_known_about_has_no_hover() {
    let marked = PROJECT.replace("Greetings =", "Greet|ings =");
    assert_eq!(hover_at(&marked, &TestLib::empty()), None);
}

#[test]
fn nothing_else_in_the_file_hovers() {
    let lib = greetings().with_meta("Greetings", Some("0.4.5"), PackageKind::Registered);
    for marked in elsewhere() {
        assert!(hover_at(&marked, &lib).is_none(), "for {marked:?}");
    }
}

fn described(links: Vec<DocumentLink>) -> Vec<(Range, String)> {
    links.into_iter().map(|link| (link.range, shown(&link.target))).collect()
}

fn project_links(text: &str, lib: &TestLib) -> Vec<(Range, String)> {
    described(project_document_links(text, &dep_entries(text), &lib.library, UTF16))
}

#[test]
fn every_located_dependency_becomes_a_link() {
    let text =
        format!("{PROJECT}\n[extras]\nGreetings = \"1520ce14-60c1-5f80-bbc7-55ef81b5835c\"\n");
    assert_eq!(
        project_links(&text, &greetings()),
        vec![
            (range(at(3, 0), at(3, 9)), ENTRY.to_string()),
            (range(at(6, 0), at(6, 9)), ENTRY.to_string()),
        ],
    );
}

#[test]
fn an_unlocated_dependency_has_no_link() {
    assert!(project_links(PROJECT, &TestLib::empty()).is_empty());
}

#[test]
fn a_broken_project_file_has_no_links() {
    assert!(project_links("[deps\nGreetings = \"1520ce14\"\n", &greetings()).is_empty());
}

/// The `path` entries of a manifest; none where a line is broken.
fn manifest_paths(text: &str) -> Vec<ManifestPath> {
    entries(text)
        .unwrap_or_default()
        .into_iter()
        .filter(|e| e.name == "path")
        .map(|e| ManifestPath {
            path: e.value,
            range: TextRange { start: e.value_range.start + 1, end: e.value_range.end - 1 },
        })
        .collect()
}

fn manifest_links(text: &str, file: Option<&str>, projects: Vec<ProjectRoot>) -> Vec<(Range, String)> {
    let base = file.and_then(|f| path(f).parent());
    described(manifest_document_links(text, &manifest_paths(text), base.as_ref(), &projects, UTF16))
}

#[test]
fn every_manifest_path_links_to_the_package_it_pins() {
    let text = "manifest_format = \"2.0\"\n\n\
        [[deps.Greetings]]\npath = \"Greetings\"\n\n\
        [[deps.Bare]]\npath = \"/work/Bare\"\n\n\
        [[deps.AbstractTrees]]\ngit-tree-sha1 = \"deadbeef\"\n";
    let found = ProjectRoot {
        root: path("/work/Greetings"),
        file: path("/work/Greetings/JuliaProject.toml"),
    };
    assert_eq!(
        manifest_links(text, Some("/work/Manifest.toml"), vec![found]),
        vec![
            (range(at(3, 8), at(3, 17)), "/work/Greetings/JuliaProject.toml".to_string()),
            (range(at(6, 8), at(6, 18)), "/work/Bare".to_string()),
        ],
    );
    let base = path("/work");
    let roots: Vec<String> =
        manifest_roots(&manifest_paths(text), Some(&base)).iter().map(shown).collect();
    assert_eq!(roots, ["/work/Greetings", "/work/Bare"]);
}

#[test]
fn a_relative_manifest_path_normalizes_against_the_manifest() {
    let text = "[[deps.Greetings]]\npath = \"../Greetings\"\n";
    assert_eq!(
        manifest_links(text, Some("/work/MyPkg/Manifest.toml"), Vec::new()),
        vec![(range(at(1, 8), at(1, 20)), "/work/Greetings".to_string())],
        "the link names `/work/Greetings`, not `/work/MyPkg/../Greetings`"
    );
}

#[test]
fn a_manifest_with_nothing_to_anchor_to_has_no_links() {
    let text = "[[deps.Greetings]]\npath = \"../Greetings\"\n";
    assert!(manifest_links(text, None, Vec::new()).is_empty());
    let empty = "[[deps.Greetings]]\npath = \"\"\n";
    assert!(manifest_links(empty, Some("/work/Manifest.toml"), Vec::new()).is_empty());
}

#[test]
fn a_broken_manifest_has_no_links() {
    let text = "[[deps.Greetings\npath = \"../Greetings\"\n";
    assert!(manifest_links(text, Some("/work/Manifest.toml"), Vec::new()).is_empty());
}

const WHOLE_FILE: Range = Range {
    start: Position { line: 0, character: 0 },
    end: Position { line: u32::MAX, character: 0 },
};

fn two_deps() -> String {
    format!("{PROJECT}Silent = \"682c06a0-de6a-54ab-a142-c8b1cf79cde6\"\n")
}

fn hints(text: &str, viewport: Range, lib: &TestLib) -> Vec<InlayHint> {
    project_inlay_hints(text, viewport, &dep_entries(text), &lib.project(), UTF16)
}

#[test]
fn each_resolved_dependency_shows_its_version() {
    let text = two_deps();
    let lib = TestLib::empty()
        .with_meta("Greetings", Some("0.4.5"), PackageKind::Registered)
        .with_meta("Silent", None, PackageKind::Registered);
    let hints = hints(&text, WHOLE_FILE, &lib);
    assert_eq!(hints.len(), 1, "expected exactly one hint, got {hints:?}");
    assert_eq!(hints[0].label, "v0.4.5");
    let deps_line = text.lines().nth(3).expect("the Greetings line");
    assert_eq!(hints[0].position, at(3, deps_line.len() as u32));
    // The hint itself hovers, with the rest of what hover would say.
    assert!(matches!(
        &hints[0].tooltip,
        Some(Tooltip::Markdown(value)) if value.contains("Registered package"),
    ));
}

#[test]
fn hints_outside_the_viewport_are_dropped() {
    let text = two_deps();
    let lib = TestLib::empty()
        .with_meta("Greetings", Some("0.4.5"), PackageKind::Registered)
        .with_meta("Silent", Some("0.21.4"), PackageKind::Registered);
    // Only the second dependency's line.
    let labels: Vec<String> = hints(&text, range(at(4, 0), at(5, 0)), &lib)
        .into_iter()
        .map(|hint| hint.label)
        .collect();
    assert_eq!(labels, ["v0.21.4"]);
}

#[test]
fn a_broken_project_file_has_no_hints() {
    let lib = greetings().with_meta("Greetings", Some("0.4.5"), PackageKind::Registered);
    assert!(hints("[deps\nGreetings = \"1520ce14\"\n", WHOLE_FILE, &lib).is_empty());
}

// --- Updates of bounds -----------------------------------------------------------

const UUID: &str = "12345678-1234-1234-1234-123456789abc";
const PROJECT_URI: &str = "file:///tmp/Project.toml";

fn version(text: &str) -> Version {
    let parts: Vec<u64> = text.split('.').map(|p| p.parse().unwrap()).collect();
    Version { major: parts[0], minor: parts[1], patch: parts[2] }
}

fn releases(name: &str, versions: &[&str]) -> Vec<PackageReleases> {
    vec![PackageReleases {
        uuid: uuid_of(UUID).unwrap(),
        name: name.to_string(),
        versions: versions.iter().map(|v| version(v)).collect(),
    }]
}

/// A bound, with what it says of versions: whether it allows one, and the bound
/// that would name it.
fn spec(bound: &str, judged: &[(&str, bool, Option<&str>)]) -> CompatSpec {
    CompatSpec {
        bound: bound.to_string(),
        judged: judged
            .iter()
            .map(|(v, contained, replacement)| Judged {
                version: version(v),
                contained: *contained,
                replacement: replacement.map(|r| r.to_string()),
            })
            .collect(),
    }
}

fn edited(actions: &[CodeAction]) -> Vec<(String, String)> {
    actions
        .iter()
        .map(|action| {
            assert_eq!(action.kind, CodeActionKind::RefactorRewrite);
            assert_eq!(action.uri, PROJECT_URI);
            (action.title.clone(), action.edit.new_text.clone())
        })
        .collect()
}

#[test]
fn actions_and_hints_share_range_aware_version_selection() {
    let registry = releases("Example", &["0.2.9", "1.9.3", "2.3.4"]);
    let whole = range(at(0, 0), at(100, 0));
    let judged = |old: (bool, Option<&'static str>),
                  mid: (bool, Option<&'static str>),
                  new: (bool, Option<&'static str>)| {
        [("0.2.9", old.0, old.1), ("1.9.3", mid.0, mid.1), ("2.3.4", new.0, new.1)]
    };
    let cases: Vec<(&str, [(&str, bool, Option<&str>); 3], Vec<(&str, &str)>, &str)> = vec![
        (
            "1.2",
            judged((false, Some("0.2")), (true, Some("1.9")), (false, Some("2.3"))),
            vec![("Update", "1.9"), ("Upgrade", "2.3")],
            "v1.9.3 → v2.3.4",
        ),
        (
            "1",
            judged((false, Some("0.2")), (true, Some("1")), (false, Some("2"))),
            vec![("Upgrade", "2")],
            "v1.9.3 → v2.3.4",
        ),
        (
            "2",
            judged((false, Some("0.2")), (false, Some("1")), (true, Some("2"))),
            vec![],
            "v2.3.4",
        ),
        (
            "~1.2",
            judged((false, Some("~0.2")), (false, Some("~1.9")), (false, Some("~2.3"))),
            vec![("Upgrade", "~2.3")],
            "no matching release → v2.3.4",
        ),
        (
            "0.2, 1",
            judged((true, Some("0.2, 1")), (true, Some("0.2, 1")), (false, Some("0.2, 1, 2"))),
            vec![("Upgrade", "0.2, 1, 2")],
            "v1.9.3 → v2.3.4",
        ),
        (
            "0.2, 2.4",
            judged((true, None), (false, None), (false, None)),
            vec![],
            "v0.2.9",
        ),
        (">= 1.2", judged((false, None), (true, None), (true, None)), vec![], "v2.3.4"),
    ];
    for (bound, judgements, expected_edits, label) in cases {
        let text =
            format!("[deps]\nExample = \"{UUID}\"\n[compat]\nExample = \"{bound}\"\n");
        let index = LineIndex::new(&text);
        let found = targets(&index, &tables(&text), whole, UTF16);
        let specs = vec![spec(bound, &judgements)];
        let infos = dependency_updates(&index, &found, &registry, &specs, UTF16);
        let expected: Vec<_> = expected_edits
            .iter()
            .map(|(kind, bound)| {
                (format!("{kind} `Example` compat to \"{bound}\""), format!("\"{bound}\""))
            })
            .collect();
        assert_eq!(edited(&actions_from_updates(&infos, PROJECT_URI)), expected, "{bound}");
        let hints = hints_from_updates(&infos, whole);
        assert_eq!(hints.len(), 1, "{bound}");
        assert_eq!(hints[0].label, label, "{bound}");
        assert_eq!(hints[0].position, at(3, 12 + bound.len() as u32));
        // The UUID line selects an action, but does not repeat the compat hint.
        assert!(hints_from_updates(&infos, range(at(1, 0), at(2, 0))).is_empty());
    }
}

/// Project files whose bounds have nothing to be updated to.
fn withheld() -> Vec<String> {
    vec![
        format!("[deps]\nExample = \"{UUID}\"\n"),
        "[compat]\nExample = \"1\"\n".to_string(),
        "[deps]\nExample = \"bad uuid\"\n[compat]\nExample = \"1\"\n".to_string(),
        "[deps]\nExample = [".to_string(),
        format!("[deps]\nExample = \"{UUID}\"\n[compat]\nExample = \"garbage\"\n"),
        format!("[deps]\nExample = \"{UUID}\"\n[compat]\nExample = \"2.3.4\"\n"),
        format!("[deps]\nExample = \"{UUID}\"\n[compat]\nExample = \"1, 3\"\n"),
        format!(
            "[deps]\nExample = \"{UUID}\"\n[compat]\nExample = \"1\"\n[sources]\nExample = {{path = \"../Example\"}}\n"
        ),
    ]
}

fn update_actions(
    text: &str,
    cursor: Range,
    encoding: PositionEncoding,
    registry: &Vec<PackageReleases>,
    specs: &Vec<CompatSpec>,
) -> Vec<CodeAction> {
    let index = LineIndex::new(text);
    let updates = ProjectUpdates::new(vec![path("/depot")]);
    let found = targets(&index, &tables(text), cursor, encoding);
    let requested = updates.requested(&found);
    assert_eq!(requested.len(), found.len());
    updates.code_actions(&index, &found, PROJECT_URI, registry, specs, encoding)
}

#[test]
fn project_updates_withholds_updates_for_missing_invalid_current_or_newer_bounds() {
    let registry = releases("Example", &["2.3.4"]);
    // Every bound that can be read; `garbage` is not among them.
    let specs = vec![
        spec("1", &[("2.3.4", false, Some("2"))]),
        spec("2.3.4", &[("2.3.4", true, Some("2.3.4"))]),
        spec("1, 3", &[("2.3.4", false, None)]),
    ];
    for text in withheld() {
        let found = update_actions(&text, range(at(0, 0), at(100, 0)), UTF16, &registry, &specs);
        assert!(found.is_empty(), "{text}");
    }
}

#[test]
fn project_updates_updates_weakdeps_and_extras_using_negotiated_encoding() {
    let registry = releases("Δelta", &["2.3.4"]);
    let specs = vec![spec("1", &[("2.3.4", false, Some("2"))])];
    for table in ["weakdeps", "extras"] {
        let text = format!(
            "[{table}]\n\"Δelta\" = \"{UUID}\"\n[compat]\n\"Δelta\" = \"1\" # Comment.\n"
        );
        for (encoding, start) in [(PositionEncoding::Utf8, 11), (PositionEncoding::Utf16, 10)] {
            let cursor = range(at(3, start), at(3, start));
            let actions = update_actions(&text, cursor, encoding, &registry, &specs);
            assert_eq!(actions[0].edit.range, range(at(3, start), at(3, start + 3)));
        }
    }
}

fn crlf_project() -> String {
    format!("[deps]\r\nExample = \"{UUID}\"\r\n[compat]\r\nExample = '1.2' # Keep me.\r\n")
}

#[test]
fn project_updates_edits_only_the_live_compat_value_and_preserves_comments_and_crlf() {
    let text = crlf_project();
    let registry = releases("Example", &["2.3.4"]);
    let specs = vec![spec("1.2", &[("2.3.4", false, Some("2.3"))])];
    for line in [1, 3] {
        let cursor = range(at(line, 2), at(line, 2));
        let actions = update_actions(&text, cursor, UTF16, &registry, &specs);
        assert_eq!(actions.len(), 1);
        assert_eq!(actions[0].edit.range, range(at(3, 10), at(3, 15)));
        assert_eq!(actions[0].edit.new_text, "'2.3'");
    }
}

#[test]
fn a_package_under_another_name_is_not_updated() {
    let text = format!("[deps]\nExample = \"{UUID}\"\n[compat]\nExample = \"1\"\n");
    let specs = vec![spec("1", &[("2.3.4", false, Some("2"))])];
    let other = releases("Other", &["2.3.4"]);
    let whole = range(at(0, 0), at(100, 0));
    assert!(update_actions(&text, whole, UTF16, &other, &specs).is_empty());
    let none = releases("Example", &[]);
    assert!(update_actions(&text, whole, UTF16, &none, &specs).is_empty());
}

#[test]
fn hints_come_in_the_order_of_the_text() {
    let text = format!("[compat]\nExample = \"1\"\n[deps]\nExample = \"{UUID}\"\n");
    let index = LineIndex::new(&text);
    let whole = range(at(0, 0), at(100, 0));
    let found = targets(&index, &tables(&text), whole, UTF16);
    let registry = releases("Example", &["1.9.3"]);
    let specs = vec![spec("1", &[("1.9.3", true, Some("1"))])];
    let resolved = vec![InlayHint {
        position: at(3, 48),
        label: "v1.0.0".to_string(),
        tooltip: None,
    }];
    let labels: Vec<String> = ProjectUpdates::new(Vec::new())
        .inlay_hints(&index, &found, whole, resolved, &registry, &specs, UTF16)
        .into_iter()
        .map(|hint| hint.label)
        .collect();
    assert_eq!(labels, ["v1.9.3", "v1.0.0"]);
}

// --- Replacing bounds by the latest release --------------------------------------

fn latest(name: &str) -> Vec<LatestRelease> {
    vec![LatestRelease {
        uuid: uuid_of(UUID).unwrap(),
        name: name.to_string(),
        version: version("2.3.4"),
    }]
}

/// The least versions of the parts that can be read.
fn minima() -> Vec<PartMinimum> {
    [("1", "1.0.0"), ("1.2", "1.2.0"), ("2.3.4", "2.3.4"), (" 3", "3.0.0")]
        .iter()
        .map(|(part, min)| PartMinimum { part: part.to_string(), min: version(min) })
        .collect()
}

fn replacements(
    text: &str,
    cursor: Range,
    encoding: PositionEncoding,
    latest: &Vec<LatestRelease>,
) -> Vec<CodeAction> {
    let index = LineIndex::new(text);
    let found = targets(&index, &tables(text), cursor, encoding);
    project_code_action::actions_for(&index, &found, PROJECT_URI, latest, &minima(), encoding)
}

#[test]
fn project_code_action_withholds_updates_for_missing_invalid_current_or_newer_bounds() {
    for text in withheld() {
        let found = replacements(&text, range(at(0, 0), at(100, 0)), UTF16, &latest("Example"));
        assert!(found.is_empty(), "{text}");
    }
}

#[test]
fn project_code_action_updates_weakdeps_and_extras_using_negotiated_encoding() {
    for table in ["weakdeps", "extras"] {
        let text = format!(
            "[{table}]\n\"Δelta\" = \"{UUID}\"\n[compat]\n\"Δelta\" = \"1\" # Comment.\n"
        );
        for (encoding, start) in [(PositionEncoding::Utf8, 11), (PositionEncoding::Utf16, 10)] {
            let cursor = range(at(3, start), at(3, start));
            let actions = replacements(&text, cursor, encoding, &latest("Δelta"));
            assert_eq!(actions[0].edit.range, range(at(3, start), at(3, start + 3)));
        }
    }
}

#[test]
fn project_code_action_edits_only_the_live_compat_value_and_preserves_comments_and_crlf() {
    let text = crlf_project();
    for line in [1, 3] {
        let cursor = range(at(line, 2), at(line, 2));
        let actions = replacements(&text, cursor, UTF16, &latest("Example"));
        assert_eq!(
            edited(&actions),
            vec![(
                "Replace `Example` compat with `2.3.4` (local registry)".to_string(),
                "\"2.3.4\"".to_string(),
            )]
        );
        assert_eq!(actions[0].edit.range, range(at(3, 10), at(3, 15)));
    }
    assert_eq!(ProjectActions::new(vec![path("/depot")]).depots.len(), 1);
}
