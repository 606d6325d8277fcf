//! The language features of a project file: each is about a dependency name, and
//! answers from what is known of the package of that name.

use vstd::prelude::*;

use crate::call_hierarchy::{places, to_range};
use crate::definition::{
    disk_location, site_in, site_locations, sites_in_order, DefSite, DefSiteView, DiskFile,
};
use crate::document_link::{path_view, DocumentLink, LinkView};
use crate::hover::Hover;
use crate::index::{
    find_named, first_named, lemma_first_named, lemma_nothing_named, name_index, nothing_named,
    package_of, root_of, Library, Named,
};
use crate::paths::{display, displayed, resolve_target, resolved, FilePath};
use crate::references::Location;
use crate::search::{
    first_index, kept, lemma_first_index, lemma_first_index_is, lemma_kept_holds, lemma_kept_step,
};
use crate::strings::cat;
use crate::text::{
    fits, offset_at, position_at, range_at, LineIndex, Position, PositionEncoding, Range,
    TextRange,
};

verus! {

/// A dependency of a project file: its name, and where the name and its UUID
/// stand.
#[derive(Debug)]
pub struct DepEntry {
    pub name: String,
    pub name_range: TextRange,
    pub uuid_range: TextRange,
}

/// How a dependency was pinned.
#[derive(Clone, Copy, Debug, PartialEq, Eq, Structural)]
pub enum PackageKind {
    Registered,
    Dev,
    Stdlib,
}

/// What the manifest says of a dependency.
#[derive(Debug)]
pub struct PackageMeta {
    pub name: String,
    pub version: Option<String>,
    pub kind: PackageKind,
}

impl Named for PackageMeta {
    open spec fn named(&self) -> Seq<char> {
        self.name@
    }

    fn name(&self) -> (r: &str) {
        self.name.as_str()
    }
}

/// What is known of the packages of a project: where their sources are, and what
/// the manifest says of them.
#[derive(Debug)]
pub struct ProjectLibrary<'a> {
    pub library: &'a Library,
    pub metas: &'a Vec<PackageMeta>,
}

/// What the manifest says of a package.
pub open spec fn meta_of(metas: Seq<PackageMeta>, name: Seq<char>) -> Option<PackageMeta> {
    let at = name_index(metas, name);
    if at < metas.len() {
        Some(metas[at])
    } else {
        None
    }
}

impl<'a> ProjectLibrary<'a> {
    /// What the manifest says of package `name`.
    pub fn package_meta(&self, name: &str) -> (r: Option<&'a PackageMeta>)
        ensures
            match r {
                Some(meta) => meta_of(self.metas@, name@) == Some(*meta),
                None => meta_of(self.metas@, name@) is None,
            },
    {
        let at = find_named(self.metas, name);
        if at < self.metas.len() {
            Some(&self.metas[at])
        } else {
            None
        }
    }
}

/// Where the sources of a package begin: its entry file, and the name of its
/// module in it. None where the sources are not known.
pub open spec fn entry_of(library: Library, name: Seq<char>) -> Option<DefSiteView> {
    match (root_of(library, name), package_of(library, name)) {
        (Some(root), Some(package)) => Some(site_in(root, package.root.loc)),
        _ => None,
    }
}

/// Where the sources of package `name` begin.
pub fn package_entry(packages: &Library, name: &str) -> (r: Option<DefSite>)
    ensures
        r.deep_view() == entry_of(*packages, name@),
{
    let root = match packages.package_root(name) {
        Some(root) => root,
        None => {
            return None;
        },
    };
    let package = match packages.package(name) {
        Some(package) => package,
        None => {
            return None;
        },
    };
    let loc = &package.root.loc;
    Some(DefSite { path: root.descend(loc.file.as_str()), span: loc.range })
}

/// That the name of a dependency touches an offset.
pub open spec fn dep_spans(offset: int) -> spec_fn(DepEntry) -> bool {
    |dep: DepEntry| dep.name_range.start <= offset <= dep.name_range.end
}

/// The dependency whose name `offset` touches, or the number of dependencies.
pub fn dep_at(deps: &Vec<DepEntry>, offset: usize) -> (r: usize)
    ensures
        r == first_index(deps@, dep_spans(offset as int)),
        r <= deps.len(),
{
    let ghost here = dep_spans(offset as int);
    let mut at: usize = 0;
    while at < deps.len() && !(deps[at].name_range.start as usize <= offset && offset
        <= deps[at].name_range.end as usize)
        invariant
            at <= deps.len(),
            here == dep_spans(offset as int),
            forall|k: int| 0 <= k < at ==> !here(#[trigger] deps@[k]),
        decreases deps.len() - at,
    {
        at = at + 1;
    }
    proof {
        lemma_first_index_is(deps@, here, at as int);
    }
    at
}

/// Where the package under the cursor begins, where there is one.
pub open spec fn entry_at(
    s: Seq<char>,
    position: Position,
    deps: Seq<DepEntry>,
    library: Library,
    encoding: PositionEncoding,
) -> Option<DefSiteView> {
    let at = first_index(deps, dep_spans(offset_at(s, position, encoding) as int));
    if at < deps.len() {
        entry_of(library, deps[at].name@)
    } else {
        None
    }
}

/// Where the package under the cursor is defined, given the files that could be
/// read. Any position but a dependency's name leads nowhere.
pub fn project_definition(
    text: &str,
    position: Position,
    deps: &Vec<DepEntry>,
    packages: &Library,
    files: &Vec<DiskFile>,
    encoding: PositionEncoding,
) -> (r: Vec<Location>)
    requires
        fits(text@),
        forall|i: int| 0 <= i < files.len() ==> fits((#[trigger] files@[i]).text@),
    ensures
        match entry_at(text@, position, deps@, *packages, encoding) {
            Some(site) => r.deep_view() == kept(
                sites_in_order(seq![site]),
                disk_location(files@, encoding),
            ),
            None => r.deep_view().len() == 0,
        },
{
    let line_index = LineIndex::new(text);
    let offset = line_index.position_to_byte(position, encoding);
    let at = dep_at(deps, offset);
    if at >= deps.len() {
        return Vec::new();
    }
    match package_entry(packages, deps[at].name.as_str()) {
        Some(site) => {
            let ghost view = site.deep_view();
            let sites: Vec<DefSite> = vec![site];
            proof {
                assert(sites.deep_view() =~= seq![view]);
            }
            site_locations(sites, files, encoding)
        },
        None => Vec::new(),
    }
}

/// What a kind of pinning is called.
pub open spec fn kind_text(kind: PackageKind) -> Seq<char> {
    match kind {
        PackageKind::Registered => "Registered package"@,
        PackageKind::Dev => "Development dependency"@,
        PackageKind::Stdlib => "Standard library"@,
    }
}

/// What is known of a dependency: its version, how it was pinned, and where its
/// sources are, each where it is known. None where nothing is.
pub open spec fn dep_text(
    library: Library,
    metas: Seq<PackageMeta>,
    name: Seq<char>,
) -> Option<Seq<char>> {
    let meta = meta_of(metas, name);
    let root = root_of(library, name);
    let version = match meta {
        Some(meta) => match meta.version {
            Some(version) => " v"@ + version@,
            None => Seq::empty(),
        },
        None => Seq::empty(),
    };
    let kind = match meta {
        Some(meta) => "\n\n"@ + kind_text(meta.kind),
        None => Seq::empty(),
    };
    let place = match root {
        Some(root) => "\n\n`"@ + displayed(root) + "`"@,
        None => Seq::empty(),
    };
    if meta is None && root is None {
        None
    } else {
        Some("**"@ + name + "**"@ + version + kind + place)
    }
}

/// What is known of the dependency `name`, as Markdown.
pub fn dep_markdown(name: &str, library: &ProjectLibrary) -> (r: Option<String>)
    ensures
        r.deep_view() == dep_text(*library.library, library.metas@, name@),
{
    let meta = library.package_meta(name);
    let root = library.library.package_root(name);
    if meta.is_none() && root.is_none() {
        return None;
    }
    let mut out = cat("**", name);
    out.append("**");
    if let Some(meta) = meta {
        if let Some(version) = &meta.version {
            out.append(" v");
            out.append(version.as_str());
        }
        out.append("\n\n");
        match meta.kind {
            PackageKind::Registered => out.append("Registered package"),
            PackageKind::Dev => out.append("Development dependency"),
            PackageKind::Stdlib => out.append("Standard library"),
        }
    }
    if let Some(root) = root {
        let path = display(root);
        out.append("\n\n`");
        out.append(path.as_str());
        out.append("`");
    }
    proof {
        assert(out@ =~= dep_text(*library.library, library.metas@, name@)->0);
    }
    Some(out)
}

/// Whether a hover says what is known of the dependency under the cursor, and is
/// about its name.
pub open spec fn is_dep_hover(
    hover: Option<Hover>,
    s: Seq<char>,
    position: Position,
    deps: Seq<DepEntry>,
    library: ProjectLibrary,
    encoding: PositionEncoding,
) -> bool {
    let at = first_index(deps, dep_spans(offset_at(s, position, encoding) as int));
    if at < deps.len() {
        match dep_text(*library.library, library.metas@, deps[at].name@) {
            Some(value) => hover is Some && hover->0.value@ == value && hover->0.range == places(
                s,
                deps[at].name_range,
                encoding,
            ),
            None => hover is None,
        }
    } else {
        hover is None
    }
}

/// What is known of the dependency under the cursor.
pub fn project_hover(
    text: &str,
    position: Position,
    deps: &Vec<DepEntry>,
    library: &ProjectLibrary,
    encoding: PositionEncoding,
) -> (r: Option<Hover>)
    requires
        fits(text@),
    ensures
        is_dep_hover(r, text@, position, deps@, *library, encoding),
{
    let line_index = LineIndex::new(text);
    let offset = line_index.position_to_byte(position, encoding);
    let at = dep_at(deps, offset);
    if at >= deps.len() {
        return None;
    }
    let dep = &deps[at];
    match dep_markdown(dep.name.as_str(), library) {
        Some(value) => Some(
            Hover { value, range: to_range(dep.name_range, &line_index, encoding) },
        ),
        None => None,
    }
}

/// The link of a dependency: from its name to its entry file.
pub open spec fn dep_link(
    s: Seq<char>,
    library: Library,
    encoding: PositionEncoding,
) -> spec_fn(DepEntry) -> Option<LinkView> {
    |dep: DepEntry|
        match entry_of(library, dep.name@) {
            Some(site) => Some(
                LinkView { range: places(s, dep.name_range, encoding), target: site.path },
            ),
            None => None,
        }
}

/// The links of a project file: every dependency whose sources are known leads to
/// its entry file.
pub fn project_document_links(
    text: &str,
    deps: &Vec<DepEntry>,
    packages: &Library,
    encoding: PositionEncoding,
) -> (r: Vec<DocumentLink>)
    requires
        fits(text@),
    ensures
        r.deep_view() == kept(deps@, dep_link(text@, *packages, encoding)),
{
    let line_index = LineIndex::new(text);
    let ghost pick = dep_link(text@, *packages, encoding);
    let mut out: Vec<DocumentLink> = Vec::new();
    let mut i: usize = 0;
    proof {
        assert(deps@.take(0) =~= Seq::<DepEntry>::empty());
        assert(out.deep_view() =~= Seq::<LinkView>::empty());
    }
    while i < deps.len()
        invariant
            line_index.wf(),
            line_index@ == text@,
            i <= deps.len(),
            pick == dep_link(text@, *packages, encoding),
            out.deep_view() == kept(deps@.take(i as int), pick),
        decreases deps.len() - i,
    {
        proof {
            lemma_kept_step(deps@, pick, i as int);
        }
        let dep = &deps[i];
        i = i + 1;
        if let Some(site) = package_entry(packages, dep.name.as_str()) {
            let ghost before = out.deep_view();
            out.push(
                DocumentLink {
                    range: to_range(dep.name_range, &line_index, encoding),
                    target: site.path,
                },
            );
            proof {
                assert(out.deep_view() =~= before.push(out@.last().deep_view()));
            }
        }
    }
    proof {
        assert(deps@.take(i as int) =~= deps@);
    }
    out
}

/// A dependency's name links to the file that its definition is in.
pub proof fn law_links_agree_with_definitions(
    s: Seq<char>,
    deps: Seq<DepEntry>,
    library: Library,
    position: Position,
    encoding: PositionEncoding,
)
    ensures
        ({
            let at = first_index(deps, dep_spans(offset_at(s, position, encoding) as int));
            at < deps.len() ==> match dep_link(s, library, encoding)(deps[at]) {
                Some(link) => entry_at(s, position, deps, library, encoding) is Some && link.target
                    == entry_at(s, position, deps, library, encoding)->0.path,
                None => entry_at(s, position, deps, library, encoding) is None,
            }
        }),
{
}

/// A `path` entry of a manifest.
#[derive(Debug)]
pub struct ManifestPath {
    pub path: String,
    pub range: TextRange,
}

/// The project file of a package root.
#[derive(Debug)]
pub struct ProjectRoot {
    pub root: FilePath,
    pub file: FilePath,
}

/// That a project file is that of a root.
pub open spec fn is_root(root: Seq<Seq<char>>) -> spec_fn(ProjectRoot) -> bool {
    |project: ProjectRoot| project.root.deep_view() == root
}

/// What identifies a root: its project file, or else the root itself.
pub open spec fn root_target(projects: Seq<ProjectRoot>, root: Seq<Seq<char>>) -> Seq<Seq<char>> {
    let at = first_index(projects, is_root(root));
    if at < projects.len() {
        projects[at].file.deep_view()
    } else {
        root
    }
}

/// The root that a `path` entry names, from the directory of the manifest.
pub open spec fn manifest_root(base: Option<Seq<Seq<char>>>) -> spec_fn(ManifestPath) -> Option<
    Seq<Seq<char>>,
> {
    |entry: ManifestPath|
        if base is Some && entry.path@.len() > 0 {
            resolved(entry.path@, base)
        } else {
            None
        }
}

/// The link of a `path` entry: from its text to the package that it pins.
pub open spec fn manifest_link(
    s: Seq<char>,
    base: Option<Seq<Seq<char>>>,
    projects: Seq<ProjectRoot>,
    encoding: PositionEncoding,
) -> spec_fn(ManifestPath) -> Option<LinkView> {
    |entry: ManifestPath|
        match manifest_root(base)(entry) {
            Some(root) => Some(
                LinkView {
                    range: places(s, entry.range, encoding),
                    target: root_target(projects, root),
                },
            ),
            None => None,
        }
}

fn root_of_entry(entry: &ManifestPath, base: Option<&FilePath>) -> (r: Option<FilePath>)
    ensures
        r.deep_view() == manifest_root(path_view(base))(*entry),
{
    if base.is_none() || entry.path.as_str().is_empty() {
        return None;
    }
    resolve_target(entry.path.as_str(), base)
}

/// The roots that the `path` entries of a manifest name: those whose project
/// files are to be looked for.
pub fn manifest_roots(entries: &Vec<ManifestPath>, base: Option<&FilePath>) -> (r: Vec<FilePath>)
    ensures
        r.deep_view() == kept(entries@, manifest_root(path_view(base))),
{
    let ghost pick = manifest_root(path_view(base));
    let mut out: Vec<FilePath> = Vec::new();
    let mut i: usize = 0;
    proof {
        assert(entries@.take(0) =~= Seq::<ManifestPath>::empty());
        assert(out.deep_view() =~= Seq::<Seq<Seq<char>>>::empty());
    }
    while i < entries.len()
        invariant
            i <= entries.len(),
            pick == manifest_root(path_view(base)),
            out.deep_view() == kept(entries@.take(i as int), pick),
        decreases entries.len() - i,
    {
        proof {
            lemma_kept_step(entries@, pick, i as int);
        }
        if let Some(root) = root_of_entry(&entries[i], base) {
            let ghost before = out.deep_view();
            out.push(root);
            proof {
                assert(out.deep_view() =~= before.push(out@.last().deep_view()));
            }
        }
        i = i + 1;
    }
    proof {
        assert(entries@.take(i as int) =~= entries@);
    }
    out
}

/// The links of a manifest: every `path` entry leads to the package that it pins,
/// given the project files that were found.
pub fn manifest_document_links(
    text: &str,
    entries: &Vec<ManifestPath>,
    base: Option<&FilePath>,
    projects: &Vec<ProjectRoot>,
    encoding: PositionEncoding,
) -> (r: Vec<DocumentLink>)
    requires
        fits(text@),
    ensures
        r.deep_view() == kept(
            entries@,
            manifest_link(text@, path_view(base), projects@, encoding),
        ),
{
    let line_index = LineIndex::new(text);
    let ghost pick = manifest_link(text@, path_view(base), projects@, encoding);
    let mut out: Vec<DocumentLink> = Vec::new();
    let mut i: usize = 0;
    proof {
        assert(entries@.take(0) =~= Seq::<ManifestPath>::empty());
        assert(out.deep_view() =~= Seq::<LinkView>::empty());
    }
    while i < entries.len()
        invariant
            line_index.wf(),
            line_index@ == text@,
            i <= entries.len(),
            pick == manifest_link(text@, path_view(base), projects@, encoding),
            out.deep_view() == kept(entries@.take(i as int), pick),
        decreases entries.len() - i,
    {
        proof {
            lemma_kept_step(entries@, pick, i as int);
        }
        let entry = &entries[i];
        i = i + 1;
        if let Some(root) = root_of_entry(entry, base) {
            let ghost here = is_root(root.deep_view());
            let mut at: usize = 0;
            while at < projects.len() && !projects[at].root.same(&root)
                invariant
                    at <= projects.len(),
                    here == is_root(root.deep_view()),
                    forall|k: int| 0 <= k < at ==> !here(#[trigger] projects@[k]),
                decreases projects.len() - at,
            {
                at = at + 1;
            }
            proof {
                lemma_first_index_is(projects@, here, at as int);
            }
            let target = if at < projects.len() {
                projects[at].file.copy()
            } else {
                root
            };
            let ghost before = out.deep_view();
            let range = to_range(entry.range, &line_index, encoding);
            out.push(DocumentLink { range, target });
            proof {
                assert(out.deep_view() =~= before.push(out@.last().deep_view()));
            }
        }
    }
    proof {
        assert(entries@.take(i as int) =~= entries@);
    }
    out
}

/// What a hint shows when the cursor is on it.
#[derive(Debug)]
pub enum Tooltip {
    Plain(String),
    Markdown(String),
}

/// What a [`Tooltip`] says.
pub enum TooltipView {
    Plain(Seq<char>),
    Markdown(Seq<char>),
}

/// A hint in the text, with space before it.
#[derive(Debug)]
pub struct InlayHint {
    pub position: Position,
    pub label: String,
    pub tooltip: Option<Tooltip>,
}

/// What an [`InlayHint`] says.
pub struct HintView {
    pub position: Position,
    pub label: Seq<char>,
    pub tooltip: Option<TooltipView>,
}

impl DeepView for Tooltip {
    type V = TooltipView;

    open spec fn deep_view(&self) -> TooltipView {
        match *self {
            Tooltip::Plain(text) => TooltipView::Plain(text@),
            Tooltip::Markdown(text) => TooltipView::Markdown(text@),
        }
    }
}

impl DeepView for InlayHint {
    type V = HintView;

    open spec fn deep_view(&self) -> HintView {
        HintView {
            position: self.position,
            label: self.label@,
            tooltip: self.tooltip.deep_view(),
        }
    }
}

/// The hint of a dependency: its version behind its UUID, where the version is
/// known and the place is in range. The hint itself says what a hover would.
pub open spec fn dep_hint(
    s: Seq<char>,
    range: Range,
    library: ProjectLibrary,
    encoding: PositionEncoding,
) -> spec_fn(DepEntry) -> Option<HintView> {
    |dep: DepEntry|
        {
            let at = dep.uuid_range.end as int;
            let version = match meta_of(library.metas@, dep.name@) {
                Some(meta) => meta.version,
                None => None,
            };
            if offset_at(s, range.start, encoding) <= at <= offset_at(s, range.end, encoding) {
                match version {
                    Some(version) => Some(
                        HintView {
                            position: position_at(s, at, encoding),
                            label: "v"@ + version@,
                            tooltip: match dep_text(
                                *library.library,
                                library.metas@,
                                dep.name@,
                            ) {
                                Some(text) => Some(TooltipView::Markdown(text)),
                                None => None,
                            },
                        },
                    ),
                    None => None,
                }
            } else {
                None
            }
        }
}

/// The hints of a project file within `range`: the versions of its dependencies.
pub fn project_inlay_hints(
    text: &str,
    range: Range,
    deps: &Vec<DepEntry>,
    library: &ProjectLibrary,
    encoding: PositionEncoding,
) -> (r: Vec<InlayHint>)
    requires
        fits(text@),
    ensures
        r.deep_view() == kept(deps@, dep_hint(text@, range, *library, encoding)),
{
    let line_index = LineIndex::new(text);
    let start = line_index.position_to_byte(range.start, encoding);
    let end = line_index.position_to_byte(range.end, encoding);
    let ghost pick = dep_hint(text@, range, *library, encoding);
    let mut out: Vec<InlayHint> = Vec::new();
    let mut i: usize = 0;
    proof {
        assert(deps@.take(0) =~= Seq::<DepEntry>::empty());
        assert(out.deep_view() =~= Seq::<HintView>::empty());
    }
    while i < deps.len()
        invariant
            line_index.wf(),
            line_index@ == text@,
            start == offset_at(text@, range.start, encoding),
            end == offset_at(text@, range.end, encoding),
            i <= deps.len(),
            pick == dep_hint(text@, range, *library, encoding),
            out.deep_view() == kept(deps@.take(i as int), pick),
        decreases deps.len() - i,
    {
        proof {
            lemma_kept_step(deps@, pick, i as int);
        }
        let dep = &deps[i];
        i = i + 1;
        let at = dep.uuid_range.end as usize;
        if start <= at && at <= end {
            if let Some(meta) = library.package_meta(dep.name.as_str()) {
                if let Some(version) = &meta.version {
                    let tooltip = match dep_markdown(dep.name.as_str(), library) {
                        Some(value) => Some(Tooltip::Markdown(value)),
                        None => None,
                    };
                    let ghost before = out.deep_view();
                    out.push(
                        InlayHint {
                            position: line_index.byte_to_position(at, encoding),
                            label: cat("v", version.as_str()),
                            tooltip,
                        },
                    );
                    proof {
                        assert(out.deep_view() =~= before.push(out@.last().deep_view()));
                    }
                }
            }
        }
    }
    proof {
        assert(deps@.take(i as int) =~= deps@);
    }
    out
}

/// The dependency under the cursor is the first whose name it touches; it leads to where
/// the sources of its package begin: the file of the package's module under the root of
/// the sources, where both are known.
pub proof fn law_dependencies_lead_to_their_sources(
    s: Seq<char>,
    position: Position,
    deps: Seq<DepEntry>,
    library: Library,
    encoding: PositionEncoding,
    i: int,
)
    ensures
        ({
            let at = offset_at(s, position, encoding) as int;
            let touched = |k: int|
                deps[k].name_range.start <= at && at <= deps[k].name_range.end;
            let entry = entry_at(s, position, deps, library, encoding);
            &&& 0 <= i < deps.len() && touched(i) && (forall|k: int|
                0 <= k < i ==> !#[trigger] touched(k)) ==> match (
                root_of(library, deps[i].name@),
                package_of(library, deps[i].name@),
            ) {
                (Some(root), Some(package)) => entry == Some(site_in(root, package.root.loc)),
                _ => entry is None,
            }
            &&& (forall|k: int| 0 <= k < deps.len() ==> !#[trigger] touched(k)) ==> entry is None
        }),
{
    let at = offset_at(s, position, encoding) as int;
    let touched = |k: int| deps[k].name_range.start <= at && at <= deps[k].name_range.end;
    lemma_first_index(deps, dep_spans(at));
    let first = first_index(deps, dep_spans(at));
    if first < deps.len() {
        assert(touched(first));
    }
    if 0 <= i < deps.len() && touched(i) {
        assert(dep_spans(at)(deps[i]));
    }
}

/// What is shown of a dependency is its name, and behind it its version, how it was
/// pinned and where its sources are, each where it is known; a dependency of which
/// nothing is known shows nothing.
pub proof fn law_dependencies_show_what_is_known(
    library: Library,
    metas: Seq<PackageMeta>,
    name: Seq<char>,
    i: int,
)
    ensures
        ({
            let text = dep_text(library, metas, name);
            let root = root_of(library, name);
            let place = if root is Some {
                "\n\n`"@ + displayed(root->0) + "`"@
            } else {
                Seq::empty()
            };
            &&& nothing_named(metas, name) && root is None ==> text is None
            &&& nothing_named(metas, name) && root is Some ==> text == Some(
                "**"@ + name + "**"@ + place,
            )
            &&& first_named(metas, name, i) ==> {
                let head = "**"@ + name + "**"@ + (if metas[i].version is Some {
                    " v"@ + metas[i].version->0@
                } else {
                    Seq::empty()
                }) + "\n\n"@;
                &&& metas[i].kind == PackageKind::Registered ==> text == Some(
                    head + "Registered package"@ + place,
                )
                &&& metas[i].kind == PackageKind::Dev ==> text == Some(
                    head + "Development dependency"@ + place,
                )
                &&& metas[i].kind == PackageKind::Stdlib ==> text == Some(
                    head + "Standard library"@ + place,
                )
            }
        }),
{
    let root = root_of(library, name);
    let place = if root is Some {
        "\n\n`"@ + displayed(root->0) + "`"@
    } else {
        Seq::empty()
    };
    let text = dep_text(library, metas, name);
    if nothing_named(metas, name) {
        lemma_nothing_named(metas, name);
        if root is Some {
            assert(text->0 =~= "**"@ + name + "**"@ + place);
        }
    }
    if first_named(metas, name, i) {
        lemma_first_named(metas, name, i);
        let version = if metas[i].version is Some {
            " v"@ + metas[i].version->0@
        } else {
            Seq::empty()
        };
        let head = "**"@ + name + "**"@ + version + "\n\n"@;
        assert(text->0 =~= head + kind_text(metas[i].kind) + place);
    }
}

/// Whether a hint of a label is at a position.
pub open spec fn has_hint(hints: Seq<HintView>, label: Seq<char>, position: Position) -> bool {
    exists|j: int|
        0 <= j < hints.len() && (#[trigger] hints[j]).label == label && hints[j].position
            == position
}

/// Every dependency whose version is known has a hint behind its UUID, where that is in
/// the range; its label is the version.
pub proof fn law_versions_are_hinted(
    s: Seq<char>,
    range: Range,
    deps: Seq<DepEntry>,
    library: ProjectLibrary,
    encoding: PositionEncoding,
    k: int,
    m: int,
)
    requires
        0 <= k < deps.len(),
        first_named(library.metas@, deps[k].name@, m),
        library.metas@[m].version is Some,
        offset_at(s, range.start, encoding) <= deps[k].uuid_range.end,
        deps[k].uuid_range.end <= offset_at(s, range.end, encoding),
    ensures
        has_hint(
            kept(deps, dep_hint(s, range, library, encoding)),
            "v"@ + library.metas@[m].version->0@,
            position_at(s, deps[k].uuid_range.end as int, encoding),
        ),
{
    lemma_first_named(library.metas@, deps[k].name@, m);
    let f = dep_hint(s, range, library, encoding);
    let j = lemma_kept_holds(deps, f, k);
    assert(kept(deps, f)[j].label == "v"@ + library.metas@[m].version->0@);
}

/// Every dependency whose sources are known is linked, from its name to the file in
/// which they begin.
pub proof fn law_dependencies_are_linked(
    s: Seq<char>,
    deps: Seq<DepEntry>,
    library: Library,
    encoding: PositionEncoding,
    k: int,
)
    requires
        0 <= k < deps.len(),
        root_of(library, deps[k].name@) is Some,
        package_of(library, deps[k].name@) is Some,
    ensures
        kept(deps, dep_link(s, library, encoding)).contains(
            LinkView {
                range: range_at(
                    s,
                    deps[k].name_range.start as int,
                    deps[k].name_range.end as int,
                    encoding,
                ),
                target: site_in(
                    root_of(library, deps[k].name@)->0,
                    package_of(library, deps[k].name@)->0.root.loc,
                ).path,
            },
        ),
{
    let j = lemma_kept_holds(deps, dep_link(s, library, encoding), k);
}

/// Every `path` entry of a manifest that is not empty leads from its text to the project
/// file of the root that it names, or to the root itself where no project file of it was
/// found.
pub proof fn law_manifest_paths_are_linked(
    s: Seq<char>,
    base: Seq<Seq<char>>,
    entries: Seq<ManifestPath>,
    projects: Seq<ProjectRoot>,
    encoding: PositionEncoding,
    k: int,
    p: int,
)
    requires
        0 <= k < entries.len(),
        entries[k].path@.len() > 0,
        resolved(entries[k].path@, Some(base)) is Some,
    ensures
        ({
            let root = resolved(entries[k].path@, Some(base))->0;
            let links = kept(entries, manifest_link(s, Some(base), projects, encoding));
            let link = |target: Seq<Seq<char>>|
                LinkView {
                    range: range_at(
                        s,
                        entries[k].range.start as int,
                        entries[k].range.end as int,
                        encoding,
                    ),
                    target,
                };
            &&& 0 <= p < projects.len() && projects[p].root.deep_view() == root && (forall|i: int|
                0 <= i < p ==> (#[trigger] projects[i]).root.deep_view() != root)
                ==> links.contains(link(projects[p].file.deep_view()))
            &&& (forall|i: int|
                0 <= i < projects.len() ==> (#[trigger] projects[i]).root.deep_view() != root)
                ==> links.contains(link(root))
        }),
{
    let root = resolved(entries[k].path@, Some(base))->0;
    let j = lemma_kept_holds(entries, manifest_link(s, Some(base), projects, encoding), k);
    lemma_first_index(projects, is_root(root));
    let at = first_index(projects, is_root(root));
    if at < projects.len() {
        assert(projects[at].root.deep_view() == root);
    }
    if 0 <= p < projects.len() && projects[p].root.deep_view() == root {
        assert(is_root(root)(projects[p]));
    }
}

/// The hover on a dependency says what is known of the first whose name the cursor
/// touches, over that name; on anything else, or where nothing is known, there is none.
pub proof fn law_hover_is_on_the_touched_dependency(
    hover: Option<Hover>,
    s: Seq<char>,
    position: Position,
    deps: Seq<DepEntry>,
    library: ProjectLibrary,
    encoding: PositionEncoding,
    i: int,
)
    requires
        is_dep_hover(hover, s, position, deps, library, encoding),
    ensures
        ({
            let at = offset_at(s, position, encoding) as int;
            let touched = |k: int|
                deps[k].name_range.start <= at && at <= deps[k].name_range.end;
            &&& 0 <= i < deps.len() && touched(i) && (forall|k: int|
                0 <= k < i ==> !#[trigger] touched(k)) ==> {
                let text = dep_text(*library.library, library.metas@, deps[i].name@);
                &&& text is None ==> hover is None
                &&& text is Some ==> hover is Some && hover->0.value@ == text->0
                    && hover->0.range == range_at(
                    s,
                    deps[i].name_range.start as int,
                    deps[i].name_range.end as int,
                    encoding,
                )
            }
            &&& (forall|k: int| 0 <= k < deps.len() ==> !#[trigger] touched(k)) ==> hover is None
        }),
{
    let at = offset_at(s, position, encoding) as int;
    let touched = |k: int| deps[k].name_range.start <= at && at <= deps[k].name_range.end;
    lemma_first_index(deps, dep_spans(at));
    let first = first_index(deps, dep_spans(at));
    if first < deps.len() {
        assert(touched(first));
    }
    if 0 <= i < deps.len() && touched(i) {
        assert(dep_spans(at)(deps[i]));
    }
}

} // verus!
