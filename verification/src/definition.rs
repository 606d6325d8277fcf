//! Go to definition: where the name under the cursor is defined.
//!
//! A definition in the file itself is a range of the document. One in a package's
//! sources is a path and a span, which become a range once the file is read.

use vstd::prelude::*;

use crate::hover::{group_index, lemma_no_group, library_function_group};
use crate::documentation::{docs_wf, markdown_definition, markdown_target, DocText};
use crate::index::{
    extension_groups, extensions, find_named, first_named, has_name, holds_name,
    lemma_first_named, lemma_nothing_named, name_index, nothing_named, package_of, points_at,
    resolve_submodule, root_of, submodule, ConstDef, DefLocation, FunctionGroup, Library, MacroDef,
    Method, ModuleIndex, PackageIndex, Span, TypeDef,
};
use crate::order::{law_path_ranks, path_less, path_rank, rank_path};
use crate::paths::{pieces_path, FilePath};
use crate::references::{Location, LocationView};
use crate::resolve::{loaded_module, using_module};
use crate::search::{
    first_found, first_index, kept, lemma_first_found_stays, lemma_first_found_step,
    lemma_first_index, lemma_first_index_is, lemma_kept_holds, lemma_kept_step,
};
use crate::semantic::{
    binding_spans, ident_spans, read_spans, Access, BindingKind, Ident, ModuleLoad, QualifiedRead,
    Resolution, SemanticModel,
};
use crate::sorting::{ascending, law_sorted, sort_stable, stable_sorted};
use crate::strings::{chars_of, copy_texts, same_text};
use crate::text::{
    fits, lemma_offset_bounded, offset_at, range_at, LineIndex, Position, PositionEncoding,
    TextRange,
};

verus! {

/// A place in a package's sources.
#[derive(Debug)]
pub struct DefSite {
    pub path: FilePath,
    pub span: Span,
}

/// What a [`DefSite`] says.
pub struct DefSiteView {
    pub path: Seq<Seq<char>>,
    pub span: Span,
}

impl DeepView for DefSite {
    type V = DefSiteView;

    open spec fn deep_view(&self) -> DefSiteView {
        DefSiteView { path: self.path.deep_view(), span: self.span }
    }
}

/// Where the methods of a function are defined.
pub open spec fn method_locations(methods: Seq<Method>) -> Seq<DefLocation> {
    Seq::new(methods.len(), |i: int| methods[i].loc)
}

/// Where a module defines a name: a macro by its sigil, then every method of a
/// function, a type, a constant.
pub open spec fn definitions_in(module: ModuleIndex, name: Seq<char>) -> Seq<DefLocation> {
    if name.len() > 0 && name[0] == '@' {
        if holds_name(module.macros@, name) {
            seq![module.macros@[name_index(module.macros@, name)].loc]
        } else {
            Seq::empty()
        }
    } else if group_index(module, name) < module.functions.len() {
        method_locations(module.functions@[group_index(module, name)].methods@)
    } else if holds_name(module.types@, name) {
        seq![module.types@[name_index(module.types@, name)].loc]
    } else if holds_name(module.consts@, name) {
        seq![module.consts@[name_index(module.consts@, name)].loc]
    } else {
        Seq::empty()
    }
}

/// Whether references point at the locations of a sequence, one by one.
pub open spec fn points_at_locations(refs: Seq<&DefLocation>, all: Seq<DefLocation>) -> bool {
    &&& refs.len() == all.len()
    &&& forall|i: int| 0 <= i < refs.len() ==> *(#[trigger] refs[i]) == all[i]
}

/// Where `module` defines `name`.
pub fn library_def_locations<'m>(module: &'m ModuleIndex, name: &str) -> (r: Vec<&'m DefLocation>)
    ensures
        points_at_locations(r@, definitions_in(*module, name@)),
{
    let mut out: Vec<&'m DefLocation> = Vec::new();
    let chars = chars_of(name);
    proof {
        lemma_first_index(module.macros@, has_name::<MacroDef>(name@));
        lemma_first_index(module.types@, has_name::<TypeDef>(name@));
        lemma_first_index(module.consts@, has_name::<ConstDef>(name@));
    }
    if chars.len() > 0 && chars[0] == '@' {
        let at = find_named(&module.macros, name);
        if at < module.macros.len() {
            out.push(&module.macros[at].loc);
        }
        return out;
    }
    if let Some(group) = library_function_group(module, name) {
        let mut i: usize = 0;
        while i < group.methods.len()
            invariant
                i <= group.methods.len(),
                out.len() == i,
                forall|k: int| 0 <= k < i ==> *(#[trigger] out@[k]) == group.methods@[k].loc,
            decreases group.methods.len() - i,
        {
            out.push(&group.methods[i].loc);
            i = i + 1;
        }
        return out;
    }
    let at = find_named(&module.types, name);
    if at < module.types.len() {
        out.push(&module.types[at].loc);
        return out;
    }
    let at = find_named(&module.consts, name);
    if at < module.consts.len() {
        out.push(&module.consts[at].loc);
    }
    out
}

/// The site of a location in a package whose sources are in `root`.
pub open spec fn site_in(root: Seq<Seq<char>>, loc: DefLocation) -> DefSiteView {
    DefSiteView { path: pieces_path(root, loc.file@), span: loc.range }
}

/// The sites of locations in a package whose sources are in `root`.
pub open spec fn sites_in(root: Seq<Seq<char>>, locs: Seq<DefLocation>) -> Seq<DefSiteView> {
    Seq::new(locs.len(), |i: int| site_in(root, locs[i]))
}

fn push_site(root: &FilePath, loc: &DefLocation, out: &mut Vec<DefSite>)
    ensures
        final(out).deep_view() == old(out).deep_view().push(site_in(root.deep_view(), *loc)),
{
    let ghost before = out.deep_view();
    let path = root.descend(loc.file.as_str());
    out.push(DefSite { path, span: loc.range });
    proof {
        assert(out.deep_view() =~= before.push(site_in(root.deep_view(), *loc)));
    }
}

/// The sites where a module of a package defines a name; none where the package's
/// sources are not known.
pub open spec fn library_sites(
    library: Library,
    package: Seq<char>,
    module: ModuleIndex,
    name: Seq<char>,
) -> Seq<DefSiteView> {
    match root_of(library, package) {
        Some(root) => sites_in(root, definitions_in(module, name)),
        None => Seq::empty(),
    }
}

/// The sites where `module` of `package` defines `name`.
pub fn library_def_sites(
    library: &Library,
    package: &PackageIndex,
    module: &ModuleIndex,
    name: &str,
) -> (r: Vec<DefSite>)
    ensures
        r.deep_view() == library_sites(*library, package.name@, *module, name@),
{
    let mut out: Vec<DefSite> = Vec::new();
    let locs = library_def_locations(module, name);
    let ghost all = definitions_in(*module, name@);
    proof {
        assert(out.deep_view() =~= Seq::<DefSiteView>::empty());
    }
    let root = match library.package_root(package.name.as_str()) {
        Some(root) => root,
        None => {
            return out;
        },
    };
    let ghost goal = sites_in(root.deep_view(), all);
    let mut i: usize = 0;
    proof {
        assert(goal.take(0) =~= Seq::<DefSiteView>::empty());
    }
    while i < locs.len()
        invariant
            i <= locs.len(),
            points_at_locations(locs@, all),
            goal == sites_in(root.deep_view(), all),
            out.deep_view() == goal.take(i as int),
        decreases locs.len() - i,
    {
        push_site(root, locs[i], &mut out);
        i = i + 1;
        proof {
            assert(goal.take(i as int) =~= goal.take(i - 1).push(goal[i - 1]));
        }
    }
    proof {
        assert(goal.take(i as int) =~= goal);
    }
    out
}

/// The first of a number of sites.
fn first_site(sites: Vec<DefSite>) -> (r: Option<DefSite>)
    ensures
        r.deep_view() == (if sites.deep_view().len() == 0 {
            None
        } else {
            Some(sites.deep_view()[0])
        }),
{
    let mut sites = sites;
    if sites.len() == 0 {
        None
    } else {
        let ghost first = sites.deep_view()[0];
        let site = sites.remove(0);
        proof {
            assert(site.deep_view() == first);
        }
        Some(site)
    }
}

/// The first site where `module` of `package` defines `name`.
pub fn library_def_site(
    library: &Library,
    package: &PackageIndex,
    module: &ModuleIndex,
    name: &str,
) -> (r: Option<DefSite>)
    ensures
        r.deep_view() == ({
            let sites = library_sites(*library, package.name@, *module, name@);
            if sites.len() == 0 {
                None
            } else {
                Some(sites[0])
            }
        }),
{
    first_site(library_def_sites(library, package, module, name))
}

/// That a load brings in a module that defines a name.
pub open spec fn load_sites(library: Library, module: Seq<char>, name: Seq<char>) -> spec_fn(
    ModuleLoad,
) -> Option<Seq<DefSiteView>> {
    |load: ModuleLoad|
        match using_module(library, load, module) {
            Some((package, found)) => {
                let sites = library_sites(library, package.name@, found, name);
                if sites.len() == 0 {
                    None
                } else {
                    Some(sites)
                }
            },
            None => None,
        }
}

/// The sites of a name that a `using` brings in: those in the package of the
/// module's name, or else those that the first load leads to.
pub open spec fn using_sites(
    loads: Seq<ModuleLoad>,
    library: Library,
    module: Seq<char>,
    name: Seq<char>,
) -> Seq<DefSiteView> {
    let direct = match package_of(library, module) {
        Some(package) => library_sites(library, package.name@, package.root, name),
        None => Seq::empty(),
    };
    if direct.len() > 0 {
        direct
    } else {
        match first_found(loads, load_sites(library, module, name)) {
            Some(sites) => sites,
            None => Seq::empty(),
        }
    }
}

/// The sites of a name that a `using` brings in.
pub fn using_def_sites(
    model: &SemanticModel,
    library: &Library,
    module: &str,
    name: &str,
) -> (r: Vec<DefSite>)
    ensures
        r.deep_view() == using_sites(model.module_loads@, *library, module@, name@),
{
    if let Some(package) = library.package(module) {
        let sites = library_def_sites(library, package, &package.root, name);
        if sites.len() > 0 {
            return sites;
        }
    }
    let ghost find = load_sites(*library, module@, name@);
    let ghost loads = model.module_loads@;
    let mut i: usize = 0;
    proof {
        assert(loads.take(0) =~= Seq::<ModuleLoad>::empty());
    }
    while i < model.module_loads.len()
        invariant
            i <= loads.len(),
            loads == model.module_loads@,
            find == load_sites(*library, module@, name@),
            first_found(loads.take(i as int), find) is None,
            using_sites(loads, *library, module@, name@) == match first_found(loads, find) {
                Some(sites) => sites,
                None => Seq::empty(),
            },
        decreases loads.len() - i,
    {
        proof {
            lemma_first_found_step(loads, find, i as int);
        }
        if let Some((package, found)) = loaded_module(library, &model.module_loads[i], module) {
            let sites = library_def_sites(library, package, found, name);
            if sites.len() > 0 {
                proof {
                    lemma_first_found_stays(loads, find, i + 1);
                }
                return sites;
            }
        }
        i = i + 1;
    }
    let none: Vec<DefSite> = Vec::new();
    proof {
        assert(loads.take(i as int) =~= loads);
        assert(none.deep_view() =~= Seq::<DefSiteView>::empty());
    }
    none
}

/// The first site of a name that a `using` brings in.
pub fn using_def_site(
    model: &SemanticModel,
    library: &Library,
    module: &str,
    name: &str,
) -> (r: Option<DefSite>)
    ensures
        r.deep_view() == ({
            let sites = using_sites(model.module_loads@, *library, module@, name@);
            if sites.len() == 0 {
                None
            } else {
                Some(sites[0])
            }
        }),
{
    first_site(using_def_sites(model, library, module, name))
}

/// The sites of the methods of groups.
pub open spec fn group_sites(root: Seq<Seq<char>>, groups: Seq<FunctionGroup>) -> Seq<DefSiteView>
    decreases groups.len(),
{
    if groups.len() == 0 {
        Seq::empty()
    } else {
        group_sites(root, groups.drop_last()) + sites_in(
            root,
            method_locations(groups.last().methods@),
        )
    }
}

/// The sites of the methods with which the workspace extends a function.
pub open spec fn extension_sites(
    library: Library,
    workspace: Option<&PackageIndex>,
    path: Seq<Seq<char>>,
    name: Seq<char>,
) -> Seq<DefSiteView> {
    match workspace {
        Some(package) => match root_of(library, package.name@) {
            Some(root) => group_sites(root, extensions(package.root, path, name)),
            None => Seq::empty(),
        },
        None => Seq::empty(),
    }
}

/// The sites of the methods with which the workspace extends the function `name`
/// of the module `path`.
pub fn workspace_extension_sites(
    library: &Library,
    workspace: Option<&PackageIndex>,
    path: &Vec<String>,
    name: &str,
) -> (r: Vec<DefSite>)
    ensures
        r.deep_view() == extension_sites(*library, workspace, path.deep_view(), name@),
{
    let mut out: Vec<DefSite> = Vec::new();
    proof {
        assert(out.deep_view() =~= Seq::<DefSiteView>::empty());
    }
    let package = match workspace {
        Some(package) => package,
        None => {
            return out;
        },
    };
    let root = match library.package_root(package.name.as_str()) {
        Some(root) => root,
        None => {
            return out;
        },
    };
    let groups = extension_groups(&package.root, path, name);
    let ghost all = extensions(package.root, path.deep_view(), name@);
    let ghost r = root.deep_view();
    let mut i: usize = 0;
    proof {
        assert(all.take(0) =~= Seq::<FunctionGroup>::empty());
    }
    while i < groups.len()
        invariant
            i <= groups.len(),
            points_at(groups@, all),
            r == root.deep_view(),
            out.deep_view() == group_sites(r, all.take(i as int)),
        decreases groups.len() - i,
    {
        let group = groups[i];
        let ghost before = out.deep_view();
        let ghost here = sites_in(r, method_locations(group.methods@));
        let mut j: usize = 0;
        proof {
            assert(all.take(i + 1).drop_last() =~= all.take(i as int));
            assert(before + here.take(0) =~= before);
        }
        while j < group.methods.len()
            invariant
                j <= group.methods.len(),
                r == root.deep_view(),
                here == sites_in(r, method_locations(group.methods@)),
                out.deep_view() == before + here.take(j as int),
            decreases group.methods.len() - j,
        {
            push_site(root, &group.methods[j].loc, &mut out);
            j = j + 1;
            proof {
                assert(before + here.take(j as int) =~= (before + here.take(j - 1)).push(
                    here[j - 1],
                ));
            }
        }
        i = i + 1;
        proof {
            assert(here.take(j as int) =~= here);
        }
    }
    proof {
        assert(all.take(i as int) =~= all);
    }
    out
}

/// Whether a module of the workspace's package defines a function of its own by a
/// name.
pub open spec fn defines_function(
    workspace: Option<&PackageIndex>,
    path: Seq<Seq<char>>,
    name: Seq<char>,
    is_macro: bool,
) -> bool {
    !is_macro && workspace is Some && match submodule(workspace->0.root, path) {
        Some(module) => first_index(module.functions@, crate::hover::is_own_group(name))
            < module.functions.len(),
        None => false,
    }
}

/// The package under development defines the function `name` in the module
/// `path`, and by itself, not as an extension.
pub fn is_workspace_function(
    workspace: Option<&PackageIndex>,
    path: &Vec<String>,
    name: &str,
    is_macro: bool,
) -> (r: bool)
    ensures
        r == defines_function(workspace, path.deep_view(), name@, is_macro),
{
    if is_macro {
        return false;
    }
    let package = match workspace {
        Some(package) => package,
        None => {
            return false;
        },
    };
    proof {
        assert(path.deep_view().skip(0) =~= path.deep_view());
    }
    let module = match resolve_submodule(&package.root, path, 0) {
        Some(module) => module,
        None => {
            return false;
        },
    };
    let ghost here = crate::hover::is_own_group(name@);
    let mut at: usize = 0;
    while at < module.functions.len() && !(same_text(module.functions[at].name.as_str(), name)
        && module.functions[at].owner.is_none())
        invariant
            at <= module.functions.len(),
            here == crate::hover::is_own_group(name@),
            forall|k: int| 0 <= k < at ==> !here(#[trigger] module.functions@[k]),
        decreases module.functions.len() - at,
    {
        at = at + 1;
    }
    proof {
        lemma_first_index_is(module.functions@, here, at as int);
    }
    at < module.functions.len()
}

/// Where a range begins, as one number.
pub open spec fn text_start() -> spec_fn(TextRange) -> int {
    |range: TextRange| range.start as int
}

/// The range of a later method of a binding: where it is written.
pub open spec fn written_at(id: usize) -> spec_fn(Ident) -> Option<TextRange> {
    |ident: Ident|
        if ident.binding == Some(id) && ident.access == Access::Write {
            Some(ident.range)
        } else {
            None
        }
}

/// The items of a sequence, less each that is the one kept before it.
pub open spec fn squeezed<T>(s: Seq<T>) -> Seq<T>
    decreases s.len(),
{
    if s.len() == 0 {
        s
    } else {
        let before = squeezed(s.drop_last());
        if before.len() > 0 && before.last() == s.last() {
            before
        } else {
            before.push(s.last())
        }
    }
}

/// The ranges where a binding is defined: its definition, and for a function or a
/// macro each later method; in order, each once.
pub open spec fn binding_ranges(model: SemanticModel, id: usize) -> Seq<TextRange> {
    let binding = model.bindings@[id as int];
    let own = seq![binding.def_range];
    let all = if binding.kind == BindingKind::Function || binding.kind == BindingKind::Macro {
        own + kept(model.idents@, written_at(id))
    } else {
        own
    };
    squeezed(stable_sorted(all, text_start()))
}

/// The locations of ranges in a document.
pub open spec fn locations_in(
    s: Seq<char>,
    uri: Seq<char>,
    ranges: Seq<TextRange>,
    encoding: PositionEncoding,
) -> Seq<LocationView> {
    Seq::new(
        ranges.len(),
        |i: int|
            LocationView {
                uri,
                range: range_at(s, ranges[i].start as int, ranges[i].end as int, encoding),
            },
    )
}

/// The locations where binding `id` is defined.
pub fn binding_locations(
    model: &SemanticModel,
    uri: &str,
    id: usize,
    line_index: &LineIndex,
    encoding: PositionEncoding,
) -> (r: Vec<Location>)
    requires
        id < model.bindings.len(),
        line_index.wf(),
    ensures
        r.deep_view() == locations_in(
            line_index@,
            uri@,
            binding_ranges(*model, id),
            encoding,
        ),
{
    let binding = &model.bindings[id];
    let mut ranges: Vec<TextRange> = Vec::new();
    ranges.push(binding.def_range);
    let callable = match binding.kind {
        BindingKind::Function | BindingKind::Macro => true,
        _ => false,
    };
    let ghost own = seq![binding.def_range];
    let ghost idents = model.idents@;
    let ghost pick = written_at(id);
    proof {
        assert(ranges.deep_view() =~= own);
    }
    if callable {
        let mut i: usize = 0;
        proof {
            assert(idents.take(0) =~= Seq::<Ident>::empty());
            assert(own + kept(idents.take(0), pick) =~= own);
        }
        while i < model.idents.len()
            invariant
                i <= idents.len(),
                idents == model.idents@,
                pick == written_at(id),
                ranges.deep_view() == own + kept(idents.take(i as int), pick),
            decreases idents.len() - i,
        {
            proof {
                lemma_kept_step(idents, pick, i as int);
            }
            let ident = &model.idents[i];
            i = i + 1;
            let same = match ident.binding {
                Some(other) => other == id,
                None => false,
            };
            let writes = match ident.access {
                Access::Write => true,
                _ => false,
            };
            if same && writes {
                let ghost before = ranges.deep_view();
                ranges.push(ident.range);
                proof {
                    assert(ranges.deep_view() =~= before.push(ident.range));
                    assert(ranges.deep_view() =~= own + kept(idents.take(i as int), pick));
                }
            }
        }
        proof {
            assert(idents.take(i as int) =~= idents);
        }
    }
    let mut keys: Vec<u64> = Vec::new();
    let mut j: usize = 0;
    while j < ranges.len()
        invariant
            j <= ranges.len(),
            keys.len() == j,
            forall|k: int|
                0 <= k < j ==> #[trigger] keys@[k] == text_start()(ranges.deep_view()[k]),
        decreases ranges.len() - j,
    {
        keys.push(ranges[j].start as u64);
        j = j + 1;
    }
    let sorted = sort_stable(ranges, keys, Ghost(text_start()));
    let ghost all = sorted.deep_view();
    let mut kept_ranges: Vec<TextRange> = Vec::new();
    let mut k: usize = 0;
    proof {
        assert(all.take(0) =~= Seq::<TextRange>::empty());
    }
    while k < sorted.len()
        invariant
            k <= sorted.len(),
            all == sorted.deep_view(),
            kept_ranges@ == squeezed(all.take(k as int)),
        decreases sorted.len() - k,
    {
        proof {
            assert(all.take(k + 1).drop_last() =~= all.take(k as int));
        }
        let range = sorted[k];
        let count = kept_ranges.len();
        if count > 0 && kept_ranges[count - 1] == range {
        } else {
            kept_ranges.push(range);
        }
        k = k + 1;
    }
    proof {
        assert(all.take(k as int) =~= all);
        assert(kept_ranges@ == binding_ranges(*model, id));
    }
    let mut out: Vec<Location> = Vec::new();
    let mut m: usize = 0;
    while m < kept_ranges.len()
        invariant
            line_index.wf(),
            m <= kept_ranges.len(),
            out.len() == m,
            forall|i: int|
                0 <= i < m ==> #[trigger] out@[i].deep_view() == (LocationView {
                    uri: uri@,
                    range: range_at(
                        line_index@,
                        kept_ranges@[i].start as int,
                        kept_ranges@[i].end as int,
                        encoding,
                    ),
                }),
        decreases kept_ranges.len() - m,
    {
        let range = kept_ranges[m];
        out.push(
            Location {
                uri: uri.to_owned(),
                range: line_index.range(range.start as usize, range.end as usize, encoding),
            },
        );
        m = m + 1;
    }
    proof {
        assert(out.deep_view() =~= locations_in(line_index@, uri@, kept_ranges@, encoding));
    }
    out
}

/// Where a name is defined: in the document itself, or in sources on disk.
#[derive(Debug)]
pub enum Definition {
    Here(Vec<Location>),
    OnDisk(Vec<DefSite>),
}

/// What a [`Definition`] says.
pub enum DefinitionView {
    Here(Seq<LocationView>),
    OnDisk(Seq<DefSiteView>),
}

impl DeepView for Definition {
    type V = DefinitionView;

    open spec fn deep_view(&self) -> DefinitionView {
        match *self {
            Definition::Here(locations) => DefinitionView::Here(locations.deep_view()),
            Definition::OnDisk(sites) => DefinitionView::OnDisk(sites.deep_view()),
        }
    }
}

/// The sites of a qualified name: methods with which the workspace extends it,
/// then those of the package it names.
pub open spec fn qualified_sites(
    library: Library,
    workspace: Option<&PackageIndex>,
    path: Seq<Seq<char>>,
) -> Seq<DefSiteView> {
    if path.len() == 0 {
        Seq::empty()
    } else {
        let modules = path.drop_last();
        let name = path.last();
        let own = if modules.len() == 0 {
            Seq::empty()
        } else {
            match package_of(library, modules[0]) {
                Some(package) => match submodule(package.root, modules.skip(1)) {
                    Some(module) => library_sites(library, package.name@, module, name),
                    None => Seq::empty(),
                },
                None => Seq::empty(),
            }
        };
        extension_sites(library, workspace, modules, name) + own
    }
}

fn append_sites(out: &mut Vec<DefSite>, more: Vec<DefSite>)
    ensures
        final(out).deep_view() == old(out).deep_view() + more.deep_view(),
{
    let ghost both = out.deep_view() + more.deep_view();
    let mut more = more;
    out.append(&mut more);
    proof {
        assert(out.deep_view() =~= both);
    }
}

/// The sites of a qualified name.
pub fn qualified_locations(
    read: &QualifiedRead,
    library: &Library,
    workspace: Option<&PackageIndex>,
) -> (r: Vec<DefSite>)
    ensures
        r.deep_view() == qualified_sites(*library, workspace, read.path.deep_view()),
{
    let ghost whole = read.path.deep_view();
    let count = read.path.len();
    if count == 0 {
        let none: Vec<DefSite> = Vec::new();
        proof {
            assert(none.deep_view() =~= Seq::<DefSiteView>::empty());
        }
        return none;
    }
    let mut modules = copy_texts(&read.path);
    modules.pop();
    let name = read.path[count - 1].as_str();
    proof {
        assert(modules.deep_view() =~= whole.drop_last());
        assert(whole.last() == name@);
    }
    let mut sites = workspace_extension_sites(library, workspace, &modules, name);
    if modules.len() > 0 {
        proof {
            assert(modules.deep_view()[0] == modules@[0]@);
        }
        if let Some(package) = library.package(modules[0].as_str()) {
            if let Some(module) = resolve_submodule(&package.root, &modules, 1) {
                let own = library_def_sites(library, package, module, name);
                append_sites(&mut sites, own);
                return sites;
            }
        }
    }
    proof {
        let s = sites.deep_view();
        assert(s + Seq::<DefSiteView>::empty() =~= s);
    }
    sites
}

/// Where a name that the file does not bind is defined.
pub open spec fn free_definition(
    s: Seq<char>,
    model: SemanticModel,
    library: Library,
    workspace: Option<&PackageIndex>,
    uri: Seq<char>,
    resolution: Resolution,
    encoding: PositionEncoding,
) -> DefinitionView {
    match resolution {
        Resolution::Binding(id) => DefinitionView::Here(
            locations_in(s, uri, binding_ranges(model, id), encoding),
        ),
        Resolution::Workspace { path, name } => DefinitionView::OnDisk(
            match workspace {
                Some(package) => match submodule(package.root, path.deep_view()) {
                    Some(host) => library_sites(library, package.name@, host, name@),
                    None => Seq::empty(),
                },
                None => Seq::empty(),
            },
        ),
        Resolution::System { module, name } => DefinitionView::OnDisk(
            extension_sites(library, workspace, seq![module@], name@) + match package_of(
                library,
                module@,
            ) {
                Some(package) => library_sites(library, package.name@, package.root, name@),
                None => Seq::empty(),
            },
        ),
        Resolution::Using { module, name } => DefinitionView::OnDisk(
            using_sites(model.module_loads@, library, module@, name@),
        ),
        Resolution::WorkspaceImport => DefinitionView::OnDisk(Seq::empty()),
        Resolution::Unresolved => DefinitionView::OnDisk(Seq::empty()),
    }
}

fn no_sites() -> (r: Vec<DefSite>)
    ensures
        r.deep_view() == Seq::<DefSiteView>::empty(),
{
    let none: Vec<DefSite> = Vec::new();
    proof {
        assert(none.deep_view() =~= Seq::<DefSiteView>::empty());
    }
    none
}

/// Where a name that the file does not bind is defined.
pub fn free_read_locations(
    model: &SemanticModel,
    library: &Library,
    workspace: Option<&PackageIndex>,
    uri: &str,
    resolution: &Resolution,
    line_index: &LineIndex,
    encoding: PositionEncoding,
) -> (r: Definition)
    requires
        line_index.wf(),
        resolution is Binding ==> resolution->Binding_0 < model.bindings.len(),
    ensures
        r.deep_view() == free_definition(
            line_index@,
            *model,
            *library,
            workspace,
            uri@,
            *resolution,
            encoding,
        ),
{
    match resolution {
        Resolution::Binding(id) => Definition::Here(
            binding_locations(model, uri, *id, line_index, encoding),
        ),
        Resolution::Workspace { path, name } => {
            let package = match workspace {
                Some(package) => package,
                None => {
                    return Definition::OnDisk(no_sites());
                },
            };
            proof {
                assert(path.deep_view().skip(0) =~= path.deep_view());
            }
            match resolve_submodule(&package.root, path, 0) {
                Some(host) => Definition::OnDisk(
                    library_def_sites(library, package, host, name.as_str()),
                ),
                None => Definition::OnDisk(no_sites()),
            }
        },
        Resolution::System { module, name } => {
            let owner = vec![module.clone()];
            proof {
                assert(owner.deep_view() =~= seq![module@]);
            }
            let mut sites = workspace_extension_sites(library, workspace, &owner, name.as_str());
            let own = match library.package(module.as_str()) {
                Some(package) => library_def_sites(
                    library,
                    package,
                    &package.root,
                    name.as_str(),
                ),
                None => no_sites(),
            };
            append_sites(&mut sites, own);
            Definition::OnDisk(sites)
        },
        Resolution::Using { module, name } => Definition::OnDisk(
            using_def_sites(model, library, module.as_str(), name.as_str()),
        ),
        Resolution::WorkspaceImport => Definition::OnDisk(no_sites()),
        Resolution::Unresolved => Definition::OnDisk(no_sites()),
    }
}

/// Where the name at an offset is defined: a qualified name, an occurrence, or a
/// definition, whichever spans it first; nowhere, where none does.
pub open spec fn definition_at(
    s: Seq<char>,
    model: SemanticModel,
    library: Library,
    workspace: Option<&PackageIndex>,
    uri: Seq<char>,
    offset: u32,
    encoding: PositionEncoding,
) -> DefinitionView {
    let read = first_index(model.qualified_reads@, read_spans(offset));
    let ident = first_index(model.idents@, ident_spans(offset));
    let binding = first_index(model.bindings@, binding_spans(offset));
    if read < model.qualified_reads.len() {
        DefinitionView::OnDisk(
            qualified_sites(library, workspace, model.qualified_reads@[read].path.deep_view()),
        )
    } else if ident < model.idents.len() {
        let i = model.idents@[ident];
        match i.binding {
            Some(id) => DefinitionView::Here(
                locations_in(s, uri, binding_ranges(model, id), encoding),
            ),
            None => free_definition(s, model, library, workspace, uri, i.resolution, encoding),
        }
    } else if binding < model.bindings.len() {
        DefinitionView::Here(
            locations_in(s, uri, binding_ranges(model, binding as usize), encoding),
        )
    } else {
        DefinitionView::OnDisk(Seq::empty())
    }
}

/// Where the name at `offset` is defined.
pub fn definition_for(
    model: &SemanticModel,
    library: &Library,
    workspace: Option<&PackageIndex>,
    uri: &str,
    line_index: &LineIndex,
    offset: u32,
    encoding: PositionEncoding,
) -> (r: Definition)
    requires
        model.wf(),
        line_index.wf(),
    ensures
        r.deep_view() == definition_at(
            line_index@,
            *model,
            *library,
            workspace,
            uri@,
            offset,
            encoding,
        ),
{
    let read = model.qualified_at(offset);
    if read < model.qualified_reads.len() {
        return Definition::OnDisk(
            qualified_locations(&model.qualified_reads[read], library, workspace),
        );
    }
    let ident = model.ident_at(offset);
    if ident < model.idents.len() {
        let ident = &model.idents[ident];
        return match ident.binding {
            Some(id) => Definition::Here(binding_locations(model, uri, id, line_index, encoding)),
            None => free_read_locations(
                model,
                library,
                workspace,
                uri,
                &ident.resolution,
                line_index,
                encoding,
            ),
        };
    }
    let binding = model.binding_at(offset);
    if binding < model.bindings.len() {
        return Definition::Here(binding_locations(model, uri, binding, line_index, encoding));
    }
    Definition::OnDisk(no_sites())
}

/// Where what is at an offset is defined: where a reference in the Markdown of a
/// docstring leads, or else where the name there is defined.
pub open spec fn definition_in(
    s: Seq<char>,
    model: SemanticModel,
    library: Library,
    workspace: Option<&PackageIndex>,
    docs: Seq<DocText>,
    uri: Seq<char>,
    offset: u32,
    encoding: PositionEncoding,
) -> DefinitionView {
    match markdown_target(docs, offset) {
        Some(range) => DefinitionView::Here(locations_in(s, uri, seq![range], encoding)),
        None => definition_at(s, model, library, workspace, uri, offset, encoding),
    }
}

/// Where what is at `position` of `text` is defined. `docs` are the docstrings of
/// the text.
pub fn compute_definition(
    uri: &str,
    text: &str,
    position: Position,
    model: &SemanticModel,
    library: &Library,
    workspace: Option<&PackageIndex>,
    docs: &Vec<DocText>,
    encoding: PositionEncoding,
) -> (r: Definition)
    requires
        model.wf(),
        fits(text@),
        docs_wf(docs@),
    ensures
        r.deep_view() == definition_in(
            text@,
            *model,
            *library,
            workspace,
            docs@,
            uri@,
            offset_at(text@, position, encoding) as u32,
            encoding,
        ),
{
    let line_index = LineIndex::new(text);
    proof {
        lemma_offset_bounded(text@, position, encoding);
    }
    let offset = line_index.position_to_byte(position, encoding) as u32;
    match markdown_definition(docs, offset) {
        Some(range) => {
            let here = Location {
                uri: uri.to_owned(),
                range: line_index.range(range.start as usize, range.end as usize, encoding),
            };
            let locations = vec![here];
            proof {
                assert(locations.deep_view() =~= locations_in(text@, uri@, seq![range], encoding));
            }
            Definition::Here(locations)
        },
        None => definition_for(model, library, workspace, uri, &line_index, offset, encoding),
    }
}

/// Where a site begins in its file.
pub open spec fn span_start() -> spec_fn(DefSiteView) -> int {
    |site: DefSiteView| site.span.start as int
}

/// The paths of sites.
pub open spec fn paths_of(sites: Seq<DefSiteView>) -> Seq<Seq<Seq<char>>> {
    Seq::new(sites.len(), |i: int| sites[i].path)
}

/// How many of a number of paths come before that of a site.
pub open spec fn path_key(paths: Seq<Seq<Seq<char>>>) -> spec_fn(DefSiteView) -> int {
    |site: DefSiteView| path_rank(paths, site.path) as int
}

/// Sites by path, then by where they begin, without repeats.
pub open spec fn sites_in_order(sites: Seq<DefSiteView>) -> Seq<DefSiteView> {
    let placed = stable_sorted(sites, span_start());
    squeezed(stable_sorted(placed, path_key(paths_of(placed))))
}

proof fn lemma_squeezed<T>(s: Seq<T>, key: spec_fn(T) -> int)
    requires
        ascending(s, key),
    ensures
        ascending(squeezed(s), key),
        s.len() > 0 ==> squeezed(s).len() > 0 && squeezed(s).last() == s.last(),
        forall|j: int| 0 <= j < squeezed(s).len() ==> s.contains(#[trigger] squeezed(s)[j]),
    decreases s.len(),
{
    if s.len() > 0 {
        let t = s.drop_last();
        assert forall|a: int, b: int| 0 <= a <= b < t.len() implies key(#[trigger] t[a]) <= key(
            #[trigger] t[b],
        ) by {
            assert(t[a] == s[a] && t[b] == s[b]);
        }
        lemma_squeezed(t, key);
        let before = squeezed(t);
        let r = squeezed(s);
        assert forall|a: int, b: int| 0 <= a <= b < r.len() implies key(#[trigger] r[a]) <= key(
            #[trigger] r[b],
        ) by {
            if b == before.len() && a < b {
                assert(t.len() > 0);
                assert(key(before[a]) <= key(before[before.len() - 1]));
                assert(before[before.len() - 1] == s[s.len() - 2]);
                assert(key(s[s.len() - 2]) <= key(s[s.len() - 1]));
            } else if b < before.len() {
                assert(r[a] == before[a] && r[b] == before[b]);
            }
        }
        assert forall|j: int| 0 <= j < r.len() implies s.contains(#[trigger] r[j]) by {
            if j < before.len() {
                assert(t.contains(before[j]));
                let k = choose|k: int| 0 <= k < t.len() && t[k] == before[j];
                assert(s[k] == r[j]);
            } else {
                assert(s[s.len() - 1] == r[j]);
            }
        }
    }
}

/// Definitions in the sources of packages come file by file, in the order of the
/// files' paths.
pub proof fn law_definitions_by_path(sites: Seq<DefSiteView>, i: int, j: int)
    requires
        0 <= i < j < sites_in_order(sites).len(),
    ensures
        sites_in_order(sites)[i].path == sites_in_order(sites)[j].path || path_less(
            sites_in_order(sites)[i].path,
            sites_in_order(sites)[j].path,
        ),
{
    let placed = stable_sorted(sites, span_start());
    let key = path_key(paths_of(placed));
    let sorted = stable_sorted(placed, key);
    let all = sites_in_order(sites);
    law_sorted(placed, key);
    lemma_squeezed(sorted, key);
    assert(key(all[i]) <= key(all[j]));
    lemma_path_listed(placed, sorted, all[i]);
    lemma_path_listed(placed, sorted, all[j]);
    law_path_ranks(paths_of(placed), all[i].path, all[j].path);
}

proof fn lemma_path_listed(placed: Seq<DefSiteView>, sorted: Seq<DefSiteView>, site: DefSiteView)
    requires
        sorted.to_multiset() == placed.to_multiset(),
        sorted.contains(site),
    ensures
        paths_of(placed).contains(site.path),
{
    vstd::seq_lib::to_multiset_contains(sorted, site);
    vstd::seq_lib::to_multiset_contains(placed, site);
    let k = choose|k: int| 0 <= k < placed.len() && placed[k] == site;
    assert(paths_of(placed)[k] == site.path);
}

/// Puts sites in order, by path, then by where they begin, without repeats.
pub fn order_sites(sites: Vec<DefSite>) -> (r: Vec<DefSite>)
    ensures
        r.deep_view() == sites_in_order(sites.deep_view()),
{
    let mut keys: Vec<u64> = Vec::new();
    let mut i: usize = 0;
    while i < sites.len()
        invariant
            i <= sites.len(),
            keys.len() == i,
            forall|k: int|
                0 <= k < i ==> #[trigger] keys@[k] == span_start()(sites.deep_view()[k]),
        decreases sites.len() - i,
    {
        keys.push(sites[i].span.start as u64);
        i = i + 1;
    }
    let placed = sort_stable(sites, keys, Ghost(span_start()));
    let ghost paths = paths_of(placed.deep_view());
    let mut listed: Vec<&FilePath> = Vec::new();
    let mut j: usize = 0;
    while j < placed.len()
        invariant
            j <= placed.len(),
            listed.len() == j,
            forall|k: int|
                0 <= k < j ==> (#[trigger] listed@[k]).deep_view() == placed@[k].path.deep_view(),
        decreases placed.len() - j,
    {
        listed.push(&placed[j].path);
        j = j + 1;
    }
    proof {
        assert(Seq::new(listed.len() as nat, |i: int| listed@[i].deep_view()) =~= paths);
    }
    let mut ranks: Vec<u64> = Vec::new();
    let mut k: usize = 0;
    while k < placed.len()
        invariant
            k <= placed.len(),
            paths == paths_of(placed.deep_view()),
            paths == Seq::new(listed.len() as nat, |i: int| listed@[i].deep_view()),
            ranks.len() == k,
            forall|m: int|
                0 <= m < k ==> #[trigger] ranks@[m] == path_key(paths)(placed.deep_view()[m]),
        decreases placed.len() - k,
    {
        ranks.push(rank_path(&listed, &placed[k].path));
        k = k + 1;
    }
    let mut sorted = sort_stable(placed, ranks, Ghost(path_key(paths)));
    let ghost all = sorted.deep_view();
    let n = sorted.len();
    let mut out: Vec<DefSite> = Vec::new();
    let mut m: usize = 0;
    proof {
        assert(all.take(0) =~= Seq::<DefSiteView>::empty());
        assert(out.deep_view() =~= Seq::<DefSiteView>::empty());
    }
    while m < n
        invariant
            m <= n == all.len(),
            sorted.len() == n - m,
            sorted.deep_view() == all.skip(m as int),
            out.deep_view() == squeezed(all.take(m as int)),
        decreases n - m,
    {
        let ghost rest = sorted.deep_view();
        let site = sorted.remove(0);
        proof {
            assert(rest[0] == all[m as int]);
            assert(sorted.deep_view() =~= rest.drop_first());
            assert(rest.drop_first() =~= all.skip(m + 1));
            assert(all.take(m + 1).drop_last() =~= all.take(m as int));
        }
        let count = out.len();
        let repeated = count > 0 && out[count - 1].span == site.span && out[count
            - 1].path.same(&site.path);
        let ghost before = out.deep_view();
        proof {
            if count > 0 {
                assert(before.last() == out@[count - 1].deep_view());
            }
        }
        if !repeated {
            out.push(site);
            proof {
                assert(out.deep_view() =~= before.push(all[m as int]));
            }
        }
        m = m + 1;
    }
    proof {
        assert(all.take(m as int) =~= all);
    }
    out
}

/// The text of a file on disk, with its URI.
#[derive(Debug)]
pub struct DiskFile {
    pub path: FilePath,
    pub uri: String,
    pub text: String,
}

/// That a file is at a path.
pub open spec fn is_file_at(path: Seq<Seq<char>>) -> spec_fn(DiskFile) -> bool {
    |file: DiskFile| file.path.deep_view() == path
}

/// The location of a site, where its file could be read.
pub open spec fn disk_location(files: Seq<DiskFile>, encoding: PositionEncoding) -> spec_fn(
    DefSiteView,
) -> Option<LocationView> {
    |site: DefSiteView|
        {
            let at = first_index(files, is_file_at(site.path));
            if at < files.len() {
                Some(
                    LocationView {
                        uri: files[at].uri@,
                        range: range_at(
                            files[at].text@,
                            site.span.start as int,
                            site.span.end as int,
                            encoding,
                        ),
                    },
                )
            } else {
                None
            }
        }
}

/// The locations of sites, by path, then by where they begin, given the files
/// that could be read.
pub fn site_locations(
    sites: Vec<DefSite>,
    files: &Vec<DiskFile>,
    encoding: PositionEncoding,
) -> (r: Vec<Location>)
    requires
        forall|i: int| 0 <= i < files.len() ==> fits((#[trigger] files@[i]).text@),
    ensures
        r.deep_view() == kept(
            sites_in_order(sites.deep_view()),
            disk_location(files@, encoding),
        ),
{
    let sites = order_sites(sites);
    let ghost all = sites.deep_view();
    let ghost pick = disk_location(files@, encoding);
    let mut indexes: Vec<LineIndex> = Vec::new();
    let mut f: usize = 0;
    while f < files.len()
        invariant
            forall|i: int| 0 <= i < files.len() ==> fits((#[trigger] files@[i]).text@),
            f <= files.len(),
            indexes.len() == f,
            forall|k: int|
                0 <= k < f ==> (#[trigger] indexes@[k]).wf() && indexes@[k]@ == files@[k].text@,
        decreases files.len() - f,
    {
        indexes.push(LineIndex::new(files[f].text.as_str()));
        f = f + 1;
    }
    let mut out: Vec<Location> = Vec::new();
    let mut i: usize = 0;
    proof {
        assert(all.take(0) =~= Seq::<DefSiteView>::empty());
        assert(out.deep_view() =~= Seq::<LocationView>::empty());
    }
    while i < sites.len()
        invariant
            indexes.len() == files.len(),
            forall|k: int|
                0 <= k < files.len() ==> (#[trigger] indexes@[k]).wf() && indexes@[k]@
                    == files@[k].text@,
            i <= sites.len(),
            all == sites.deep_view(),
            pick == disk_location(files@, encoding),
            out.deep_view() == kept(all.take(i as int), pick),
        decreases sites.len() - i,
    {
        proof {
            lemma_kept_step(all, pick, i as int);
        }
        let site = &sites[i];
        i = i + 1;
        let ghost here = is_file_at(site.path.deep_view());
        let mut at: usize = 0;
        while at < files.len() && !files[at].path.same(&site.path)
            invariant
                at <= files.len(),
                here == is_file_at(site.path.deep_view()),
                forall|k: int| 0 <= k < at ==> !here(#[trigger] files@[k]),
            decreases files.len() - at,
        {
            at = at + 1;
        }
        proof {
            lemma_first_index_is(files@, here, at as int);
        }
        if at < files.len() {
            let ghost before = out.deep_view();
            out.push(
                Location {
                    uri: files[at].uri.clone(),
                    range: indexes[at].range(
                        site.span.start as usize,
                        site.span.end as usize,
                        encoding,
                    ),
                },
            );
            proof {
                assert(out.deep_view() =~= before.push(out@.last().deep_view()));
            }
        }
    }
    proof {
        assert(all.take(i as int) =~= all);
    }
    out
}

/// The answer to a request for definitions: nothing, one location, or several.
#[derive(Debug)]
pub enum DefinitionReply {
    Nothing,
    Scalar(Location),
    Several(Vec<Location>),
}

/// The answer made of a number of locations: one stands alone, so that the client
/// jumps to it.
pub fn definition_reply(locations: Vec<Location>) -> (r: DefinitionReply)
    ensures
        match r {
            DefinitionReply::Nothing => locations.len() == 0,
            DefinitionReply::Scalar(location) => locations.len() == 1 && location.deep_view()
                == locations.deep_view()[0],
            DefinitionReply::Several(all) => locations.len() > 1 && all.deep_view()
                == locations.deep_view(),
        },
{
    let mut locations = locations;
    if locations.len() == 0 {
        DefinitionReply::Nothing
    } else if locations.len() == 1 {
        let ghost first = locations.deep_view()[0];
        let location = locations.remove(0);
        proof {
            assert(location.deep_view() == first);
        }
        DefinitionReply::Scalar(location)
    } else {
        DefinitionReply::Several(locations)
    }
}

/// A type of a module is defined exactly where its entry says, unless a function has
/// its name.
pub proof fn law_type_is_defined_at_its_entry(module: ModuleIndex, name: Seq<char>, i: int)
    requires
        name.len() == 0 || name[0] != '@',
        nothing_named(module.functions@, name),
        first_named(module.types@, name, i),
    ensures
        definitions_in(module, name) == seq![module.types@[i].loc],
{
    lemma_no_group(module, name);
    lemma_first_named(module.types@, name, i);
}

/// A constant of a module is defined exactly where its entry says, unless a function
/// or a type has its name.
pub proof fn law_constant_is_defined_at_its_entry(module: ModuleIndex, name: Seq<char>, i: int)
    requires
        name.len() == 0 || name[0] != '@',
        nothing_named(module.functions@, name),
        nothing_named(module.types@, name),
        first_named(module.consts@, name, i),
    ensures
        definitions_in(module, name) == seq![module.consts@[i].loc],
{
    lemma_no_group(module, name);
    lemma_nothing_named(module.types@, name);
    lemma_first_named(module.consts@, name, i);
}

/// A macro of a module is defined exactly where its entry says.
pub proof fn law_macro_is_defined_at_its_entry(module: ModuleIndex, name: Seq<char>, i: int)
    requires
        name.len() > 0 && name[0] == '@',
        first_named(module.macros@, name, i),
    ensures
        definitions_in(module, name) == seq![module.macros@[i].loc],
{
    lemma_first_named(module.macros@, name, i);
}

/// A function of a module is defined where its methods are, at every one of them, and
/// what extends a function of that name elsewhere does not count beside it.
pub proof fn law_function_is_defined_at_every_method(module: ModuleIndex, name: Seq<char>, i: int)
    requires
        name.len() == 0 || name[0] != '@',
        0 <= i < module.functions.len(),
        module.functions@[i].name@ == name && module.functions@[i].owner is None,
        forall|k: int|
            0 <= k < i ==> (#[trigger] module.functions@[k]).name@ != name
                || module.functions@[k].owner is Some,
    ensures
        definitions_in(module, name).len() == module.functions@[i].methods.len(),
        forall|k: int|
            0 <= k < module.functions@[i].methods.len() ==> #[trigger] definitions_in(
                module,
                name,
            )[k] == module.functions@[i].methods@[k].loc,
{
    let own = crate::hover::is_own_group(name);
    assert forall|k: int| 0 <= k < i implies !own(#[trigger] module.functions@[k]) by {}
    lemma_first_index_is(module.functions@, own, i);
}

/// A module that only extends functions of a name leads to the methods with which it
/// first does.
pub proof fn law_extension_is_defined_at_its_methods(module: ModuleIndex, name: Seq<char>, i: int)
    requires
        name.len() == 0 || name[0] != '@',
        first_named(module.functions@, name, i),
        forall|k: int|
            0 <= k < module.functions.len() && (#[trigger] module.functions@[k]).name@ == name
                ==> module.functions@[k].owner is Some,
    ensures
        definitions_in(module, name).len() == module.functions@[i].methods.len(),
        forall|k: int|
            0 <= k < module.functions@[i].methods.len() ==> #[trigger] definitions_in(
                module,
                name,
            )[k] == module.functions@[i].methods@[k].loc,
{
    let own = crate::hover::is_own_group(name);
    assert forall|k: int| 0 <= k < module.functions.len() implies !own(
        #[trigger] module.functions@[k],
    ) by {}
    lemma_first_index_is(module.functions@, own, module.functions.len() as int);
    lemma_first_named(module.functions@, name, i);
}

/// A name that a module does not define has no definition there.
pub proof fn law_unknown_name_has_no_definition(module: ModuleIndex, name: Seq<char>)
    requires
        name.len() > 0 && name[0] == '@' ==> nothing_named(module.macros@, name),
        !(name.len() > 0 && name[0] == '@') ==> nothing_named(module.functions@, name)
            && nothing_named(module.types@, name) && nothing_named(module.consts@, name),
    ensures
        definitions_in(module, name).len() == 0,
{
    if name.len() > 0 && name[0] == '@' {
        lemma_nothing_named(module.macros@, name);
    } else {
        lemma_no_group(module, name);
        lemma_nothing_named(module.types@, name);
        lemma_nothing_named(module.consts@, name);
    }
}

/// Whether a module defines a name: as a macro where it has a sigil, or else as a
/// function, a type or a constant. A function without methods defines nothing, and
/// hides what has its name.
pub open spec fn defines(module: ModuleIndex, name: Seq<char>) -> bool {
    if name.len() > 0 && name[0] == '@' {
        exists|k: int| 0 <= k < module.macros.len() && (#[trigger] module.macros@[k]).name@ == name
    } else {
        &&& forall|k: int|
            0 <= k < module.functions.len() && (#[trigger] module.functions@[k]).name@ == name
                ==> module.functions@[k].methods.len() > 0
        &&& {
            ||| exists|k: int|
                0 <= k < module.functions.len() && (#[trigger] module.functions@[k]).name@ == name
            ||| exists|k: int|
                0 <= k < module.types.len() && (#[trigger] module.types@[k]).name@ == name
            ||| exists|k: int|
                0 <= k < module.consts.len() && (#[trigger] module.consts@[k]).name@ == name
        }
    }
}

/// Whatever a module defines has a definition.
pub proof fn law_defined_names_have_definitions(module: ModuleIndex, name: Seq<char>)
    requires
        defines(module, name),
    ensures
        definitions_in(module, name).len() > 0,
{
    lemma_first_index(module.macros@, has_name::<MacroDef>(name));
    lemma_first_index(module.functions@, has_name::<FunctionGroup>(name));
    lemma_first_index(module.functions@, crate::hover::is_own_group(name));
    lemma_first_index(module.types@, has_name::<TypeDef>(name));
    lemma_first_index(module.consts@, has_name::<ConstDef>(name));
    let macros = has_name::<MacroDef>(name);
    let functions = has_name::<FunctionGroup>(name);
    let types = has_name::<TypeDef>(name);
    let consts = has_name::<ConstDef>(name);
    if exists|k: int| 0 <= k < module.macros.len() && (#[trigger] module.macros@[k]).name@ == name {
        let k = choose|k: int|
            0 <= k < module.macros.len() && (#[trigger] module.macros@[k]).name@ == name;
        assert(macros(module.macros@[k]));
    }
    if exists|k: int|
        0 <= k < module.functions.len() && (#[trigger] module.functions@[k]).name@ == name {
        let k = choose|k: int|
            0 <= k < module.functions.len() && (#[trigger] module.functions@[k]).name@ == name;
        assert(functions(module.functions@[k]));
    }
    if exists|k: int| 0 <= k < module.types.len() && (#[trigger] module.types@[k]).name@ == name {
        let k = choose|k: int|
            0 <= k < module.types.len() && (#[trigger] module.types@[k]).name@ == name;
        assert(types(module.types@[k]));
    }
    if exists|k: int| 0 <= k < module.consts.len() && (#[trigger] module.consts@[k]).name@ == name {
        let k = choose|k: int|
            0 <= k < module.consts.len() && (#[trigger] module.consts@[k]).name@ == name;
        assert(consts(module.consts@[k]));
    }
    let at = group_index(module, name);
    if at < module.functions.len() {
        assert(module.functions@[at].name@ == name);
    }
}

/// Where the sources of a package are known, a module of it has one site for each
/// definition, in the file that the definition names below them, at its span.
pub proof fn law_definitions_become_sites(
    library: Library,
    package: Seq<char>,
    module: ModuleIndex,
    name: Seq<char>,
    i: int,
)
    requires
        root_of(library, package) is Some,
        0 <= i < definitions_in(module, name).len(),
    ensures
        ({
            let sites = library_sites(library, package, module, name);
            let loc = definitions_in(module, name)[i];
            &&& sites.len() == definitions_in(module, name).len()
            &&& sites[i].span == loc.range
            &&& sites[i].path == pieces_path(root_of(library, package)->0, loc.file@)
        }),
{
}

/// A name that a `using` brings in is defined where the package of the module's name
/// defines it.
pub proof fn law_using_leads_into_the_package(
    loads: Seq<ModuleLoad>,
    library: Library,
    module: Seq<char>,
    name: Seq<char>,
)
    requires
        package_of(library, module) is Some,
        root_of(library, package_of(library, module)->0.name@) is Some,
        definitions_in(package_of(library, module)->0.root, name).len() > 0,
    ensures
        ({
            let package = package_of(library, module)->0;
            using_sites(loads, library, module, name) == sites_in(
                root_of(library, package.name@)->0,
                definitions_in(package.root, name),
            )
        }),
{
}

/// Where the package of the module's name does not define it, a name is defined where
/// the module of the first load that brings it in defines it.
pub proof fn law_using_follows_the_first_load(
    loads: Seq<ModuleLoad>,
    library: Library,
    module: Seq<char>,
    name: Seq<char>,
    i: int,
)
    requires
        package_of(library, module) is None || library_sites(
            library,
            package_of(library, module)->0.name@,
            package_of(library, module)->0.root,
            name,
        ).len() == 0,
        0 <= i < loads.len(),
        load_sites(library, module, name)(loads[i]) is Some,
        forall|k: int|
            0 <= k < i ==> load_sites(library, module, name)(#[trigger] loads[k]) is None,
    ensures
        Some(using_sites(loads, library, module, name)) == load_sites(library, module, name)(
            loads[i],
        ),
{
    let find = load_sites(library, module, name);
    lemma_first_found_none(loads.take(i), find);
    lemma_first_found_step(loads, find, i);
    lemma_first_found_stays(loads, find, i + 1);
}

proof fn lemma_first_found_none(loads: Seq<ModuleLoad>, find: spec_fn(ModuleLoad) -> Option<
    Seq<DefSiteView>,
>)
    requires
        forall|k: int| 0 <= k < loads.len() ==> find(#[trigger] loads[k]) is None,
    ensures
        first_found(loads, find) is None,
    decreases loads.len(),
{
    if loads.len() > 0 {
        let front = loads.drop_last();
        assert forall|k: int| 0 <= k < front.len() implies find(#[trigger] front[k]) is None by {
            assert(front[k] == loads[k]);
        }
        lemma_first_found_none(front, find);
        assert(find(loads[loads.len() - 1]) is None);
    }
}

/// The definition of a binding is among the ranges where it is defined; those of a
/// function and of a macro hold each later method too, and no other binding has any
/// but its definition. All of them ascend.
pub proof fn law_binding_is_defined_at_its_methods(model: SemanticModel, id: usize, k: int)
    requires
        id < model.bindings.len(),
    ensures
        binding_ranges(model, id).contains(model.bindings@[id as int].def_range),
        0 <= k < model.idents.len() && model.idents@[k].binding == Some(id)
            && model.idents@[k].access == Access::Write && (model.bindings@[id as int].kind
            == BindingKind::Function || model.bindings@[id as int].kind == BindingKind::Macro)
            ==> binding_ranges(model, id).contains(model.idents@[k].range),
        model.bindings@[id as int].kind != BindingKind::Function && model.bindings@[id as int].kind
            != BindingKind::Macro ==> binding_ranges(model, id).len() == 1,
        ascending(binding_ranges(model, id), text_start()),
{
    let binding = model.bindings@[id as int];
    let own = seq![binding.def_range];
    let later = kept(model.idents@, written_at(id));
    let all = if binding.kind == BindingKind::Function || binding.kind == BindingKind::Macro {
        own + later
    } else {
        own
    };
    let sorted = stable_sorted(all, text_start());
    law_sorted(all, text_start());
    assert(all[0] == binding.def_range);
    lemma_sorted_holds(all, binding.def_range);
    lemma_squeezed_keeps(sorted, binding.def_range);
    lemma_squeezed_ascends(sorted);
    if 0 <= k < model.idents.len() && model.idents@[k].binding == Some(id) && model.idents@[k].access
        == Access::Write && all.len() == own.len() + later.len() && (binding.kind
        == BindingKind::Function || binding.kind == BindingKind::Macro) {
        let j = lemma_kept_holds(model.idents@, written_at(id), k);
        assert(all[own.len() + j] == model.idents@[k].range);
        lemma_sorted_holds(all, model.idents@[k].range);
        lemma_squeezed_keeps(sorted, model.idents@[k].range);
    }
    if all.len() == 1 {
        assert(sorted.len() == 1);
        assert(sorted.drop_last() =~= Seq::<TextRange>::empty());
        reveal_with_fuel(squeezed, 2);
    }
}

proof fn lemma_sorted_holds(all: Seq<TextRange>, range: TextRange)
    requires
        all.contains(range),
    ensures
        stable_sorted(all, text_start()).contains(range),
{
    law_sorted(all, text_start());
    vstd::seq_lib::to_multiset_contains(all, range);
    vstd::seq_lib::to_multiset_contains(stable_sorted(all, text_start()), range);
}

proof fn lemma_squeezed_keeps<T>(items: Seq<T>, item: T)
    requires
        items.contains(item),
    ensures
        squeezed(items).contains(item),
    decreases items.len(),
{
    let front = items.drop_last();
    let before = squeezed(front);
    let after = squeezed(items);
    let k = choose|k: int| 0 <= k < items.len() && items[k] == item;
    if k < front.len() {
        assert(front[k] == item);
        lemma_squeezed_keeps(front, item);
        let j = choose|j: int| 0 <= j < before.len() && before[j] == item;
        assert(after[j] == item);
    } else {
        assert(after.last() == item);
        assert(after[after.len() - 1] == item);
    }
}

proof fn lemma_squeezed_ascends(items: Seq<TextRange>)
    requires
        ascending(items, text_start()),
    ensures
        ascending(squeezed(items), text_start()),
        items.len() > 0 ==> squeezed(items).len() > 0 && squeezed(items).last() == items.last(),
    decreases items.len(),
{
    if items.len() > 0 {
        let front = items.drop_last();
        assert forall|i: int, j: int| 0 <= i <= j < front.len() implies text_start()(
            #[trigger] front[i],
        ) <= text_start()(#[trigger] front[j]) by {
            assert(text_start()(items[i]) <= text_start()(items[j]));
        }
        lemma_squeezed_ascends(front);
        let before = squeezed(front);
        let after = squeezed(items);
        if front.len() > 0 {
            assert(text_start()(items[items.len() - 2]) <= text_start()(items[items.len() - 1]));
            assert(front.last() == items[items.len() - 2]);
        }
        assert forall|i: int, j: int| 0 <= i <= j < after.len() implies text_start()(
            #[trigger] after[i],
        ) <= text_start()(#[trigger] after[j]) by {
            if j < before.len() {
                assert(text_start()(before[i]) <= text_start()(before[j]));
            } else if i < before.len() {
                assert(text_start()(before[i]) <= text_start()(before[before.len() - 1]));
            }
        }
    }
}

/// Whatever is at the cursor decides where to go: a qualified name leads along its
/// path, an occurrence that the file binds to the definitions of its binding, one
/// that it does not bind to where it resolves to, and a definition to itself with its
/// other methods.
pub proof fn law_definition_follows_what_is_there(
    s: Seq<char>,
    model: SemanticModel,
    library: Library,
    workspace: Option<&PackageIndex>,
    uri: Seq<char>,
    offset: u32,
    encoding: PositionEncoding,
    k: int,
)
    ensures
        ({
            let reads = model.qualified_reads@;
            let idents = model.idents@;
            let bindings = model.bindings@;
            let no_read = forall|i: int|
                0 <= i < reads.len() ==> !touched((#[trigger] reads[i]).range, offset);
            let no_ident = forall|i: int|
                0 <= i < idents.len() ==> !touched((#[trigger] idents[i]).range, offset);
            let no_binding = forall|i: int|
                0 <= i < bindings.len() ==> !touched((#[trigger] bindings[i]).def_range, offset);
            let answer = definition_at(s, model, library, workspace, uri, offset, encoding);
            &&& 0 <= k < reads.len() && touched(reads[k].range, offset) && (forall|i: int|
                0 <= i < k ==> !touched((#[trigger] reads[i]).range, offset)) ==> answer
                == DefinitionView::OnDisk(
                qualified_sites(library, workspace, reads[k].path.deep_view()),
            )
            &&& no_read && 0 <= k < idents.len() && touched(idents[k].range, offset) && (forall|
                i: int,
            |
                0 <= i < k ==> !touched((#[trigger] idents[i]).range, offset)) ==> answer
                == match idents[k].binding {
                Some(id) => DefinitionView::Here(
                    locations_in(s, uri, binding_ranges(model, id), encoding),
                ),
                None => free_definition(
                    s,
                    model,
                    library,
                    workspace,
                    uri,
                    idents[k].resolution,
                    encoding,
                ),
            }
            &&& no_read && no_ident && 0 <= k < bindings.len() && touched(
                bindings[k].def_range,
                offset,
            ) && (forall|i: int|
                0 <= i < k ==> !touched((#[trigger] bindings[i]).def_range, offset)) ==> answer
                == DefinitionView::Here(
                locations_in(s, uri, binding_ranges(model, k as usize), encoding),
            )
            &&& no_read && no_ident && no_binding ==> answer == DefinitionView::OnDisk(Seq::empty())
        }),
{
    let reads = model.qualified_reads@;
    let idents = model.idents@;
    let bindings = model.bindings@;
    lemma_first_index(reads, read_spans(offset));
    lemma_first_index(idents, ident_spans(offset));
    lemma_first_index(bindings, binding_spans(offset));
    if 0 <= k < reads.len() && touched(reads[k].range, offset) {
        assert(read_spans(offset)(reads[k]));
        let f = first_index(reads, read_spans(offset));
        assert(touched(reads[f].range, offset));
    }
    let r = first_index(reads, read_spans(offset));
    if r < reads.len() {
        assert(touched(reads[r].range, offset));
    }
    let i = first_index(idents, ident_spans(offset));
    if i < idents.len() {
        assert(touched(idents[i].range, offset));
    }
    if 0 <= k < idents.len() && touched(idents[k].range, offset) {
        assert(ident_spans(offset)(idents[k]));
    }
    let b = first_index(bindings, binding_spans(offset));
    if b < bindings.len() {
        assert(touched(bindings[b].def_range, offset));
    }
    if 0 <= k < bindings.len() && touched(bindings[k].def_range, offset) {
        assert(binding_spans(offset)(bindings[k]));
    }
}

/// Whether an offset is in a range or at one of its ends.
pub open spec fn touched(range: TextRange, offset: u32) -> bool {
    range.start <= offset <= range.end
}

/// A name that the file does not bind leads to where it resolves to: into the file
/// again, to the sibling that the workspace's module defines, to the methods with
/// which the workspace extends a name of Base before those of Base itself, or along a
/// `using`; one that is imported elsewhere or resolves to nothing leads nowhere.
pub proof fn law_free_name_leads_where_it_resolves(
    s: Seq<char>,
    model: SemanticModel,
    library: Library,
    workspace: Option<&PackageIndex>,
    uri: Seq<char>,
    resolution: Resolution,
    encoding: PositionEncoding,
)
    ensures
        ({
            let answer = free_definition(s, model, library, workspace, uri, resolution, encoding);
            match resolution {
                Resolution::Binding(id) => answer == DefinitionView::Here(
                    locations_in(s, uri, binding_ranges(model, id), encoding),
                ),
                Resolution::Workspace { path, name } => workspace is Some && submodule(
                    workspace->0.root,
                    path.deep_view(),
                ) is Some ==> answer == DefinitionView::OnDisk(
                    library_sites(
                        library,
                        workspace->0.name@,
                        submodule(workspace->0.root, path.deep_view())->0,
                        name@,
                    ),
                ),
                Resolution::System { module, name } => {
                    let extended = extension_sites(library, workspace, seq![module@], name@);
                    &&& answer is OnDisk
                    &&& extended.is_prefix_of(answer->OnDisk_0)
                    &&& package_of(library, module@) is Some ==> answer->OnDisk_0.skip(
                        extended.len() as int,
                    ) == library_sites(
                        library,
                        package_of(library, module@)->0.name@,
                        package_of(library, module@)->0.root,
                        name@,
                    )
                    &&& package_of(library, module@) is None ==> answer->OnDisk_0.len()
                        == extended.len()
                },
                Resolution::Using { module, name } => answer == DefinitionView::OnDisk(
                    using_sites(model.module_loads@, library, module@, name@),
                ),
                _ => answer == DefinitionView::OnDisk(Seq::empty()),
            }
        }),
{
    match resolution {
        Resolution::System { module, name } => {
            let extended = extension_sites(library, workspace, seq![module@], name@);
            let own = match package_of(library, module@) {
                Some(package) => library_sites(library, package.name@, package.root, name@),
                None => Seq::empty(),
            };
            let all = extended + own;
            assert(all.subrange(0, extended.len() as int) =~= extended);
            assert(all.skip(extended.len() as int) =~= own);
        },
        _ => {},
    }
}

/// A qualified name leads to the methods with which the workspace extends it, and
/// behind them to where the module that its path names defines it.
pub proof fn law_qualified_name_leads_along_its_path(
    library: Library,
    workspace: Option<&PackageIndex>,
    modules: Seq<Seq<char>>,
    name: Seq<char>,
)
    requires
        modules.len() > 0,
    ensures
        ({
            let sites = qualified_sites(library, workspace, modules.push(name));
            let extended = extension_sites(library, workspace, modules, name);
            &&& extended.is_prefix_of(sites)
            &&& match package_of(library, modules[0]) {
                Some(package) => match submodule(package.root, modules.skip(1)) {
                    Some(module) => sites.skip(extended.len() as int) == library_sites(
                        library,
                        package.name@,
                        module,
                        name,
                    ),
                    None => sites.len() == extended.len(),
                },
                None => sites.len() == extended.len(),
            }
        }),
{
    let path = modules.push(name);
    assert(path.drop_last() =~= modules);
    let sites = qualified_sites(library, workspace, path);
    let extended = extension_sites(library, workspace, modules, name);
    assert(sites.subrange(0, extended.len() as int) =~= extended);
    match package_of(library, modules[0]) {
        Some(package) => match submodule(package.root, modules.skip(1)) {
            Some(module) => {
                assert(sites.skip(extended.len() as int) =~= library_sites(
                    library,
                    package.name@,
                    module,
                    name,
                ));
            },
            None => {},
        },
        None => {},
    }
}

/// A site whose file could be read is shown there, under the file's URI and at the
/// places of its span; one whose file could not be read is not shown.
pub proof fn law_sites_are_shown_where_files_are_read(
    files: Seq<DiskFile>,
    encoding: PositionEncoding,
    site: DefSiteView,
    i: int,
)
    ensures
        0 <= i < files.len() && files[i].path.deep_view() == site.path && (forall|k: int|
            0 <= k < i ==> (#[trigger] files[k]).path.deep_view() != site.path) ==> disk_location(
            files,
            encoding,
        )(site) == Some(
            LocationView {
                uri: files[i].uri@,
                range: range_at(
                    files[i].text@,
                    site.span.start as int,
                    site.span.end as int,
                    encoding,
                ),
            },
        ),
        (forall|k: int|
            0 <= k < files.len() ==> (#[trigger] files[k]).path.deep_view() != site.path)
            ==> disk_location(files, encoding)(site) is None,
{
    let here = is_file_at(site.path);
    lemma_first_index(files, here);
    if 0 <= i < files.len() && files[i].path.deep_view() == site.path && (forall|k: int|
        0 <= k < i ==> (#[trigger] files[k]).path.deep_view() != site.path) {
        assert forall|k: int| 0 <= k < i implies !here(#[trigger] files[k]) by {}
        lemma_first_index_is(files, here, i);
    }
}

/// The workspace's package defines a function of its own wherever the module of the path
/// has a group of that name that extends no other module's; macros do not count, nor do
/// names that no such group has.
pub proof fn law_workspace_functions_are_own_groups(
    workspace: &PackageIndex,
    path: Seq<Seq<char>>,
    name: Seq<char>,
    module: ModuleIndex,
    i: int,
)
    requires
        submodule(workspace.root, path) == Some(module),
    ensures
        0 <= i < module.functions.len() && module.functions@[i].name@ == name
            && module.functions@[i].owner is None ==> defines_function(
            Some(workspace),
            path,
            name,
            false,
        ),
        !defines_function(Some(workspace), path, name, true),
        !defines_function(None, path, name, false),
        (forall|k: int|
            0 <= k < module.functions.len() ==> (#[trigger] module.functions@[k]).name@ != name
                || module.functions@[k].owner is Some) ==> !defines_function(
            Some(workspace),
            path,
            name,
            false,
        ),
{
    let own = crate::hover::is_own_group(name);
    lemma_first_index(module.functions@, own);
    let at = first_index(module.functions@, own);
    if 0 <= i < module.functions.len() && module.functions@[i].name@ == name
        && module.functions@[i].owner is None {
        assert(own(module.functions@[i]));
    }
    if at < module.functions.len() {
        assert(module.functions@[at].name@ == name && module.functions@[at].owner is None);
    }
}

} // verus!
