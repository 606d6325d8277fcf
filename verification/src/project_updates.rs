//! Newer releases of a project's dependencies: edits of their compat bounds, and
//! hints of what the bounds allow.

use vstd::prelude::*;

use crate::call_hierarchy::{places, to_range};
use crate::code_action::{CodeAction, CodeActionKind, CodeActionView};
use crate::edits::{TextEdit, TextEditView};
use crate::index::{
    find_named, first_named, lemma_first_named, lemma_nothing_named, name_index, nothing_named,
    Named,
};
use crate::paths::FilePath;
use crate::project_navigation::{HintView, InlayHint, Tooltip, TooltipView};
use crate::search::{
    first_index, kept, lemma_first_index_is, lemma_kept_holds, lemma_kept_step,
};
use crate::sorting::{law_sorted, law_sorting_keeps_items, sort_stable, stable_sorted};
use crate::strings::{
    cat, decimal, decimal_digit, decimal_text, holds_text, lemma_decimal_value,
    lemma_pieces_separated, same_text, separated, starts_with,
};
use crate::text::{
    offset_at, position_at, range_at, slice_at, LineIndex, Position, PositionEncoding, Range, TextRange,
};

verus! {

/// A released version.
#[derive(Clone, Copy, Debug, PartialEq, Eq, Structural)]
pub struct Version {
    pub major: u64,
    pub minor: u64,
    pub patch: u64,
}

/// A version as it is written.
pub open spec fn version_text(version: Version) -> Seq<char> {
    decimal(version.major as nat) + "."@ + decimal(version.minor as nat) + "."@ + decimal(
        version.patch as nat,
    )
}

/// Whether one version comes before another.
pub open spec fn version_less(a: Version, b: Version) -> bool {
    a.major < b.major || (a.major == b.major && (a.minor < b.minor || (a.minor == b.minor
        && a.patch < b.patch)))
}

impl Version {
    /// The version as it is written.
    pub fn text(&self) -> (r: String)
        ensures
            r@ == version_text(*self),
    {
        let mut out = decimal_text(self.major);
        out.append(".");
        let minor = decimal_text(self.minor);
        out.append(minor.as_str());
        out.append(".");
        let patch = decimal_text(self.patch);
        out.append(patch.as_str());
        out
    }

    /// Whether the version comes before `other`.
    pub fn is_before(&self, other: &Version) -> (r: bool)
        ensures
            r == version_less(*self, *other),
    {
        self.major < other.major || (self.major == other.major && (self.minor < other.minor || (
        self.minor == other.minor && self.patch < other.patch)))
    }
}

/// An entry of a table of dependencies: its name, where it stands, and its UUID
/// where that is one.
#[derive(Debug)]
pub struct UuidEntry {
    pub name: String,
    pub span: TextRange,
    pub uuid: Option<u128>,
}

impl Named for UuidEntry {
    open spec fn named(&self) -> Seq<char> {
        self.name@
    }

    fn name(&self) -> (r: &str) {
        self.name.as_str()
    }
}

/// An entry of the compat table: the name with where it begins, and the bound with
/// where it stands, quotes included.
#[derive(Debug)]
pub struct CompatEntry {
    pub name: String,
    pub start: u32,
    pub bound: String,
    pub span: TextRange,
}

/// The tables of a project file.
#[derive(Debug)]
pub struct ProjectTables {
    pub compat: Vec<CompatEntry>,
    pub sources: Vec<String>,
    pub deps: Vec<UuidEntry>,
    pub weakdeps: Vec<UuidEntry>,
    pub extras: Vec<UuidEntry>,
}

/// A dependency whose bound can be edited.
#[derive(Debug)]
pub struct Target {
    pub uuid: u128,
    pub name: String,
    pub bound: String,
    pub span: TextRange,
}

/// What a [`Target`] says.
pub struct TargetView {
    pub uuid: u128,
    pub name: Seq<char>,
    pub bound: Seq<char>,
    pub span: TextRange,
}

impl DeepView for Target {
    type V = TargetView;

    open spec fn deep_view(&self) -> TargetView {
        TargetView { uuid: self.uuid, name: self.name@, bound: self.bound@, span: self.span }
    }
}

/// The entry of a name in a table.
pub open spec fn entry_named(name: Seq<char>) -> spec_fn(Seq<UuidEntry>) -> Option<UuidEntry> {
    |table: Seq<UuidEntry>|
        {
            let at = name_index(table, name);
            if at < table.len() {
                Some(table[at])
            } else {
                None
            }
        }
}

/// The entries of a name in the tables of dependencies.
pub open spec fn entries_of(project: ProjectTables, name: Seq<char>) -> Seq<UuidEntry> {
    kept(seq![project.deps@, project.weakdeps@, project.extras@], entry_named(name))
}

/// Whether the entries of a name agree on one UUID.
pub open spec fn agree(entries: Seq<UuidEntry>) -> bool {
    &&& entries.len() > 0
    &&& forall|i: int|
        0 <= i < entries.len() ==> (#[trigger] entries[i]).uuid is Some && entries[i].uuid
            == entries[0].uuid
}

/// Whether a span touches what lies between two bytes.
pub open spec fn overlaps(from: int, to: int, start: int, end: int) -> bool {
    start <= to && from <= end
}

/// Whether an entry touches what lies between two bytes.
pub open spec fn entry_touches(entry: UuidEntry, start: int, end: int) -> bool {
    overlaps(entry.span.start as int, entry.span.end as int, start, end)
}

/// The target of a bound: neither that of Julia itself nor that of a package with
/// a source of its own, with one UUID, and with an entry in range.
pub open spec fn target_for(project: ProjectTables, start: int, end: int) -> spec_fn(
    CompatEntry,
) -> Option<TargetView> {
    |compat: CompatEntry|
        {
            let entries = entries_of(project, compat.name@);
            let selected = overlaps(compat.start as int, compat.span.end as int, start, end)
                || exists|i: int|
                0 <= i < entries.len() && #[trigger] entry_touches(entries[i], start, end);
            if compat.name@ != "julia"@ && !project.sources.deep_view().contains(compat.name@)
                && agree(entries) && selected {
                Some(
                    TargetView {
                        uuid: entries[0].uuid->0,
                        name: compat.name@,
                        bound: compat.bound@,
                        span: compat.span,
                    },
                )
            } else {
                None
            }
        }
}

/// Where the bound of a target begins.
pub open spec fn target_start() -> spec_fn(TargetView) -> int {
    |target: TargetView| target.span.start as int
}

/// The targets in a range of a project file, in the order of the text.
pub open spec fn targets_in(
    s: Seq<char>,
    project: Option<ProjectTables>,
    range: Range,
    encoding: PositionEncoding,
) -> Seq<TargetView> {
    match project {
        Some(project) => stable_sorted(
            kept(
                project.compat@,
                target_for(
                    project,
                    offset_at(s, range.start, encoding) as int,
                    offset_at(s, range.end, encoding) as int,
                ),
            ),
            target_start(),
        ),
        None => Seq::empty(),
    }
}

fn find_entry<'p>(table: &'p Vec<UuidEntry>, name: &str, out: &mut Vec<&'p UuidEntry>)
    ensures
        match entry_named(name@)(table@) {
            Some(entry) => final(out)@.len() == old(out)@.len() + 1 && *final(out)@.last() == entry
                && final(out)@.drop_last() == old(out)@,
            None => final(out)@ == old(out)@,
        },
{
    let at = find_named(table, name);
    let ghost before = out@;
    if at < table.len() {
        out.push(&table[at]);
        proof {
            assert(out@.drop_last() =~= before);
        }
    }
}

fn find_entries<'p>(project: &'p ProjectTables, name: &str) -> (r: Vec<&'p UuidEntry>)
    ensures
        Seq::new(r.len() as nat, |i: int| *r@[i]) == entries_of(*project, name@),
{
    let ghost pick = entry_named(name@);
    let ghost tables = seq![project.deps@, project.weakdeps@, project.extras@];
    let mut out: Vec<&UuidEntry> = Vec::new();
    proof {
        assert(tables.take(0) =~= Seq::<Seq<UuidEntry>>::empty());
        lemma_kept_step(tables, pick, 0);
        lemma_kept_step(tables, pick, 1);
        lemma_kept_step(tables, pick, 2);
        assert(tables.take(3) =~= tables);
    }
    find_entry(&project.deps, name, &mut out);
    proof {
        assert(Seq::new(out.len() as nat, |i: int| *out@[i]) =~= kept(tables.take(1), pick));
    }
    let ghost first = out@;
    find_entry(&project.weakdeps, name, &mut out);
    proof {
        assert forall|i: int| 0 <= i < first.len() implies out@[i] == first[i] by {
            if out.len() > first.len() {
                assert(out@.drop_last()[i] == first[i]);
            }
        }
        assert(Seq::new(out.len() as nat, |i: int| *out@[i]) =~= kept(tables.take(2), pick));
    }
    let ghost second = out@;
    find_entry(&project.extras, name, &mut out);
    proof {
        assert forall|i: int| 0 <= i < second.len() implies out@[i] == second[i] by {
            if out.len() > second.len() {
                assert(out@.drop_last()[i] == second[i]);
            }
        }
        assert(Seq::new(out.len() as nat, |i: int| *out@[i]) =~= kept(tables.take(3), pick));
    }
    out
}

fn target_of(project: &ProjectTables, compat: &CompatEntry, start: usize, end: usize) -> (r: Option<
    Target,
>)
    ensures
        r.deep_view() == target_for(*project, start as int, end as int)(*compat),
{
    if same_text(compat.name.as_str(), "julia") || holds_text(
        &project.sources,
        compat.name.as_str(),
    ) {
        return None;
    }
    let found = find_entries(project, compat.name.as_str());
    let ghost entries = entries_of(*project, compat.name@);
    proof {
        assert forall|i: int| 0 <= i < entries.len() implies *found@[i] == #[trigger] entries[i] by {
            assert(Seq::new(found.len() as nat, |i: int| *found@[i])[i] == *found@[i]);
        }
        assert(found.len() == entries.len());
    }
    if found.len() == 0 {
        return None;
    }
    let uuid = match found[0].uuid {
        Some(uuid) => uuid,
        None => {
            proof {
                assert(entries[0].uuid is None);
            }
            return None;
        },
    };
    let ghost own = overlaps(compat.start as int, compat.span.end as int, start as int, end as int);
    let mut selected = start <= compat.span.end as usize && compat.start as usize <= end;
    let mut i: usize = 0;
    while i < found.len()
        invariant
            i <= found.len(),
            found.len() == entries.len(),
            entries == entries_of(*project, compat.name@),
            forall|i: int| 0 <= i < entries.len() ==> *found@[i] == #[trigger] entries[i],
            entries[0].uuid == Some(uuid),
            own == overlaps(
                compat.start as int,
                compat.span.end as int,
                start as int,
                end as int,
            ),
            forall|k: int| 0 <= k < i ==> (#[trigger] entries[k]).uuid == Some(uuid),
            selected == (own || exists|k: int|
                0 <= k < i && #[trigger] entry_touches(entries[k], start as int, end as int)),
        decreases found.len() - i,
    {
        let entry = found[i];
        proof {
            assert(*entry == entries[i as int]);
        }
        let same = match entry.uuid {
            Some(other) => other == uuid,
            None => false,
        };
        if !same {
            return None;
        }
        let touches = start <= entry.span.end as usize && entry.span.start as usize <= end;
        proof {
            assert(touches == entry_touches(entries[i as int], start as int, end as int));
        }
        selected = selected || touches;
        i = i + 1;
    }
    if selected {
        Some(
            Target {
                uuid,
                name: compat.name.clone(),
                bound: compat.bound.clone(),
                span: compat.span,
            },
        )
    } else {
        None
    }
}

/// The targets in `range` of a project file, given its tables where it parses.
pub fn targets(
    line_index: &LineIndex,
    project: &Option<ProjectTables>,
    range: Range,
    encoding: PositionEncoding,
) -> (r: Vec<Target>)
    requires
        line_index.wf(),
    ensures
        r.deep_view() == targets_in(line_index@, *project, range, encoding),
{
    let mut out: Vec<Target> = Vec::new();
    proof {
        assert(out.deep_view() =~= Seq::<TargetView>::empty());
    }
    let project = match project {
        Some(project) => project,
        None => {
            return out;
        },
    };
    let start = line_index.position_to_byte(range.start, encoding);
    let end = line_index.position_to_byte(range.end, encoding);
    let ghost pick = target_for(*project, start as int, end as int);
    let mut keys: Vec<u64> = Vec::new();
    let mut i: usize = 0;
    proof {
        assert(project.compat@.take(0) =~= Seq::<CompatEntry>::empty());
    }
    while i < project.compat.len()
        invariant
            i <= project.compat.len(),
            pick == target_for(*project, start as int, end as int),
            out.deep_view() == kept(project.compat@.take(i as int), pick),
            keys.len() == out.len(),
            forall|k: int|
                0 <= k < keys.len() ==> #[trigger] keys@[k] == target_start()(out.deep_view()[k]),
        decreases project.compat.len() - i,
    {
        proof {
            lemma_kept_step(project.compat@, pick, i as int);
        }
        if let Some(target) = target_of(project, &project.compat[i], start, end) {
            let ghost before = out.deep_view();
            keys.push(target.span.start as u64);
            out.push(target);
            proof {
                assert(out.deep_view() =~= before.push(out@.last().deep_view()));
            }
        }
        i = i + 1;
    }
    proof {
        assert(project.compat@.take(i as int) =~= project.compat@);
    }
    sort_stable(out, keys, Ghost(target_start()))
}

/// The releases of a package, the oldest first.
#[derive(Debug)]
pub struct PackageReleases {
    pub uuid: u128,
    pub name: String,
    pub versions: Vec<Version>,
}

/// What a bound says of a version: whether it allows it, and the bound that would
/// name it, where one can be written.
#[derive(Debug)]
pub struct Judged {
    pub version: Version,
    pub contained: bool,
    pub replacement: Option<String>,
}

/// A bound that can be read, with what it says of versions.
#[derive(Debug)]
pub struct CompatSpec {
    pub bound: String,
    pub judged: Vec<Judged>,
}

/// That releases are those of a package.
pub open spec fn is_package(uuid: u128) -> spec_fn(PackageReleases) -> bool {
    |package: PackageReleases| package.uuid == uuid
}

/// That a bound reads so.
pub open spec fn is_bound(bound: Seq<char>) -> spec_fn(CompatSpec) -> bool {
    |spec: CompatSpec| spec.bound@ == bound
}

/// That a judgement is of a version.
pub open spec fn is_of(version: Version) -> spec_fn(Judged) -> bool {
    |judged: Judged| judged.version == version
}

/// Whether a bound allows a version.
pub open spec fn allows(spec: CompatSpec, version: Version) -> bool {
    let at = first_index(spec.judged@, is_of(version));
    at < spec.judged.len() && spec.judged@[at].contained
}

/// The bound that would name a version.
pub open spec fn renamed(spec: CompatSpec, version: Version) -> Option<Seq<char>> {
    let at = first_index(spec.judged@, is_of(version));
    if at < spec.judged.len() {
        spec.judged@[at].replacement.deep_view()
    } else {
        None
    }
}

impl CompatSpec {
    fn judgement(&self, version: Version) -> (r: Option<&Judged>)
        ensures
            match r {
                Some(judged) => allows(*self, version) == judged.contained && renamed(
                    *self,
                    version,
                ) == judged.replacement.deep_view(),
                None => !allows(*self, version) && renamed(*self, version) is None,
            },
    {
        let ghost here = is_of(version);
        let mut at: usize = 0;
        while at < self.judged.len() && self.judged[at].version != version
            invariant
                at <= self.judged.len(),
                here == is_of(version),
                forall|k: int| 0 <= k < at ==> !here(#[trigger] self.judged@[k]),
            decreases self.judged.len() - at,
        {
            at = at + 1;
        }
        proof {
            lemma_first_index_is(self.judged@, here, at as int);
        }
        if at < self.judged.len() {
            Some(&self.judged[at])
        } else {
            None
        }
    }

    /// Whether the bound allows `version`.
    pub fn contains(&self, version: Version) -> (r: bool)
        ensures
            r == allows(*self, version),
    {
        match self.judgement(version) {
            Some(judged) => judged.contained,
            None => false,
        }
    }

    /// The bound that would name `version`.
    pub fn with_version(&self, version: Version) -> (r: Option<String>)
        ensures
            r.deep_view() == renamed(*self, version),
    {
        match self.judgement(version) {
            Some(judged) => match &judged.replacement {
                Some(replacement) => Some(replacement.clone()),
                None => None,
            },
            None => None,
        }
    }
}

/// The newest version that a bound allows.
pub open spec fn newest(versions: Seq<Version>, spec: CompatSpec) -> Option<Version>
    decreases versions.len(),
{
    if versions.len() == 0 {
        None
    } else if allows(spec, versions.last()) {
        Some(versions.last())
    } else {
        newest(versions.drop_last(), spec)
    }
}

/// The newest version of `versions` that `spec` allows.
pub fn newest_allowed(versions: &Vec<Version>, spec: &CompatSpec) -> (r: Option<Version>)
    ensures
        r == newest(versions@, *spec),
{
    let mut i: usize = versions.len();
    proof {
        assert(versions@.take(i as int) =~= versions@);
    }
    while i > 0
        invariant
            i <= versions.len(),
            newest(versions@, *spec) == newest(versions@.take(i as int), *spec),
        decreases i,
    {
        proof {
            assert(versions@.take(i as int).drop_last() =~= versions@.take(i - 1));
        }
        i = i - 1;
        if spec.contains(versions[i]) {
            return Some(versions[i]);
        }
    }
    None
}

/// The version that is hinted at is a release that the bound allows, and the
/// bound allows no release behind it.
pub proof fn law_newest_is_allowed(versions: Seq<Version>, spec: CompatSpec) -> (at: int)
    ensures
        match newest(versions, spec) {
            Some(version) => {
                &&& 0 <= at < versions.len()
                &&& versions[at] == version
                &&& allows(spec, version)
                &&& forall|i: int| at < i < versions.len() ==> !allows(spec, #[trigger] versions[i])
            },
            None => forall|i: int|
                0 <= i < versions.len() ==> !allows(spec, #[trigger] versions[i]),
        },
    decreases versions.len(),
{
    if versions.len() == 0 || allows(spec, versions.last()) {
        versions.len() - 1
    } else {
        let at = law_newest_is_allowed(versions.drop_last(), spec);
        assert forall|i: int| 0 <= i < versions.len() - 1 implies versions.drop_last()[i]
            == #[trigger] versions[i] by {}
        at
    }
}

/// The quotes that a string of a project file is written in.
pub open spec fn quote_of(raw: Seq<char>) -> Seq<char> {
    if "\"\"\""@.is_prefix_of(raw) {
        "\"\"\""@
    } else if "'''"@.is_prefix_of(raw) {
        "'''"@
    } else if "'"@.is_prefix_of(raw) {
        "'"@
    } else {
        "\""@
    }
}

fn quote_for(raw: &str) -> (r: &'static str)
    ensures
        r@ == quote_of(raw@),
{
    if starts_with(raw, "\"\"\"") {
        "\"\"\""
    } else if starts_with(raw, "'''") {
        "'''"
    } else if starts_with(raw, "'") {
        "'"
    } else {
        "\""
    }
}

/// The edit that makes a bound name a version, in the quotes that it is written
/// in. None where no bound can be written, or the bound would stay the same.
pub open spec fn bound_edit(
    s: Seq<char>,
    target: TargetView,
    replacement: Option<Seq<char>>,
    encoding: PositionEncoding,
) -> Option<TextEditView> {
    let raw = match slice_at(s, target.span.start as int, target.span.end as int) {
        Some(raw) => raw,
        None => Seq::empty(),
    };
    match replacement {
        Some(replacement) => if replacement == target.bound {
            None
        } else {
            Some(
                TextEditView {
                    range: places(s, target.span, encoding),
                    new_text: quote_of(raw) + replacement + quote_of(raw),
                },
            )
        },
        None => None,
    }
}

fn edit_bound(
    line_index: &LineIndex,
    target: &Target,
    replacement: Option<String>,
    encoding: PositionEncoding,
) -> (r: Option<TextEdit>)
    requires
        line_index.wf(),
    ensures
        r.deep_view() == bound_edit(
            line_index@,
            target.deep_view(),
            replacement.deep_view(),
            encoding,
        ),
{
    let replacement = match replacement {
        Some(replacement) => replacement,
        None => {
            return None;
        },
    };
    if same_text(replacement.as_str(), target.bound.as_str()) {
        return None;
    }
    let raw = match line_index.slice(target.span.start as usize, target.span.end as usize) {
        Some(raw) => raw,
        None => String::new(),
    };
    let quote = quote_for(raw.as_str());
    let mut new_text = cat(quote, replacement.as_str());
    new_text.append(quote);
    Some(TextEdit { range: to_range(target.span, line_index, encoding), new_text })
}

/// What is known of newer releases of a dependency.
#[derive(Debug)]
pub struct DependencyUpdate {
    pub name: String,
    pub position: Position,
    pub matching: Option<Version>,
    pub latest: Version,
    pub update: Option<TextEdit>,
    pub upgrade: Option<TextEdit>,
}

/// What a [`DependencyUpdate`] says.
pub struct UpdateView {
    pub name: Seq<char>,
    pub position: Position,
    pub matching: Option<Version>,
    pub latest: Version,
    pub update: Option<TextEditView>,
    pub upgrade: Option<TextEditView>,
}

impl DeepView for DependencyUpdate {
    type V = UpdateView;

    open spec fn deep_view(&self) -> UpdateView {
        UpdateView {
            name: self.name@,
            position: self.position,
            matching: self.matching,
            latest: self.latest,
            update: self.update.deep_view(),
            upgrade: self.upgrade.deep_view(),
        }
    }
}

/// What is known of newer releases of a target: nothing where the registries do
/// not have the package under its name, its bound cannot be read, or it has no
/// release. An update stays within the bound; an upgrade leaves it, and comes only
/// where the bound does not allow the latest release.
pub open spec fn update_for(
    s: Seq<char>,
    registry: Seq<PackageReleases>,
    specs: Seq<CompatSpec>,
    encoding: PositionEncoding,
) -> spec_fn(TargetView) -> Option<UpdateView> {
    |target: TargetView|
        {
            let package = first_index(registry, is_package(target.uuid));
            let spec = first_index(specs, is_bound(target.bound));
            if package < registry.len() && registry[package].name@ == target.name && spec
                < specs.len() && registry[package].versions.len() > 0 {
                let versions = registry[package].versions@;
                let matching = newest(versions, specs[spec]);
                Some(
                    UpdateView {
                        name: target.name,
                        position: position_at(s, target.span.end as int, encoding),
                        matching,
                        latest: versions.last(),
                        update: match matching {
                            Some(version) => bound_edit(
                                s,
                                target,
                                renamed(specs[spec], version),
                                encoding,
                            ),
                            None => None,
                        },
                        upgrade: if allows(specs[spec], versions.last()) {
                            None
                        } else {
                            bound_edit(
                                s,
                                target,
                                renamed(specs[spec], versions.last()),
                                encoding,
                            )
                        },
                    },
                )
            } else {
                None
            }
        }
}

fn find_package(registry: &Vec<PackageReleases>, uuid: u128) -> (r: usize)
    ensures
        r == first_index(registry@, is_package(uuid)),
        r <= registry.len(),
{
    let ghost here = is_package(uuid);
    let mut at: usize = 0;
    while at < registry.len() && registry[at].uuid != uuid
        invariant
            at <= registry.len(),
            here == is_package(uuid),
            forall|k: int| 0 <= k < at ==> !here(#[trigger] registry@[k]),
        decreases registry.len() - at,
    {
        at = at + 1;
    }
    proof {
        lemma_first_index_is(registry@, here, at as int);
    }
    at
}

fn find_bound(specs: &Vec<CompatSpec>, bound: &str) -> (r: usize)
    ensures
        r == first_index(specs@, is_bound(bound@)),
        r <= specs.len(),
{
    let ghost here = is_bound(bound@);
    let mut at: usize = 0;
    while at < specs.len() && !same_text(specs[at].bound.as_str(), bound)
        invariant
            at <= specs.len(),
            here == is_bound(bound@),
            forall|k: int| 0 <= k < at ==> !here(#[trigger] specs@[k]),
        decreases specs.len() - at,
    {
        at = at + 1;
    }
    proof {
        lemma_first_index_is(specs@, here, at as int);
    }
    at
}

/// What is known of newer releases of targets, given the releases of the
/// registries and what the bounds say of them.
pub fn dependency_updates(
    line_index: &LineIndex,
    targets: &Vec<Target>,
    registry: &Vec<PackageReleases>,
    specs: &Vec<CompatSpec>,
    encoding: PositionEncoding,
) -> (r: Vec<DependencyUpdate>)
    requires
        line_index.wf(),
    ensures
        r.deep_view() == kept(
            targets.deep_view(),
            update_for(line_index@, registry@, specs@, encoding),
        ),
{
    let ghost pick = update_for(line_index@, registry@, specs@, encoding);
    let ghost all = targets.deep_view();
    let mut out: Vec<DependencyUpdate> = Vec::new();
    let mut i: usize = 0;
    proof {
        assert(all.take(0) =~= Seq::<TargetView>::empty());
        assert(out.deep_view() =~= Seq::<UpdateView>::empty());
    }
    while i < targets.len()
        invariant
            line_index.wf(),
            i <= targets.len(),
            all == targets.deep_view(),
            pick == update_for(line_index@, registry@, specs@, encoding),
            out.deep_view() == kept(all.take(i as int), pick),
        decreases targets.len() - i,
    {
        proof {
            lemma_kept_step(all, pick, i as int);
        }
        let target = &targets[i];
        i = i + 1;
        let package = find_package(registry, target.uuid);
        let spec = find_bound(specs, target.bound.as_str());
        if package < registry.len() && spec < specs.len() {
            let releases = &registry[package];
            let spec = &specs[spec];
            let count = releases.versions.len();
            if same_text(releases.name.as_str(), target.name.as_str()) && count > 0 {
                let latest = releases.versions[count - 1];
                let matching = newest_allowed(&releases.versions, spec);
                let update = match matching {
                    Some(version) => edit_bound(
                        line_index,
                        target,
                        spec.with_version(version),
                        encoding,
                    ),
                    None => None,
                };
                let upgrade = if spec.contains(latest) {
                    None
                } else {
                    edit_bound(line_index, target, spec.with_version(latest), encoding)
                };
                let ghost before = out.deep_view();
                out.push(
                    DependencyUpdate {
                        name: target.name.clone(),
                        position: line_index.byte_to_position(target.span.end as usize, encoding),
                        matching,
                        latest,
                        update,
                        upgrade,
                    },
                );
                proof {
                    assert(out.deep_view() =~= before.push(out@.last().deep_view()));
                }
            }
        }
    }
    proof {
        assert(all.take(i as int) =~= all);
    }
    out
}

/// The action that makes an edit of a bound.
pub open spec fn bound_action(
    kind: Seq<char>,
    name: Seq<char>,
    edit: TextEditView,
    uri: Seq<char>,
) -> CodeActionView {
    CodeActionView {
        title: kind + " `"@ + name + "` compat to "@ + edit.new_text,
        kind: CodeActionKind::RefactorRewrite,
        diagnostic: None,
        uri,
        edit,
        is_preferred: false,
    }
}

/// The actions of one dependency: the update before the upgrade.
pub open spec fn update_actions(info: UpdateView, uri: Seq<char>) -> Seq<CodeActionView> {
    let update = match info.update {
        Some(edit) => seq![bound_action("Update"@, info.name, edit, uri)],
        None => Seq::empty(),
    };
    let upgrade = match info.upgrade {
        Some(edit) => seq![bound_action("Upgrade"@, info.name, edit, uri)],
        None => Seq::empty(),
    };
    update + upgrade
}

/// The actions of dependencies.
pub open spec fn actions_of(updates: Seq<UpdateView>, uri: Seq<char>) -> Seq<CodeActionView>
    decreases updates.len(),
{
    if updates.len() == 0 {
        Seq::empty()
    } else {
        actions_of(updates.drop_last(), uri) + update_actions(updates.last(), uri)
    }
}

fn push_action(out: &mut Vec<CodeAction>, kind: &str, name: &str, edit: &TextEdit, uri: &str)
    ensures
        final(out).deep_view() == old(out).deep_view().push(
            bound_action(kind@, name@, edit.deep_view(), uri@),
        ),
{
    let ghost before = out.deep_view();
    let mut title = cat(kind, " `");
    title.append(name);
    title.append("` compat to ");
    title.append(edit.new_text.as_str());
    let edit = TextEdit { range: edit.range, new_text: edit.new_text.clone() };
    out.push(
        CodeAction {
            title,
            kind: CodeActionKind::RefactorRewrite,
            diagnostic: None,
            uri: uri.to_owned(),
            edit,
            is_preferred: false,
        },
    );
    proof {
        assert(out.deep_view() =~= before.push(out@.last().deep_view()));
    }
}

/// The actions that edit bounds for newer releases.
pub fn actions_from_updates(updates: &Vec<DependencyUpdate>, uri: &str) -> (r: Vec<CodeAction>)
    ensures
        r.deep_view() == actions_of(updates.deep_view(), uri@),
{
    let ghost all = updates.deep_view();
    let mut out: Vec<CodeAction> = Vec::new();
    let mut i: usize = 0;
    proof {
        assert(all.take(0) =~= Seq::<UpdateView>::empty());
        assert(out.deep_view() =~= Seq::<CodeActionView>::empty());
    }
    while i < updates.len()
        invariant
            i <= updates.len(),
            all == updates.deep_view(),
            out.deep_view() == actions_of(all.take(i as int), uri@),
        decreases updates.len() - i,
    {
        let info = &updates[i];
        let ghost before = out.deep_view();
        if let Some(edit) = &info.update {
            push_action(&mut out, "Update", info.name.as_str(), edit, uri);
        }
        if let Some(edit) = &info.upgrade {
            push_action(&mut out, "Upgrade", info.name.as_str(), edit, uri);
        }
        proof {
            assert(all.take(i + 1).drop_last() =~= all.take(i as int));
            assert(all[i as int] == info.deep_view());
            assert(out.deep_view() =~= before + update_actions(all[i as int], uri@));
        }
        i = i + 1;
    }
    proof {
        assert(all.take(i as int) =~= all);
    }
    out
}

/// What the hint of a dependency shows.
pub open spec fn hint_label(info: UpdateView) -> Seq<char> {
    let label = match info.matching {
        Some(version) => "v"@ + version_text(version),
        None => "no matching release"@,
    };
    if info.upgrade is Some {
        label + " → v"@ + version_text(info.latest)
    } else {
        label
    }
}

/// What the hint of a dependency says in full.
pub open spec fn hint_tooltip(info: UpdateView) -> Seq<char> {
    let release = match info.matching {
        Some(version) => "Newest stable release of "@ + info.name
            + " allowed by this compat bound: v"@ + version_text(version) + "."@,
        None => "No stable release of "@ + info.name
            + " in the local registries matches this compat bound."@,
    };
    let upgrade = if info.upgrade is Some {
        "\n\nv"@ + version_text(info.latest)
            + " is available outside the current bound; use the Upgrade code action to allow it."@
    } else {
        Seq::empty()
    };
    let update = if info.update is Some {
        "\n\nThe Update code action adjusts the bound within its existing range."@
    } else {
        Seq::empty()
    };
    release + upgrade + update
        + "\n\nBased on local registry data, not the installed version. Compatibility with Julia and other dependencies has not been resolved."@
}

/// The hint of a dependency.
pub open spec fn hint_of(info: UpdateView) -> HintView {
    HintView {
        position: info.position,
        label: hint_label(info),
        tooltip: Some(TooltipView::Plain(hint_tooltip(info))),
    }
}

/// The hint of a dependency.
pub fn version_hint(info: &DependencyUpdate) -> (r: InlayHint)
    ensures
        r.deep_view() == hint_of(info.deep_view()),
{
    let mut label = String::new();
    let mut tooltip = String::new();
    match info.matching {
        Some(version) => {
            let shown = version.text();
            label.append("v");
            label.append(shown.as_str());
            tooltip.append("Newest stable release of ");
            tooltip.append(info.name.as_str());
            tooltip.append(" allowed by this compat bound: v");
            tooltip.append(shown.as_str());
            tooltip.append(".");
        },
        None => {
            label.append("no matching release");
            tooltip.append("No stable release of ");
            tooltip.append(info.name.as_str());
            tooltip.append(" in the local registries matches this compat bound.");
        },
    }
    if info.upgrade.is_some() {
        let latest = info.latest.text();
        label.append(" → v");
        label.append(latest.as_str());
        tooltip.append("\n\nv");
        tooltip.append(latest.as_str());
        tooltip.append(
            " is available outside the current bound; use the Upgrade code action to allow it.",
        );
    }
    if info.update.is_some() {
        tooltip.append("\n\nThe Update code action adjusts the bound within its existing range.");
    }
    tooltip.append(
        "\n\nBased on local registry data, not the installed version. Compatibility with Julia and other dependencies has not been resolved.",
    );
    proof {
        assert(label@ =~= hint_label(info.deep_view()));
        assert(tooltip@ =~= hint_tooltip(info.deep_view()));
    }
    InlayHint { position: info.position, label, tooltip: Some(Tooltip::Plain(tooltip)) }
}

/// A position as one number: line before column.
pub open spec fn place_number(position: Position) -> int {
    position.line * 0x1_0000_0000 + position.character
}

fn number_of(position: Position) -> (r: u64)
    ensures
        r == place_number(position),
{
    position.line as u64 * 0x1_0000_0000 + position.character as u64
}

/// The hint of a dependency whose bound ends in a range.
pub open spec fn hint_in(range: Range) -> spec_fn(UpdateView) -> Option<HintView> {
    |info: UpdateView|
        if place_number(range.start) <= place_number(info.position) <= place_number(range.end) {
            Some(hint_of(info))
        } else {
            None
        }
}

/// The hints of the dependencies whose bounds end in `range`.
pub fn hints_from_updates(updates: &Vec<DependencyUpdate>, range: Range) -> (r: Vec<InlayHint>)
    ensures
        r.deep_view() == kept(updates.deep_view(), hint_in(range)),
{
    let ghost all = updates.deep_view();
    let ghost pick = hint_in(range);
    let start = number_of(range.start);
    let end = number_of(range.end);
    let mut out: Vec<InlayHint> = Vec::new();
    let mut i: usize = 0;
    proof {
        assert(all.take(0) =~= Seq::<UpdateView>::empty());
        assert(out.deep_view() =~= Seq::<HintView>::empty());
    }
    while i < updates.len()
        invariant
            i <= updates.len(),
            all == updates.deep_view(),
            pick == hint_in(range),
            start == place_number(range.start),
            end == place_number(range.end),
            out.deep_view() == kept(all.take(i as int), pick),
        decreases updates.len() - i,
    {
        proof {
            lemma_kept_step(all, pick, i as int);
        }
        let info = &updates[i];
        i = i + 1;
        let at = number_of(info.position);
        if start <= at && at <= end {
            let ghost before = out.deep_view();
            out.push(version_hint(info));
            proof {
                assert(out.deep_view() =~= before.push(out@.last().deep_view()));
            }
        }
    }
    proof {
        assert(all.take(i as int) =~= all);
    }
    out
}

/// Where a hint stands.
pub open spec fn hint_place() -> spec_fn(HintView) -> int {
    |hint: HintView| place_number(hint.position)
}

/// What is asked of the registries: the releases of a package under its name.
#[derive(Debug)]
pub struct ReleaseQuery {
    pub uuid: u128,
    pub name: String,
}

/// Newer releases of dependencies, as the registries of a number of depots tell
/// of them.
#[derive(Debug)]
pub struct ProjectUpdates {
    pub depots: Vec<FilePath>,
}

impl ProjectUpdates {
    /// Updates by the registries of `depots`.
    pub fn new(depots: Vec<FilePath>) -> (r: ProjectUpdates)
        ensures
            r.depots == depots,
    {
        ProjectUpdates { depots }
    }

    /// What is asked of the registries for `targets`.
    pub fn requested(&self, targets: &Vec<Target>) -> (r: Vec<ReleaseQuery>)
        ensures
            r.len() == targets.len(),
            forall|i: int|
                0 <= i < r.len() ==> (#[trigger] r@[i]).uuid == targets@[i].uuid && r@[i].name@
                    == targets@[i].name@,
    {
        let mut out: Vec<ReleaseQuery> = Vec::new();
        let mut i: usize = 0;
        while i < targets.len()
            invariant
                i <= targets.len(),
                out.len() == i,
                forall|k: int|
                    0 <= k < i ==> (#[trigger] out@[k]).uuid == targets@[k].uuid && out@[k].name@
                        == targets@[k].name@,
            decreases targets.len() - i,
        {
            out.push(ReleaseQuery { uuid: targets[i].uuid, name: targets[i].name.clone() });
            i = i + 1;
        }
        out
    }

    /// The actions that edit bounds in `range` for newer releases.
    pub fn code_actions(
        &self,
        line_index: &LineIndex,
        targets: &Vec<Target>,
        uri: &str,
        registry: &Vec<PackageReleases>,
        specs: &Vec<CompatSpec>,
        encoding: PositionEncoding,
    ) -> (r: Vec<CodeAction>)
        requires
            line_index.wf(),
        ensures
            r.deep_view() == actions_of(
                kept(
                    targets.deep_view(),
                    update_for(line_index@, registry@, specs@, encoding),
                ),
                uri@,
            ),
    {
        let updates = dependency_updates(line_index, targets, registry, specs, encoding);
        actions_from_updates(&updates, uri)
    }

    /// The hints in `range`: those of the versions that are resolved, and those of
    /// newer releases, in the order of the text.
    pub fn inlay_hints(
        &self,
        line_index: &LineIndex,
        targets: &Vec<Target>,
        range: Range,
        resolved: Vec<InlayHint>,
        registry: &Vec<PackageReleases>,
        specs: &Vec<CompatSpec>,
        encoding: PositionEncoding,
    ) -> (r: Vec<InlayHint>)
        requires
            line_index.wf(),
        ensures
            r.deep_view() == stable_sorted(
                resolved.deep_view() + kept(
                    kept(
                        targets.deep_view(),
                        update_for(line_index@, registry@, specs@, encoding),
                    ),
                    hint_in(range),
                ),
                hint_place(),
            ),
    {
        let updates = dependency_updates(line_index, targets, registry, specs, encoding);
        let mut more = hints_from_updates(&updates, range);
        let ghost a = resolved.deep_view();
        let ghost b = more.deep_view();
        let mut all = resolved;
        all.append(&mut more);
        proof {
            assert(all.deep_view() =~= a + b);
        }
        let mut keys: Vec<u64> = Vec::new();
        let mut i: usize = 0;
        while i < all.len()
            invariant
                i <= all.len(),
                keys.len() == i,
                forall|k: int|
                    0 <= k < i ==> #[trigger] keys@[k] == hint_place()(all.deep_view()[k]),
            decreases all.len() - i,
        {
            keys.push(number_of(all[i].position));
            i = i + 1;
        }
        sort_stable(all, keys, Ghost(hint_place()))
    }
}

/// A bound can be edited where it is not that of Julia itself, its package has no source
/// of its own, the entries of its name in the tables agree on one UUID, and the bound or
/// one of those entries touches the range; and nowhere else.
pub proof fn law_bounds_in_range_are_targets(
    project: ProjectTables,
    compat: CompatEntry,
    start: int,
    end: int,
    uuid: u128,
    d: int,
    w: int,
    e: int,
)
    requires
        first_named(project.deps@, compat.name@, d) || nothing_named(project.deps@, compat.name@),
        first_named(project.weakdeps@, compat.name@, w) || nothing_named(
            project.weakdeps@,
            compat.name@,
        ),
        first_named(project.extras@, compat.name@, e) || nothing_named(
            project.extras@,
            compat.name@,
        ),
    ensures
        ({
            let name = compat.name@;
            let in_deps = first_named(project.deps@, name, d);
            let in_weak = first_named(project.weakdeps@, name, w);
            let in_extras = first_named(project.extras@, name, e);
            let touches = |entry: UuidEntry| start <= entry.span.end && entry.span.start <= end;
            let one = (in_deps || in_weak || in_extras) && (in_deps ==> project.deps@[d].uuid
                == Some(uuid)) && (in_weak ==> project.weakdeps@[w].uuid == Some(uuid)) && (
            in_extras ==> project.extras@[e].uuid == Some(uuid));
            let reached = (start <= compat.span.end && compat.start <= end) || (in_deps && touches(
                project.deps@[d],
            )) || (in_weak && touches(project.weakdeps@[w])) || (in_extras && touches(
                project.extras@[e],
            ));
            let target = target_for(project, start, end)(compat);
            &&& one && reached && name != "julia"@ && !project.sources.deep_view().contains(name)
                ==> target == Some(
                TargetView { uuid, name, bound: compat.bound@, span: compat.span },
            )
            &&& name == "julia"@ || project.sources.deep_view().contains(name) || !reached
                ==> target is None
            &&& target is Some && target->0.uuid == uuid ==> one
        }),
{
    let name = compat.name@;
    let tables = seq![project.deps@, project.weakdeps@, project.extras@];
    let f = entry_named(name);
    lemma_table_entry(project.deps@, name, d);
    lemma_table_entry(project.weakdeps@, name, w);
    lemma_table_entry(project.extras@, name, e);
    let entries = entries_of(project, name);
    assert(tables.take(0) =~= Seq::<Seq<UuidEntry>>::empty());
    assert(tables.take(3) =~= tables);
    lemma_kept_step(tables, f, 0);
    lemma_kept_step(tables, f, 1);
    lemma_kept_step(tables, f, 2);
    let first: Seq<UuidEntry> = if first_named(project.deps@, name, d) {
        seq![project.deps@[d]]
    } else {
        Seq::empty()
    };
    let second: Seq<UuidEntry> = if first_named(project.weakdeps@, name, w) {
        seq![project.weakdeps@[w]]
    } else {
        Seq::empty()
    };
    let third: Seq<UuidEntry> = if first_named(project.extras@, name, e) {
        seq![project.extras@[e]]
    } else {
        Seq::empty()
    };
    assert(kept(tables.take(0), f) =~= Seq::<UuidEntry>::empty());
    assert(kept(tables.take(1), f) =~= first);
    assert(kept(tables.take(2), f) =~= first + second);
    assert(entries =~= first + second + third);
    if first.len() > 0 {
        assert(entries[0] == project.deps@[d]);
        assert(entry_touches(entries[0], start, end) == (start <= project.deps@[d].span.end
            && project.deps@[d].span.start <= end));
    }
    if second.len() > 0 {
        assert(entries[first.len() as int] == project.weakdeps@[w]);
        assert(entry_touches(entries[first.len() as int], start, end) == (start
            <= project.weakdeps@[w].span.end && project.weakdeps@[w].span.start <= end));
    }
    if third.len() > 0 {
        let at = (first.len() + second.len()) as int;
        assert(entries[at] == project.extras@[e]);
        assert(entry_touches(entries[at], start, end) == (start <= project.extras@[e].span.end
            && project.extras@[e].span.start <= end));
    }
}

proof fn lemma_table_entry(table: Seq<UuidEntry>, name: Seq<char>, i: int)
    ensures
        first_named(table, name, i) ==> entry_named(name)(table) == Some(table[i]),
        nothing_named(table, name) ==> entry_named(name)(table) is None,
        !(first_named(table, name, i) && nothing_named(table, name)),
{
    if first_named(table, name, i) {
        lemma_first_named(table, name, i);
        assert(table[i].named() == name);
    }
    if nothing_named(table, name) {
        lemma_nothing_named(table, name);
    }
}

/// What is known of a target names its latest release; where the bound allows that one,
/// it is also the one hinted at, and no upgrade is offered. An upgrade is offered where
/// the bound does not allow it and would read otherwise with it.
pub proof fn law_upgrades_leave_the_bound(
    s: Seq<char>,
    registry: Seq<PackageReleases>,
    specs: Seq<CompatSpec>,
    encoding: PositionEncoding,
    target: TargetView,
    p: int,
    b: int,
)
    requires
        0 <= p < registry.len() && registry[p].uuid == target.uuid,
        forall|k: int| 0 <= k < p ==> (#[trigger] registry[k]).uuid != target.uuid,
        0 <= b < specs.len() && specs[b].bound@ == target.bound,
        forall|k: int| 0 <= k < b ==> (#[trigger] specs[k]).bound@ != target.bound,
    ensures
        ({
            let versions = registry[p].versions@;
            let info = update_for(s, registry, specs, encoding)(target);
            let latest = versions[versions.len() - 1];
            &&& info is Some <==> registry[p].name@ == target.name && versions.len() > 0
            &&& info is Some ==> {
                &&& info->0.name == target.name
                &&& info->0.latest == latest
                &&& info->0.position == position_at(s, target.span.end as int, encoding)
                &&& allows(specs[b], latest) ==> info->0.matching == Some(latest)
                    && info->0.upgrade is None
                &&& !allows(specs[b], latest) && renamed(specs[b], latest) is Some && renamed(
                    specs[b],
                    latest,
                )->0 != target.bound ==> info->0.upgrade is Some
                &&& info->0.upgrade is Some ==> !allows(specs[b], latest)
                &&& info->0.update is Some ==> info->0.matching is Some && allows(
                    specs[b],
                    info->0.matching->0,
                )
            }
        }),
{
    let of_package = is_package(target.uuid);
    let of_bound = is_bound(target.bound);
    assert forall|k: int| 0 <= k < p implies !of_package(#[trigger] registry[k]) by {}
    assert forall|k: int| 0 <= k < b implies !of_bound(#[trigger] specs[k]) by {}
    lemma_first_index_is(registry, of_package, p);
    lemma_first_index_is(specs, of_bound, b);
    let versions = registry[p].versions@;
    let at = law_newest_is_allowed(versions, specs[b]);
}

/// A bound allows a version, and reads with it, as the first judgement of that version
/// says.
pub proof fn law_judgements_decide(spec: CompatSpec, version: Version, i: int)
    requires
        0 <= i < spec.judged.len(),
        spec.judged@[i].version == version,
        forall|k: int| 0 <= k < i ==> (#[trigger] spec.judged@[k]).version != version,
    ensures
        allows(spec, version) <==> spec.judged@[i].contained,
        renamed(spec, version) == spec.judged@[i].replacement.deep_view(),
{
    assert forall|k: int| 0 <= k < i implies !is_of(version)(#[trigger] spec.judged@[k]) by {}
    lemma_first_index_is(spec.judged@, is_of(version), i);
}

/// An edit of a bound keeps the quotes that the bound is written in, replaces the whole
/// of it, and is made exactly where a bound can be written that differs from it.
pub proof fn law_bounds_keep_their_quotes(
    s: Seq<char>,
    target: TargetView,
    replacement: Seq<char>,
    raw: Seq<char>,
    rest: Seq<char>,
    encoding: PositionEncoding,
)
    requires
        slice_at(s, target.span.start as int, target.span.end as int) == Some(raw),
        replacement != target.bound,
    ensures
        ({
            let edit = bound_edit(s, target, Some(replacement), encoding);
            &&& edit is Some
            &&& edit->0.range == range_at(
                s,
                target.span.start as int,
                target.span.end as int,
                encoding,
            )
            &&& raw == "'''"@ + rest ==> edit->0.new_text == "'''"@ + replacement + "'''"@
            &&& raw == "\"\"\""@ + rest ==> edit->0.new_text == "\"\"\""@ + replacement
                + "\"\"\""@
            &&& raw == "'"@ + rest && !(rest.len() >= 2 && rest[0] == '\'' && rest[1] == '\'')
                ==> edit->0.new_text == "'"@ + replacement + "'"@
            &&& raw == "\""@ + rest && !(rest.len() >= 2 && rest[0] == '"' && rest[1] == '"')
                ==> edit->0.new_text == "\""@ + replacement + "\""@
            &&& bound_edit(s, target, None, encoding) is None
            &&& bound_edit(s, target, Some(target.bound), encoding) is None
        }),
{
    reveal_strlit("'''");
    reveal_strlit("'");
    reveal_strlit("\"\"\"");
    reveal_strlit("\"");
    if raw == "'''"@ + rest {
        assert(raw.subrange(0, 3) =~= "'''"@);
        assert(raw[0] == '\'');
        assert("\"\"\""@[0] == '"');
        assert(!"\"\"\""@.is_prefix_of(raw));
    }
    if raw == "\"\"\""@ + rest {
        assert(raw.subrange(0, 3) =~= "\"\"\""@);
    }
    if raw == "'"@ + rest && !(rest.len() >= 2 && rest[0] == '\'' && rest[1] == '\'') {
        assert(raw.subrange(0, 1) =~= "'"@);
        assert(raw[0] == '\'');
        assert("\"\"\""@[0] == '"');
        assert(!"\"\"\""@.is_prefix_of(raw));
        if "'''"@.is_prefix_of(raw) {
            assert("'''"@[1] == raw[1] && "'''"@[2] == raw[2]);
        }
    }
    if raw == "\""@ + rest && !(rest.len() >= 2 && rest[0] == '"' && rest[1] == '"') {
        assert(raw[0] == '"');
        if "\"\"\""@.is_prefix_of(raw) {
            assert("\"\"\""@[1] == raw[1] && "\"\"\""@[2] == raw[2]);
        }
        if "'''"@.is_prefix_of(raw) {
            assert("'''"@[0] == raw[0]);
        }
        if "'"@.is_prefix_of(raw) {
            assert("'"@[0] == raw[0]);
        }
    }
}

/// The hint of a dependency shows the newest release that its bound allows, and the
/// latest of all behind an arrow exactly where an upgrade is offered.
pub proof fn law_hints_show_the_releases(info: UpdateView)
    ensures
        ({
            let hint = hint_of(info);
            let shown = if info.matching is Some {
                "v"@ + version_text(info.matching->0)
            } else {
                "no matching release"@
            };
            &&& hint.position == info.position
            &&& info.upgrade is None ==> hint.label == shown
            &&& info.upgrade is Some ==> hint.label == shown + " → v"@ + version_text(info.latest)
        }),
{
}

/// Every dependency whose bound ends in the range has its hint, those at an edge too.
pub proof fn law_bounds_in_range_are_hinted(updates: Seq<UpdateView>, range: Range, k: int)
    requires
        0 <= k < updates.len(),
    ensures
        ({
            let at = updates[k].position;
            let before = |a: Position, b: Position|
                a.line < b.line || (a.line == b.line && a.character <= b.character);
            before(range.start, at) && before(at, range.end) ==> kept(
                updates,
                hint_in(range),
            ).contains(hint_of(updates[k]))
        }),
{
    let at = updates[k].position;
    let before = |a: Position, b: Position|
        a.line < b.line || (a.line == b.line && a.character <= b.character);
    if before(range.start, at) && before(at, range.end) {
        assert(place_number(range.start) <= place_number(at) <= place_number(range.end));
        let j = lemma_kept_holds(updates, hint_in(range), k);
    }
}

/// Every update and every upgrade that is known is offered as an action, which makes its
/// edit and is called by what it does and by the bound it writes; and nothing else is.
pub proof fn law_updates_and_upgrades_are_offered(updates: Seq<UpdateView>, uri: Seq<char>, k: int)
    ensures
        ({
            let actions = actions_of(updates, uri);
            let action = |verb: Seq<char>, name: Seq<char>, edit: TextEditView|
                CodeActionView {
                    title: verb + " `"@ + name + "` compat to "@ + edit.new_text,
                    kind: CodeActionKind::RefactorRewrite,
                    diagnostic: None,
                    uri,
                    edit,
                    is_preferred: false,
                };
            &&& 0 <= k < updates.len() && updates[k].update is Some ==> actions.contains(
                action("Update"@, updates[k].name, updates[k].update->0),
            )
            &&& 0 <= k < updates.len() && updates[k].upgrade is Some ==> actions.contains(
                action("Upgrade"@, updates[k].name, updates[k].upgrade->0),
            )
            &&& (forall|i: int|
                0 <= i < updates.len() ==> (#[trigger] updates[i]).update is None
                    && updates[i].upgrade is None) ==> actions.len() == 0
        }),
    decreases updates.len(),
{
    if updates.len() > 0 {
        let front = updates.drop_last();
        law_updates_and_upgrades_are_offered(front, uri, k);
        let before = actions_of(front, uri);
        let own = update_actions(updates.last(), uri);
        let actions = actions_of(updates, uri);
        assert forall|x: CodeActionView| before.contains(x) implies actions.contains(x) by {
            let j = choose|j: int| 0 <= j < before.len() && before[j] == x;
            assert(actions[j] == x);
        }
        if k == updates.len() - 1 {
            let info = updates[k];
            if info.update is Some {
                let edit = info.update->0;
                assert(actions[before.len() as int] == bound_action(
                    "Update"@,
                    info.name,
                    edit,
                    uri,
                ));
            }
            if info.upgrade is Some {
                let edit = info.upgrade->0;
                assert(actions[actions.len() - 1] == bound_action(
                    "Upgrade"@,
                    info.name,
                    edit,
                    uri,
                ));
            }
        } else if 0 <= k < updates.len() {
            assert(front[k] == updates[k]);
        }
        if forall|i: int|
            0 <= i < updates.len() ==> (#[trigger] updates[i]).update is None
                && updates[i].upgrade is None {
            assert forall|i: int| 0 <= i < front.len() implies front[i] == updates[i] by {}
            assert(updates[updates.len() - 1].update is None);
        }
    }
}

/// Versions that differ are written differently.
pub proof fn law_versions_are_told_apart(a: Version, b: Version)
    requires
        version_text(a) == version_text(b),
    ensures
        a == b,
{
    reveal_strlit(".");
    lemma_version_parts(a);
    lemma_version_parts(b);
    let x = version_parts(a);
    let y = version_parts(b);
    lemma_decimal_holds_no_dot(a.major as nat);
    lemma_decimal_holds_no_dot(a.minor as nat);
    lemma_decimal_holds_no_dot(a.patch as nat);
    lemma_decimal_holds_no_dot(b.major as nat);
    lemma_decimal_holds_no_dot(b.minor as nat);
    lemma_decimal_holds_no_dot(b.patch as nat);
    lemma_pieces_separated(x, '.');
    lemma_pieces_separated(y, '.');
    assert(seq!['.'] =~= "."@);
    assert(x[0] == y[0] && x[1] == y[1] && x[2] == y[2]);
    lemma_decimal_value(a.major as nat);
    lemma_decimal_value(a.minor as nat);
    lemma_decimal_value(a.patch as nat);
    lemma_decimal_value(b.major as nat);
    lemma_decimal_value(b.minor as nat);
    lemma_decimal_value(b.patch as nat);
}

spec fn version_parts(version: Version) -> Seq<Seq<char>> {
    seq![
        decimal(version.major as nat),
        decimal(version.minor as nat),
        decimal(version.patch as nat),
    ]
}

proof fn lemma_version_parts(version: Version)
    ensures
        version_text(version) == separated(version_parts(version), "."@),
{
    let parts = version_parts(version);
    let two = parts.drop_last();
    let one = two.drop_last();
    assert(one =~= seq![parts[0]]);
    assert(two.last() == parts[1] && parts.last() == parts[2]);
    assert(separated(one, "."@) == parts[0]);
    assert(separated(two, "."@) == parts[0] + "."@ + parts[1]);
}

proof fn lemma_decimal_holds_no_dot(n: nat)
    ensures
        !decimal(n).contains('.'),
    decreases n,
{
    let digits = decimal(n);
    if n >= 10 {
        lemma_decimal_holds_no_dot(n / 10);
    }
    if digits.contains('.') {
        let i = choose|i: int| 0 <= i < digits.len() && digits[i] == '.';
        if n >= 10 && i < decimal(n / 10).len() {
            assert(decimal(n / 10)[i] == '.');
        } else {
            assert(digits[i] == decimal_digit(n % 10));
            assert((decimal_digit(n % 10) as u32) >= ('0' as u32));
        }
    }
}

/// What a hint says in full begins with the newest release that the bound allows, or
/// that there is none, and goes on about an upgrade and an update exactly where there is
/// one.
pub proof fn law_tooltips_say_what_is_offered(info: UpdateView)
    ensures
        ({
            let text = hint_tooltip(info);
            let release = if info.matching is Some {
                "Newest stable release of "@ + info.name + " allowed by this compat bound: v"@
                    + version_text(info.matching->0) + "."@
            } else {
                "No stable release of "@ + info.name
                    + " in the local registries matches this compat bound."@
            };
            let upgrade = "\n\nv"@ + version_text(info.latest)
                + " is available outside the current bound; use the Upgrade code action to allow it."@;
            let update = "\n\nThe Update code action adjusts the bound within its existing range."@;
            &&& release.is_prefix_of(text)
            &&& info.upgrade is Some ==> (release + upgrade).is_prefix_of(text)
            &&& info.upgrade is None && info.update is Some ==> (release + update).is_prefix_of(text)
            &&& info.upgrade is Some && info.update is Some ==> (release + upgrade
                + update).is_prefix_of(text)
        }),
{
    let text = hint_tooltip(info);
    let release = if info.matching is Some {
        "Newest stable release of "@ + info.name + " allowed by this compat bound: v"@
            + version_text(info.matching->0) + "."@
    } else {
        "No stable release of "@ + info.name
            + " in the local registries matches this compat bound."@
    };
    let upgrade = "\n\nv"@ + version_text(info.latest)
        + " is available outside the current bound; use the Upgrade code action to allow it."@;
    let update = "\n\nThe Update code action adjusts the bound within its existing range."@;
    assert(text.subrange(0, release.len() as int) =~= release);
    if info.upgrade is Some {
        let both = release + upgrade;
        assert(text.subrange(0, both.len() as int) =~= both);
        if info.update is Some {
            let all = both + update;
            assert(text.subrange(0, all.len() as int) =~= all);
        }
    } else if info.update is Some {
        let both = release + update;
        assert(text.subrange(0, both.len() as int) =~= both);
    }
}

/// Every bound that is a target is among the targets of its range, and they come in the
/// order of the text; a file that does not parse has none.
pub proof fn law_targets_come_in_the_order_of_the_text(
    s: Seq<char>,
    project: ProjectTables,
    range: Range,
    encoding: PositionEncoding,
    k: int,
)
    ensures
        ({
            let all = targets_in(s, Some(project), range, encoding);
            let target = |compat: CompatEntry|
                target_for(
                    project,
                    offset_at(s, range.start, encoding) as int,
                    offset_at(s, range.end, encoding) as int,
                )(compat);
            &&& targets_in(s, None, range, encoding).len() == 0
            &&& 0 < k < all.len() ==> all[k - 1].span.start <= all[k].span.start
            &&& 0 <= k < project.compat.len() && target(project.compat@[k]) is Some
                ==> all.contains(target(project.compat@[k])->0)
        }),
{
    let f = target_for(
        project,
        offset_at(s, range.start, encoding) as int,
        offset_at(s, range.end, encoding) as int,
    );
    let found = kept(project.compat@, f);
    let all = targets_in(s, Some(project), range, encoding);
    law_sorted(found, target_start());
    if 0 < k < all.len() {
        assert(target_start()(all[k - 1]) <= target_start()(all[k]));
    }
    if 0 <= k < project.compat.len() && f(project.compat@[k]) is Some {
        let j = lemma_kept_holds(project.compat@, f, k);
        assert(found.contains(found[j]));
        law_sorting_keeps_items(found, target_start(), found[j]);
    }
}

} // verus!
