//! What the workspace is made of: its roots, their environments, and which package
//! a changed file belongs to.

use vstd::prelude::*;

use crate::graph_diagnostics::{
    holds_path, is_report_on, order_reports, reports_in_order, FileDiagnostics, FileDiagnosticsView,
};
use crate::paths::FilePath;
use crate::rename_files::{path_of, path_of_parts, uri_parts_of};
use crate::search::{first_index, lemma_first_index, lemma_first_index_is};
use crate::strings::{byte_len, cat, decimal, decimal_text, same_text};

verus! {

/// The URIs that name the roots: the folders of the workspace, or else the one
/// root.
pub open spec fn root_uris(folders: Option<Vec<String>>, root: Option<String>) -> Seq<Seq<char>> {
    if folders is Some && folders->0.len() > 0 {
        folders->0.deep_view()
    } else {
        match root {
            Some(root) => seq![root@],
            None => Seq::empty(),
        }
    }
}

/// The paths that URIs name, each once, in their order. A URI that names no file
/// adds none.
pub open spec fn paths_named(uris: Seq<Seq<char>>) -> Seq<Seq<Seq<char>>>
    decreases uris.len(),
{
    if uris.len() == 0 {
        Seq::empty()
    } else {
        let before = paths_named(uris.drop_last());
        match path_of_parts(uri_parts_of(uris.last())) {
            Some(path) => if before.contains(path) {
                before
            } else {
                before.push(path)
            },
            None => before,
        }
    }
}

/// No root is listed twice.
pub proof fn law_roots_differ(uris: Seq<Seq<char>>, i: int, j: int)
    requires
        0 <= i < j < paths_named(uris).len(),
    ensures
        paths_named(uris)[i] != paths_named(uris)[j],
    decreases uris.len(),
{
    let before = paths_named(uris.drop_last());
    if j < before.len() {
        law_roots_differ(uris.drop_last(), i, j);
    } else {
        assert(paths_named(uris)[i] == before[i]);
    }
}

fn add_root(out: &mut Vec<FilePath>, uri: &str)
    requires
        byte_len(uri@) <= i32::MAX,
    ensures
        final(out).deep_view() == match path_of_parts(uri_parts_of(uri@)) {
            Some(path) => if old(out).deep_view().contains(path) {
                old(out).deep_view()
            } else {
                old(out).deep_view().push(path)
            },
            None => old(out).deep_view(),
        },
{
    let ghost before = out.deep_view();
    if let Some(path) = path_of(uri) {
        if !holds_path(out, &path) {
            out.push(path);
            proof {
                assert(out.deep_view() =~= before.push(out@.last().deep_view()));
            }
        }
    }
}

/// The roots of the workspace: every folder in the client's order, each once, or
/// else the one root where the client sent no folder.
pub fn workspace_roots(folders: &Option<Vec<String>>, root: &Option<String>) -> (r: Vec<FilePath>)
    requires
        folders is Some ==> forall|i: int|
            0 <= i < folders->0.len() ==> byte_len((#[trigger] folders->0@[i])@) <= i32::MAX,
        root is Some ==> byte_len(root->0@) <= i32::MAX,
    ensures
        r.deep_view() == paths_named(root_uris(*folders, *root)),
{
    let ghost uris = root_uris(*folders, *root);
    let mut out: Vec<FilePath> = Vec::new();
    proof {
        assert(uris.take(0) =~= Seq::<Seq<char>>::empty());
        assert(out.deep_view() =~= paths_named(uris.take(0)));
    }
    if let Some(listed) = folders {
        if listed.len() > 0 {
            let mut i: usize = 0;
            while i < listed.len()
                invariant
                    i <= listed.len(),
                    uris == listed.deep_view(),
                    forall|i: int|
                        0 <= i < listed.len() ==> byte_len((#[trigger] listed@[i])@) <= i32::MAX,
                    out.deep_view() == paths_named(uris.take(i as int)),
                decreases listed.len() - i,
            {
                proof {
                    assert(uris.take(i + 1).drop_last() =~= uris.take(i as int));
                    assert(uris[i as int] == listed@[i as int]@);
                }
                add_root(&mut out, listed[i].as_str());
                i = i + 1;
            }
            proof {
                assert(uris.take(i as int) =~= uris);
            }
            return out;
        }
    }
    if let Some(root) = root {
        proof {
            assert(uris == seq![root@]);
            assert(uris.drop_last() =~= uris.take(0));
            assert(uris.last() == root@);
        }
        add_root(&mut out, root.as_str());
        proof {
            assert(out.deep_view() == paths_named(uris));
        }
    } else {
        proof {
            assert(uris =~= uris.take(0));
        }
    }
    out
}

/// What came of resolving the environment of a root.
#[derive(Debug)]
pub enum ResolvedRoot {
    /// The root has no project.
    Nothing,
    /// Its project, with what the checks found.
    Found { project_file: FilePath, findings: Vec<FileDiagnostics> },
    /// The file at fault, with what is wrong.
    Failed(FileDiagnostics),
}

/// What a [`ResolvedRoot`] says.
pub enum ResolvedView {
    Nothing,
    Found { project_file: Seq<Seq<char>>, findings: Seq<FileDiagnosticsView> },
    Failed(FileDiagnosticsView),
}

impl DeepView for ResolvedRoot {
    type V = ResolvedView;

    open spec fn deep_view(&self) -> ResolvedView {
        match *self {
            ResolvedRoot::Nothing => ResolvedView::Nothing,
            ResolvedRoot::Found { project_file, findings } => ResolvedView::Found {
                project_file: project_file.deep_view(),
                findings: findings.deep_view(),
            },
            ResolvedRoot::Failed(report) => ResolvedView::Failed(report.deep_view()),
        }
    }
}

/// Reports with one put in place of that on its file, or behind all.
pub open spec fn put(reports: Seq<FileDiagnosticsView>, report: FileDiagnosticsView) -> Seq<
    FileDiagnosticsView,
> {
    let at = first_index(reports, is_report_on(report.path));
    if at < reports.len() {
        reports.update(at, report)
    } else {
        reports.push(report)
    }
}

/// Reports with others put in, one by one.
pub open spec fn put_all(
    reports: Seq<FileDiagnosticsView>,
    more: Seq<FileDiagnosticsView>,
) -> Seq<FileDiagnosticsView>
    decreases more.len(),
{
    if more.len() == 0 {
        reports
    } else {
        put(put_all(reports, more.drop_last()), more.last())
    }
}

/// Reports with one added, unless there is one on its file.
pub open spec fn add_missing(
    reports: Seq<FileDiagnosticsView>,
    report: FileDiagnosticsView,
) -> Seq<FileDiagnosticsView> {
    if first_index(reports, is_report_on(report.path)) < reports.len() {
        reports
    } else {
        reports.push(report)
    }
}

/// What a number of roots come to: the projects and the roots that brought them,
/// and the reports.
pub struct EnvironmentsView {
    pub projects: Seq<Seq<Seq<char>>>,
    pub roots: Seq<usize>,
    pub reports: Seq<FileDiagnosticsView>,
}

/// What the roots come to: one environment for each project, whichever root led to
/// it first, and a report on each file, that of the first failure where there are
/// several.
pub open spec fn environments_of(resolved: Seq<ResolvedView>) -> EnvironmentsView
    decreases resolved.len(),
{
    if resolved.len() == 0 {
        EnvironmentsView { projects: Seq::empty(), roots: Seq::empty(), reports: Seq::empty() }
    } else {
        let before = environments_of(resolved.drop_last());
        match resolved.last() {
            ResolvedView::Nothing => before,
            ResolvedView::Found { project_file, findings } => if before.projects.contains(
                project_file,
            ) {
                before
            } else {
                EnvironmentsView {
                    projects: before.projects.push(project_file),
                    roots: before.roots.push((resolved.len() - 1) as usize),
                    reports: put_all(before.reports, findings),
                }
            },
            ResolvedView::Failed(report) => EnvironmentsView {
                projects: before.projects,
                roots: before.roots,
                reports: add_missing(before.reports, report),
            },
        }
    }
}

/// Whether no two reports are on one file.
pub open spec fn reports_differ(reports: Seq<FileDiagnosticsView>) -> bool {
    forall|i: int, j: int|
        0 <= i < j < reports.len() ==> (#[trigger] reports[i]).path != (#[trigger] reports[j]).path
}

proof fn lemma_put_all_differ(reports: Seq<FileDiagnosticsView>, more: Seq<FileDiagnosticsView>)
    requires
        reports_differ(reports),
    ensures
        reports_differ(put_all(reports, more)),
    decreases more.len(),
{
    if more.len() > 0 {
        lemma_put_all_differ(reports, more.drop_last());
        let before = put_all(reports, more.drop_last());
        lemma_first_index(before, is_report_on(more.last().path));
    }
}

/// No project is taken twice, and no file is reported on twice.
pub proof fn law_environments_differ(resolved: Seq<ResolvedView>)
    ensures
        environments_of(resolved).projects.no_duplicates(),
        environments_of(resolved).projects.len() == environments_of(resolved).roots.len(),
        reports_differ(environments_of(resolved).reports),
    decreases resolved.len(),
{
    if resolved.len() > 0 {
        law_environments_differ(resolved.drop_last());
        let before = environments_of(resolved.drop_last());
        match resolved.last() {
            ResolvedView::Nothing => {},
            ResolvedView::Found { project_file, findings } => {
                lemma_put_all_differ(before.reports, findings);
            },
            ResolvedView::Failed(report) => {
                lemma_first_index(before.reports, is_report_on(report.path));
            },
        }
    }
}

fn find_report(reports: &Vec<FileDiagnostics>, path: &FilePath) -> (r: usize)
    ensures
        r == first_index(reports.deep_view(), is_report_on(path.deep_view())),
        r <= reports.len(),
{
    let ghost all = reports.deep_view();
    let ghost here = is_report_on(path.deep_view());
    let mut at: usize = 0;
    while at < reports.len() && !reports[at].path.same(path)
        invariant
            at <= reports.len(),
            all == reports.deep_view(),
            here == is_report_on(path.deep_view()),
            forall|k: int| 0 <= k < at ==> !here(#[trigger] all[k]),
        decreases reports.len() - at,
    {
        at = at + 1;
    }
    proof {
        lemma_first_index_is(all, here, at as int);
    }
    at
}

fn put_report(reports: &mut Vec<FileDiagnostics>, report: FileDiagnostics)
    ensures
        final(reports).deep_view() == put(old(reports).deep_view(), report.deep_view()),
{
    let ghost before = reports.deep_view();
    let at = find_report(reports, &report.path);
    if at < reports.len() {
        let ghost view = report.deep_view();
        reports.remove(at);
        reports.insert(at, report);
        proof {
            assert(reports.deep_view() =~= before.update(at as int, view));
        }
    } else {
        reports.push(report);
        proof {
            assert(reports.deep_view() =~= before.push(reports@.last().deep_view()));
        }
    }
}

fn put_reports(reports: &mut Vec<FileDiagnostics>, more: Vec<FileDiagnostics>)
    ensures
        final(reports).deep_view() == put_all(old(reports).deep_view(), more.deep_view()),
{
    let ghost start = reports.deep_view();
    let ghost all = more.deep_view();
    let mut more = more;
    let n = more.len();
    let mut i: usize = 0;
    proof {
        assert(all.take(0) =~= Seq::<FileDiagnosticsView>::empty());
        assert(all.skip(0) =~= all);
    }
    while i < n
        invariant
            i <= n == all.len(),
            more.len() == n - i,
            more.deep_view() == all.skip(i as int),
            reports.deep_view() == put_all(start, all.take(i as int)),
        decreases n - i,
    {
        let ghost rest = more.deep_view();
        let report = more.remove(0);
        proof {
            assert(report.deep_view() == rest[0]);
            assert(rest[0] == all[i as int]);
            assert(more.deep_view() =~= rest.drop_first());
            assert(rest.drop_first() =~= all.skip(i + 1));
            assert(all.take(i + 1).drop_last() =~= all.take(i as int));
        }
        put_report(reports, report);
        i = i + 1;
    }
    proof {
        assert(all.take(i as int) =~= all);
    }
}

/// The environments of the workspace: the roots that brought them, and the reports
/// on their files, by path.
#[derive(Debug)]
pub struct Environments {
    pub roots: Vec<usize>,
    pub reports: Vec<FileDiagnostics>,
}

/// The environments that the roots come to.
pub fn collect_environments(resolved: Vec<ResolvedRoot>) -> (r: Environments)
    ensures
        r.roots@ == environments_of(resolved.deep_view()).roots,
        r.reports.deep_view() == reports_in_order(environments_of(resolved.deep_view()).reports),
{
    let ghost all = resolved.deep_view();
    let mut resolved = resolved;
    let n = resolved.len();
    let mut projects: Vec<FilePath> = Vec::new();
    let mut roots: Vec<usize> = Vec::new();
    let mut reports: Vec<FileDiagnostics> = Vec::new();
    let mut i: usize = 0;
    proof {
        assert(all.take(0) =~= Seq::<ResolvedView>::empty());
        assert(all.skip(0) =~= all);
        assert(projects.deep_view() =~= Seq::<Seq<Seq<char>>>::empty());
        assert(reports.deep_view() =~= Seq::<FileDiagnosticsView>::empty());
    }
    while i < n
        invariant
            i <= n == all.len(),
            resolved.len() == n - i,
            resolved.deep_view() == all.skip(i as int),
            projects.deep_view() == environments_of(all.take(i as int)).projects,
            roots@ == environments_of(all.take(i as int)).roots,
            reports.deep_view() == environments_of(all.take(i as int)).reports,
        decreases n - i,
    {
        let ghost rest = resolved.deep_view();
        let outcome = resolved.remove(0);
        proof {
            assert(outcome.deep_view() == rest[0]);
            assert(rest[0] == all[i as int]);
            assert(resolved.deep_view() =~= rest.drop_first());
            assert(rest.drop_first() =~= all.skip(i + 1));
            assert(all.take(i + 1).drop_last() =~= all.take(i as int));
        }
        match outcome {
            ResolvedRoot::Nothing => {},
            ResolvedRoot::Found { project_file, findings } => {
                if !holds_path(&projects, &project_file) {
                    let ghost before = projects.deep_view();
                    projects.push(project_file);
                    roots.push(i);
                    put_reports(&mut reports, findings);
                    proof {
                        assert(projects.deep_view() =~= before.push(
                            projects@.last().deep_view(),
                        ));
                    }
                }
            },
            ResolvedRoot::Failed(report) => {
                if find_report(&reports, &report.path) >= reports.len() {
                    let ghost before = reports.deep_view();
                    reports.push(report);
                    proof {
                        assert(reports.deep_view() =~= before.push(reports@.last().deep_view()));
                    }
                }
            },
        }
        i = i + 1;
    }
    proof {
        assert(all.take(i as int) =~= all);
    }
    Environments { roots, reports: order_reports(reports) }
}

/// A package that is under development.
#[derive(Debug)]
pub struct DevPackage {
    pub name: String,
    pub root: FilePath,
}

/// Where the sources of packages are.
pub open spec fn source_dirs(packages: Seq<DevPackage>) -> Seq<Seq<Seq<char>>> {
    Seq::new(packages.len(), |i: int| packages[i].root.deep_view().push("src"@))
}

/// The longest directory that holds a path, the last of several.
pub open spec fn owner_of(dirs: Seq<Seq<Seq<char>>>, path: Seq<Seq<char>>) -> Option<int>
    decreases dirs.len(),
{
    if dirs.len() == 0 {
        None
    } else {
        let before = owner_of(dirs.drop_last(), path);
        if dirs.last().is_prefix_of(path) {
            match before {
                Some(at) => if dirs[at].len() <= dirs.last().len() {
                    Some(dirs.len() - 1)
                } else {
                    Some(at)
                },
                None => Some(dirs.len() - 1),
            }
        } else {
            before
        }
    }
}

/// A changed file belongs to the package whose sources hold it, the innermost where
/// packages are nested, and to none where no sources hold it.
pub proof fn law_innermost_owns(dirs: Seq<Seq<Seq<char>>>, path: Seq<Seq<char>>, i: int)
    requires
        0 <= i < dirs.len(),
        dirs[i].is_prefix_of(path),
    ensures
        owner_of(dirs, path) is Some,
        0 <= owner_of(dirs, path)->0 < dirs.len(),
        dirs[owner_of(dirs, path)->0].is_prefix_of(path),
        dirs[i].len() <= dirs[owner_of(dirs, path)->0].len(),
    decreases dirs.len(),
{
    lemma_owner_holds(dirs.drop_last(), path);
    if i < dirs.len() - 1 {
        law_innermost_owns(dirs.drop_last(), path, i);
    }
}

proof fn lemma_owner_holds(dirs: Seq<Seq<Seq<char>>>, path: Seq<Seq<char>>)
    ensures
        owner_of(dirs, path) is Some ==> 0 <= owner_of(dirs, path)->0 < dirs.len()
            && dirs[owner_of(dirs, path)->0].is_prefix_of(path),
    decreases dirs.len(),
{
    if dirs.len() > 0 {
        lemma_owner_holds(dirs.drop_last(), path);
    }
}

fn lies_in(dir: &FilePath, path: &FilePath) -> (r: bool)
    ensures
        r == dir.deep_view().is_prefix_of(path.deep_view()),
{
    if dir.parts.len() > path.parts.len() {
        return false;
    }
    let mut i: usize = 0;
    while i < dir.parts.len()
        invariant
            i <= dir.parts.len() <= path.parts.len(),
            forall|k: int| 0 <= k < i ==> dir.parts@[k]@ == #[trigger] path.parts@[k]@,
        decreases dir.parts.len() - i,
    {
        if !same_text(dir.parts[i].as_str(), path.parts[i].as_str()) {
            proof {
                assert(dir.deep_view()[i as int] != path.deep_view()[i as int]);
            }
            return false;
        }
        i = i + 1;
    }
    proof {
        assert(dir.deep_view() =~= path.deep_view().take(dir.parts.len() as int));
    }
    true
}

/// The package whose sources hold `path`.
pub fn owning_package(packages: &Vec<DevPackage>, path: &FilePath) -> (r: Option<usize>)
    ensures
        match r {
            Some(at) => owner_of(source_dirs(packages@), path.deep_view()) == Some(at as int) && at
                < packages.len(),
            None => owner_of(source_dirs(packages@), path.deep_view()) is None,
        },
{
    let ghost dirs = source_dirs(packages@);
    let mut best: Option<usize> = None;
    let mut length: usize = 0;
    let mut i: usize = 0;
    proof {
        assert(dirs.take(0) =~= Seq::<Seq<Seq<char>>>::empty());
    }
    while i < packages.len()
        invariant
            i <= packages.len(),
            dirs == source_dirs(packages@),
            match best {
                Some(at) => owner_of(dirs.take(i as int), path.deep_view()) == Some(at as int)
                    && at < i && length == dirs[at as int].len(),
                None => owner_of(dirs.take(i as int), path.deep_view()) is None,
            },
        decreases packages.len() - i,
    {
        let dir = packages[i].root.join("src");
        proof {
            assert(dirs.take(i + 1).drop_last() =~= dirs.take(i as int));
            assert(dirs[i as int] == dir.deep_view());
        }
        if lies_in(&dir, path) {
            let longer = match best {
                Some(_) => length <= dir.parts.len(),
                None => true,
            };
            if longer {
                best = Some(i);
                length = dir.parts.len();
            }
        }
        i = i + 1;
    }
    proof {
        assert(dirs.take(i as int) =~= dirs);
    }
    best
}

/// What is told to the harvester.
#[derive(Debug)]
pub enum HarvestSignal {
    /// A source file changed on disk.
    Source(FilePath),
    /// A project file or a manifest changed.
    Environment,
}

/// What the harvester does next.
#[derive(Clone, Copy, Debug, PartialEq, Eq, Structural)]
pub enum HarvestStep {
    /// Resolve every environment and harvest from scratch.
    Resolve,
    /// Harvest one package again.
    Harvest(usize),
    /// Nothing: the file belongs to no package.
    Ignore,
}

/// What is done of a signal.
pub open spec fn step_for(packages: Seq<DevPackage>, signal: HarvestSignal) -> HarvestStep {
    match signal {
        HarvestSignal::Environment => HarvestStep::Resolve,
        HarvestSignal::Source(path) => match owner_of(source_dirs(packages), path.deep_view()) {
            Some(at) => HarvestStep::Harvest(at as usize),
            None => HarvestStep::Ignore,
        },
    }
}

/// What is done of the signals that wait, and how many of them that settles: a new
/// resolve settles them all.
pub fn next_harvest(queue: &Vec<HarvestSignal>, packages: &Vec<DevPackage>) -> (r: (
    HarvestStep,
    usize,
))
    requires
        queue.len() > 0,
    ensures
        r.0 == step_for(packages@, queue@[0]),
        r.0 is Harvest ==> r.0->Harvest_0 < packages.len(),
        r.1 == (if r.0 == HarvestStep::Resolve {
            queue.len()
        } else {
            1
        }),
{
    match &queue[0] {
        HarvestSignal::Environment => (HarvestStep::Resolve, queue.len()),
        HarvestSignal::Source(path) => match owning_package(packages, path) {
            Some(at) => (HarvestStep::Harvest(at), 1),
            None => (HarvestStep::Ignore, 1),
        },
    }
}

/// The encoded index of a package as it was last sent.
#[derive(Debug)]
pub struct SentIndex {
    pub name: String,
    pub index: Vec<u8>,
}

/// The indexes that were sent since the last full harvest.
#[derive(Debug)]
pub struct SentIndexes {
    pub entries: Vec<SentIndex>,
}

/// That an entry is that of a package.
pub open spec fn is_sent(name: Seq<char>) -> spec_fn(SentIndex) -> bool {
    |entry: SentIndex| entry.name@ == name
}

/// The index of a package as it was last sent.
pub open spec fn last_sent(entries: Seq<SentIndex>, name: Seq<char>) -> Option<Seq<u8>> {
    let at = first_index(entries, is_sent(name));
    if at < entries.len() {
        Some(entries[at].index@)
    } else {
        None
    }
}

fn same_bytes(a: &Vec<u8>, b: &Vec<u8>) -> (r: bool)
    ensures
        r == (a@ == b@),
{
    if a.len() != b.len() {
        return false;
    }
    let mut i: usize = 0;
    while i < a.len()
        invariant
            i <= a.len() == b.len(),
            forall|k: int| 0 <= k < i ==> a@[k] == b@[k],
        decreases a.len() - i,
    {
        if a[i] != b[i] {
            return false;
        }
        i = i + 1;
    }
    proof {
        assert(a@ =~= b@);
    }
    true
}

impl SentIndexes {
    /// Nothing was sent.
    pub fn new() -> (r: SentIndexes)
        ensures
            forall|name: Seq<char>| #[trigger] last_sent(r.entries@, name) is None,
    {
        let r = SentIndexes { entries: Vec::new() };
        proof {
            assert forall|name: Seq<char>| #[trigger] last_sent(r.entries@, name) is None by {
                lemma_first_index(r.entries@, is_sent(name));
            }
        }
        r
    }

    /// Whether the index of package `name` is to be sent: unless it is the one that
    /// was sent last. From then on it counts as sent.
    pub fn harvested(&mut self, name: &str, index: Vec<u8>) -> (r: bool)
        ensures
            r == (last_sent(old(self).entries@, name@) != Some(index@)),
            last_sent(final(self).entries@, name@) == Some(index@),
            forall|other: Seq<char>|
                other != name@ ==> #[trigger] last_sent(final(self).entries@, other) == last_sent(
                    old(self).entries@,
                    other,
                ),
    {
        let ghost before = self.entries@;
        let ghost here = is_sent(name@);
        let mut at: usize = 0;
        while at < self.entries.len() && !same_text(self.entries[at].name.as_str(), name)
            invariant
                at <= self.entries.len(),
                before == self.entries@,
                here == is_sent(name@),
                forall|k: int| 0 <= k < at ==> !here(#[trigger] before[k]),
            decreases self.entries.len() - at,
        {
            at = at + 1;
        }
        proof {
            lemma_first_index_is(before, here, at as int);
        }
        if at < self.entries.len() {
            if same_bytes(&self.entries[at].index, &index) {
                return false;
            }
            self.entries.remove(at);
            self.entries.insert(at, SentIndex { name: name.to_owned(), index });
        } else {
            self.entries.push(SentIndex { name: name.to_owned(), index });
        }
        proof {
            let after = self.entries@;
            lemma_first_index_is(after, here, at as int);
            assert forall|other: Seq<char>| other != name@ implies #[trigger] last_sent(
                after,
                other,
            ) == last_sent(before, other) by {
                let p = is_sent(other);
                let i = first_index(before, p);
                lemma_first_index(before, p);
                if i < before.len() {
                    lemma_first_index_is(after, p, i);
                } else {
                    lemma_first_index_is(after, p, after.len() as int);
                }
            }
        }
        true
    }
}

/// What is said when `count` packages have been indexed.
pub fn indexed_message(count: u64) -> (r: String)
    ensures
        r@ == "Indexed "@ + decimal(count as nat) + " packages"@,
{
    let shown = decimal_text(count);
    let mut out = cat("Indexed ", shown.as_str());
    out.append(" packages");
    out
}

/// What is said while package `name` is indexed again.
pub fn reindexing_message(name: &str) -> (r: String)
    ensures
        r@ == "Re-indexing "@ + name@,
{
    cat("Re-indexing ", name)
}

/// What is said when package `name` has been indexed again.
pub fn reindexed_message(name: &str) -> (r: String)
    ensures
        r@ == "Re-indexed "@ + name@,
{
    cat("Re-indexed ", name)
}

/// The roots are the folders of the workspace, or the one root where the client sent no
/// folder; every one that names a file is among them, and nothing else.
pub proof fn law_every_folder_is_a_root(
    folders: Option<Vec<String>>,
    root: Option<String>,
    uris: Seq<Seq<char>>,
    i: int,
)
    ensures
        folders is Some && folders->0.len() > 0 ==> root_uris(folders, root)
            == folders->0.deep_view(),
        (folders is None || folders->0.len() == 0) && root is Some ==> root_uris(folders, root)
            == seq![root->0@],
        (folders is None || folders->0.len() == 0) && root is None ==> root_uris(
            folders,
            root,
        ).len() == 0,
        0 <= i < uris.len() && path_of_parts(uri_parts_of(uris[i])) is Some ==> paths_named(
            uris,
        ).contains(path_of_parts(uri_parts_of(uris[i]))->0),
        0 <= i < paths_named(uris).len() ==> exists|k: int|
            0 <= k < uris.len() && path_of_parts(uri_parts_of(#[trigger] uris[k])) == Some(
                paths_named(uris)[i],
            ),
    decreases uris.len(),
{
    if uris.len() > 0 {
        let front = uris.drop_last();
        law_every_folder_is_a_root(folders, root, front, i);
        let before = paths_named(front);
        let after = paths_named(uris);
        if 0 <= i < uris.len() && path_of_parts(uri_parts_of(uris[i])) is Some {
            let path = path_of_parts(uri_parts_of(uris[i]))->0;
            if i < front.len() || before.contains(path) {
                let j = choose|j: int| 0 <= j < before.len() && before[j] == path;
                assert(after[j] == path);
            } else {
                assert(after[before.len() as int] == path);
            }
        }
        if 0 <= i < after.len() {
            if i < before.len() {
                let k = choose|k: int|
                    0 <= k < front.len() && path_of_parts(uri_parts_of(#[trigger] front[k])) == Some(
                        before[i],
                    );
                assert(uris[k] == front[k]);
            } else {
                assert(path_of_parts(uri_parts_of(uris[uris.len() - 1])) == Some(after[i]));
            }
        }
    }
}

/// A change of a project resolves everything again; a change of a source file harvests
/// the package under whose `src` it lies, and is ignored where it lies under none.
pub proof fn law_changes_harvest_their_package(
    packages: Seq<DevPackage>,
    path: FilePath,
    i: int,
)
    requires
        packages.len() <= usize::MAX,
    ensures
        ({
            let step = step_for(packages, HarvestSignal::Source(path));
            let holds = |k: int|
                packages[k].root.deep_view().push("src"@).is_prefix_of(path.deep_view());
            &&& step_for(packages, HarvestSignal::Environment) == HarvestStep::Resolve
            &&& 0 <= i < packages.len() && holds(i) ==> step is Harvest && step->Harvest_0
                < packages.len() && holds(step->Harvest_0 as int)
                && packages[step->Harvest_0 as int].root.deep_view().len()
                >= packages[i].root.deep_view().len()
            &&& (forall|k: int| 0 <= k < packages.len() ==> !#[trigger] holds(k)) ==> step
                == HarvestStep::Ignore
        }),
{
    let dirs = source_dirs(packages);
    let to = path.deep_view();
    let holds = |k: int| packages[k].root.deep_view().push("src"@).is_prefix_of(to);
    if 0 <= i < packages.len() && holds(i) {
        assert(dirs[i].is_prefix_of(to));
        law_innermost_owns(dirs, to, i);
        let at = owner_of(dirs, to)->0;
        assert(dirs[at] == packages[at].root.deep_view().push("src"@));
    }
    if forall|k: int| 0 <= k < packages.len() ==> !#[trigger] holds(k) {
        assert forall|k: int| 0 <= k < dirs.len() implies !(#[trigger] dirs[k]).is_prefix_of(to) by {
            assert(!holds(k));
        }
        lemma_no_owner(dirs, to);
    }
}

proof fn lemma_no_owner(dirs: Seq<Seq<Seq<char>>>, path: Seq<Seq<char>>)
    requires
        forall|k: int| 0 <= k < dirs.len() ==> !(#[trigger] dirs[k]).is_prefix_of(path),
    ensures
        owner_of(dirs, path) is None,
    decreases dirs.len(),
{
    if dirs.len() > 0 {
        let front = dirs.drop_last();
        assert forall|k: int| 0 <= k < front.len() implies !(#[trigger] front[k]).is_prefix_of(
            path,
        ) by {
            assert(front[k] == dirs[k]);
        }
        lemma_no_owner(front, path);
        assert(!dirs[dirs.len() - 1].is_prefix_of(path));
    }
}

/// Each project that a root led to is taken, with the first root that led to it.
pub proof fn law_every_project_is_taken(resolved: Seq<ResolvedView>, i: int)
    requires
        resolved.len() <= usize::MAX,
        0 <= i < resolved.len(),
        resolved[i] is Found,
        forall|k: int|
            0 <= k < i && (#[trigger] resolved[k]) is Found ==> resolved[k]->project_file
                != resolved[i]->project_file,
    ensures
        exists|j: int|
            0 <= j < environments_of(resolved).projects.len() && (#[trigger] environments_of(
                resolved,
            ).projects[j]) == resolved[i]->project_file && environments_of(resolved).roots[j] == i,
    decreases resolved.len(),
{
    let front = resolved.drop_last();
    let before = environments_of(front);
    let after = environments_of(resolved);
    law_environments_differ(front);
    if i < front.len() {
        assert(front[i] == resolved[i]);
        assert forall|k: int|
            0 <= k < i && (#[trigger] front[k]) is Found implies front[k]->project_file
            != front[i]->project_file by {
            assert(front[k] == resolved[k]);
        }
        law_every_project_is_taken(front, i);
        let j = choose|j: int|
            0 <= j < before.projects.len() && (#[trigger] before.projects[j])
                == front[i]->project_file && before.roots[j] == i;
        assert(after.projects[j] == before.projects[j]);
        assert(after.roots[j] == before.roots[j]);
    } else {
        let project = resolved[i]->project_file;
        assert forall|k: int|
            0 <= k < front.len() && (#[trigger] front[k]) is Found implies front[k]->project_file
            != project by {
            assert(front[k] == resolved[k]);
        }
        lemma_not_taken(front, project);
        assert(after.projects[before.projects.len() as int] == project);
    }
}

proof fn lemma_not_taken(resolved: Seq<ResolvedView>, project: Seq<Seq<char>>)
    requires
        forall|k: int|
            0 <= k < resolved.len() && (#[trigger] resolved[k]) is Found
                ==> resolved[k]->project_file != project,
    ensures
        !environments_of(resolved).projects.contains(project),
    decreases resolved.len(),
{
    if resolved.len() > 0 {
        let front = resolved.drop_last();
        assert forall|k: int|
            0 <= k < front.len() && (#[trigger] front[k]) is Found implies front[k]->project_file
            != project by {
            assert(front[k] == resolved[k]);
        }
        lemma_not_taken(front, project);
        assert(resolved[resolved.len() - 1] is Found ==> resolved[resolved.len()
            - 1]->project_file != project);
        let before = environments_of(front).projects;
        let after = environments_of(resolved).projects;
        if after.contains(project) {
            let j = choose|j: int| 0 <= j < after.len() && after[j] == project;
            if j < before.len() {
                assert(before[j] == project);
            }
        }
    }
}

proof fn lemma_put_keeps(
    reports: Seq<FileDiagnosticsView>,
    report: FileDiagnosticsView,
    path: Seq<Seq<char>>,
)
    ensures
        reports_on(reports, path) ==> reports_on(put(reports, report), path),
        reports_on(put(reports, report), report.path),
        reports_on(reports, path) ==> reports_on(add_missing(reports, report), path),
        reports_on(add_missing(reports, report), report.path),
{
    let f = is_report_on(report.path);
    lemma_first_index(reports, f);
    let at = first_index(reports, f);
    let after = put(reports, report);
    let added = add_missing(reports, report);
    if at < reports.len() {
        assert(after[at].path == report.path);
        assert(reports[at].path == report.path);
    } else {
        assert(after[reports.len() as int].path == report.path);
        assert(added[reports.len() as int].path == report.path);
    }
    if reports_on(reports, path) {
        let k = choose|k: int| 0 <= k < reports.len() && (#[trigger] reports[k]).path == path;
        assert(after[k].path == path);
        assert(added[k].path == path);
    }
}

proof fn lemma_put_all_keeps(
    reports: Seq<FileDiagnosticsView>,
    more: Seq<FileDiagnosticsView>,
    path: Seq<Seq<char>>,
    i: int,
)
    ensures
        reports_on(reports, path) ==> reports_on(put_all(reports, more), path),
        0 <= i < more.len() ==> reports_on(put_all(reports, more), more[i].path),
    decreases more.len(),
{
    if more.len() > 0 {
        let front = more.drop_last();
        lemma_put_all_keeps(reports, front, path, i);
        let before = put_all(reports, front);
        lemma_put_keeps(before, more.last(), path);
        if 0 <= i < more.len() {
            lemma_put_keeps(before, more.last(), more[i].path);
        }
    }
}

/// Whether there is a report on a file.
pub open spec fn reports_on(reports: Seq<FileDiagnosticsView>, path: Seq<Seq<char>>) -> bool {
    exists|k: int| 0 <= k < reports.len() && (#[trigger] reports[k]).path == path
}

/// Every file that a root could not be resolved for is reported on, and so is every file
/// with findings of a project that is taken.
pub proof fn law_every_fault_is_reported(resolved: Seq<ResolvedView>, i: int, f: int)
    requires
        0 <= i < resolved.len(),
    ensures
        match resolved[i] {
            ResolvedView::Nothing => true,
            ResolvedView::Failed(report) => reports_on(
                environments_of(resolved).reports,
                report.path,
            ),
            ResolvedView::Found { project_file, findings } => (0 <= f < findings.len() && forall|
                k: int,
            |
                0 <= k < i && (#[trigger] resolved[k]) is Found ==> resolved[k]->project_file
                    != project_file) ==> reports_on(
                environments_of(resolved).reports,
                findings[f].path,
            ),
        },
    decreases resolved.len(),
{
    let front = resolved.drop_last();
    let before = environments_of(front);
    let path = match resolved[i] {
        ResolvedView::Nothing => Seq::empty(),
        ResolvedView::Failed(report) => report.path,
        ResolvedView::Found { project_file, findings } => findings[f].path,
    };
    if i < front.len() {
        assert(front[i] == resolved[i]);
        law_every_fault_is_reported(front, i, f);
        match resolved[i] {
            ResolvedView::Found { project_file, findings } => {
                if forall|k: int|
                    0 <= k < i && (#[trigger] resolved[k]) is Found ==> resolved[k]->project_file
                        != project_file {
                    assert forall|k: int|
                        0 <= k < i && (#[trigger] front[k]) is Found implies front[k]->project_file
                        != project_file by {
                        assert(front[k] == resolved[k]);
                    }
                }
            },
            _ => {},
        }
        match resolved.last() {
            ResolvedView::Nothing => {},
            ResolvedView::Failed(report) => lemma_put_keeps(before.reports, report, path),
            ResolvedView::Found { project_file, findings } => lemma_put_all_keeps(
                before.reports,
                findings,
                path,
                0,
            ),
        }
    } else {
        match resolved[i] {
            ResolvedView::Nothing => {},
            ResolvedView::Failed(report) => lemma_put_keeps(before.reports, report, path),
            ResolvedView::Found { project_file, findings } => {
                lemma_put_all_keeps(before.reports, findings, path, f);
                if forall|k: int|
                    0 <= k < i && (#[trigger] resolved[k]) is Found ==> resolved[k]->project_file
                        != project_file {
                    assert forall|k: int|
                        0 <= k < front.len() && (
                        #[trigger] front[k]) is Found implies front[k]->project_file
                        != project_file by {
                        assert(front[k] == resolved[k]);
                    }
                    lemma_not_taken(front, project_file);
                }
            },
        }
    }
}

} // verus!
