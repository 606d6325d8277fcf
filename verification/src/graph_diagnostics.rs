//! Diagnostics of the include graph: includes that lead nowhere, and includes
//! that lead back. They attach to the file that holds the `include` call.

use vstd::prelude::*;

use crate::diagnostics::{Diagnostic, DiagnosticSeverity, DiagnosticView};
use crate::order::{law_path_ranks, path_less, path_rank, rank_path};
use crate::paths::FilePath;
use crate::search::{
    first_index, kept, lemma_first_index_is, lemma_kept_from, lemma_kept_holds, lemma_kept_step,
};
use crate::sorting::{law_sorted, law_sorting_keeps_items, sort_stable, stable_sorted};
use crate::strings::{cat, same_text};
use crate::text::{fits, range_at, LineIndex, PositionEncoding, Range, TextRange};

verus! {

/// An include that is at fault: the file it stands in and its literal.
#[derive(Debug)]
pub struct IncludeFault {
    pub from: FilePath,
    pub raw: String,
}

/// The faults of the include graph.
#[derive(Debug)]
pub struct ProjectGraph {
    pub unresolved: Vec<IncludeFault>,
    pub cycles: Vec<IncludeFault>,
}

/// An `include` call in a file: its literal and where it stands.
#[derive(Debug)]
pub struct IncludeCall {
    pub raw: String,
    pub range: TextRange,
}

/// A file that can be shown, with its `include` calls.
#[derive(Debug)]
pub struct GraphSource {
    pub path: FilePath,
    pub text: String,
    pub calls: Vec<IncludeCall>,
}

/// The diagnostics of one file.
#[derive(Debug)]
pub struct FileDiagnostics {
    pub path: FilePath,
    pub diagnostics: Vec<Diagnostic>,
}

/// What [`FileDiagnostics`] say.
pub struct FileDiagnosticsView {
    pub path: Seq<Seq<char>>,
    pub diagnostics: Seq<DiagnosticView>,
}

impl DeepView for FileDiagnostics {
    type V = FileDiagnosticsView;

    open spec fn deep_view(&self) -> FileDiagnosticsView {
        FileDiagnosticsView {
            path: self.path.deep_view(),
            diagnostics: self.diagnostics.deep_view(),
        }
    }
}

/// A fault with what is said of it.
#[derive(Debug)]
pub struct Problem {
    pub from: FilePath,
    pub raw: String,
    pub message: String,
    pub severity: DiagnosticSeverity,
}

/// What a [`Problem`] says.
pub struct ProblemView {
    pub from: Seq<Seq<char>>,
    pub raw: Seq<char>,
    pub message: Seq<char>,
    pub severity: DiagnosticSeverity,
}

impl DeepView for Problem {
    type V = ProblemView;

    open spec fn deep_view(&self) -> ProblemView {
        ProblemView {
            from: self.from.deep_view(),
            raw: self.raw@,
            message: self.message@,
            severity: self.severity,
        }
    }
}

/// What is said of an include that leads nowhere.
pub open spec fn unresolved_problem(fault: IncludeFault) -> ProblemView {
    ProblemView {
        from: fault.from.deep_view(),
        raw: fault.raw@,
        message: "cannot resolve include: \""@ + fault.raw@ + "\" was not found"@,
        severity: DiagnosticSeverity::Error,
    }
}

/// What is said of an include that leads back.
pub open spec fn cycle_problem(fault: IncludeFault) -> ProblemView {
    ProblemView {
        from: fault.from.deep_view(),
        raw: fault.raw@,
        message: "include cycle: \""@ + fault.raw@ + "\" transitively includes this file"@,
        severity: DiagnosticSeverity::Warning,
    }
}

/// All problems: those that lead nowhere, then those that lead back.
pub open spec fn problems(graph: ProjectGraph) -> Seq<ProblemView> {
    Seq::new(graph.unresolved.len() as nat, |i: int| unresolved_problem(graph.unresolved@[i]))
        + Seq::new(graph.cycles.len() as nat, |i: int| cycle_problem(graph.cycles@[i]))
}

/// The diagnostic of a problem at one call, where the call has its literal.
pub open spec fn call_diagnostic(
    s: Seq<char>,
    problem: ProblemView,
    call: IncludeCall,
    encoding: PositionEncoding,
) -> Option<DiagnosticView> {
    if call.raw@ == problem.raw {
        Some(
            DiagnosticView {
                range: range_at(s, call.range.start as int, call.range.end as int, encoding),
                severity: problem.severity,
                code: None,
                source: "fatou"@,
                message: problem.message,
                unnecessary: false,
            },
        )
    } else {
        None
    }
}

/// The diagnostics of the problems that attach to a file, at every call with the
/// literal of one.
pub open spec fn source_diagnostics(
    all: Seq<ProblemView>,
    source: GraphSource,
    encoding: PositionEncoding,
) -> Seq<DiagnosticView>
    decreases all.len(),
{
    if all.len() == 0 {
        Seq::empty()
    } else {
        let before = source_diagnostics(all.drop_last(), source, encoding);
        let problem = all.last();
        if problem.from == source.path.deep_view() {
            before + kept(
                source.calls@,
                |call: IncludeCall| call_diagnostic(source.text@, problem, call, encoding),
            )
        } else {
            before
        }
    }
}

/// The files that problems attach to, each once, in the order of the problems.
pub open spec fn problem_files(all: Seq<ProblemView>) -> Seq<Seq<Seq<char>>>
    decreases all.len(),
{
    if all.len() == 0 {
        Seq::empty()
    } else {
        let before = problem_files(all.drop_last());
        if before.contains(all.last().from) {
            before
        } else {
            before.push(all.last().from)
        }
    }
}

/// That a source is the file at a path.
pub open spec fn is_source_at(path: Seq<Seq<char>>) -> spec_fn(GraphSource) -> bool {
    |source: GraphSource| source.path.deep_view() == path
}

/// The diagnostics of one file, where it can be shown and has any.
pub open spec fn file_report(
    all: Seq<ProblemView>,
    sources: Seq<GraphSource>,
    path: Seq<Seq<char>>,
    encoding: PositionEncoding,
) -> Option<FileDiagnosticsView> {
    let at = first_index(sources, is_source_at(path));
    if at >= sources.len() {
        None
    } else {
        let diagnostics = source_diagnostics(all, sources[at], encoding);
        if diagnostics.len() == 0 {
            None
        } else {
            Some(FileDiagnosticsView { path, diagnostics })
        }
    }
}

/// The paths of reports.
pub open spec fn report_paths(reports: Seq<FileDiagnosticsView>) -> Seq<Seq<Seq<char>>> {
    Seq::new(reports.len(), |i: int| reports[i].path)
}

/// How many of a number of paths come before that of a report.
pub open spec fn report_rank(paths: Seq<Seq<Seq<char>>>) -> spec_fn(FileDiagnosticsView) -> int {
    |report: FileDiagnosticsView| path_rank(paths, report.path) as int
}

/// Reports by path.
pub open spec fn reports_in_order(reports: Seq<FileDiagnosticsView>) -> Seq<FileDiagnosticsView> {
    stable_sorted(reports, report_rank(report_paths(reports)))
}

/// Puts reports in the order of their paths.
pub fn order_reports(reports: Vec<FileDiagnostics>) -> (r: Vec<FileDiagnostics>)
    ensures
        r.deep_view() == reports_in_order(reports.deep_view()),
{
    let ghost paths = report_paths(reports.deep_view());
    let mut listed: Vec<&FilePath> = Vec::new();
    let mut j: usize = 0;
    while j < reports.len()
        invariant
            j <= reports.len(),
            listed.len() == j,
            forall|k: int|
                0 <= k < j ==> (#[trigger] listed@[k]).deep_view() == reports@[k].path.deep_view(),
        decreases reports.len() - j,
    {
        listed.push(&reports[j].path);
        j = j + 1;
    }
    proof {
        assert(Seq::new(listed.len() as nat, |i: int| listed@[i].deep_view()) =~= paths);
    }
    let mut ranks: Vec<u64> = Vec::new();
    let mut k: usize = 0;
    while k < reports.len()
        invariant
            k <= reports.len(),
            paths == report_paths(reports.deep_view()),
            paths == Seq::new(listed.len() as nat, |i: int| listed@[i].deep_view()),
            ranks.len() == k,
            forall|m: int|
                0 <= m < k ==> #[trigger] ranks@[m] == report_rank(paths)(reports.deep_view()[m]),
        decreases reports.len() - k,
    {
        ranks.push(rank_path(&listed, &reports[k].path));
        k = k + 1;
    }
    sort_stable(reports, ranks, Ghost(report_rank(paths)))
}

/// The diagnostics of the include graph, file by file, by path.
pub open spec fn graph_report(
    graph: ProjectGraph,
    sources: Seq<GraphSource>,
    encoding: PositionEncoding,
) -> Seq<FileDiagnosticsView> {
    reports_in_order(
        kept(
            problem_files(problems(graph)),
            |path: Seq<Seq<char>>| file_report(problems(graph), sources, path, encoding),
        ),
    )
}

fn collect_problems(graph: &ProjectGraph) -> (r: Vec<Problem>)
    ensures
        r.deep_view() == problems(*graph),
{
    let mut out: Vec<Problem> = Vec::new();
    let n = graph.unresolved.len();
    let mut i: usize = 0;
    while i < n
        invariant
            i <= n == graph.unresolved.len(),
            out.len() == i,
            forall|k: int|
                0 <= k < i ==> #[trigger] out@[k].deep_view() == unresolved_problem(
                    graph.unresolved@[k],
                ),
        decreases n - i,
    {
        let fault = &graph.unresolved[i];
        let head = cat("cannot resolve include: \"", fault.raw.as_str());
        out.push(
            Problem {
                from: fault.from.copy(),
                raw: fault.raw.clone(),
                message: cat(head.as_str(), "\" was not found"),
                severity: DiagnosticSeverity::Error,
            },
        );
        i = i + 1;
    }
    let mut j: usize = 0;
    while j < graph.cycles.len()
        invariant
            n == graph.unresolved.len(),
            j <= graph.cycles.len(),
            out.len() == n + j,
            forall|k: int|
                0 <= k < n ==> #[trigger] out@[k].deep_view() == unresolved_problem(
                    graph.unresolved@[k],
                ),
            forall|k: int|
                n <= k < n + j ==> #[trigger] out@[k].deep_view() == cycle_problem(
                    graph.cycles@[k - n],
                ),
        decreases graph.cycles.len() - j,
    {
        let fault = &graph.cycles[j];
        let head = cat("include cycle: \"", fault.raw.as_str());
        out.push(
            Problem {
                from: fault.from.copy(),
                raw: fault.raw.clone(),
                message: cat(head.as_str(), "\" transitively includes this file"),
                severity: DiagnosticSeverity::Warning,
            },
        );
        j = j + 1;
    }
    proof {
        assert(out.deep_view() =~= problems(*graph));
    }
    out
}

fn collect_files(all: &Vec<Problem>) -> (r: Vec<FilePath>)
    ensures
        r.deep_view() == problem_files(all.deep_view()),
{
    let ghost seen = all.deep_view();
    let mut out: Vec<FilePath> = Vec::new();
    let mut i: usize = 0;
    proof {
        assert(seen.take(0) =~= Seq::<ProblemView>::empty());
        assert(out.deep_view() =~= Seq::<Seq<Seq<char>>>::empty());
    }
    while i < all.len()
        invariant
            i <= all.len(),
            seen == all.deep_view(),
            out.deep_view() == problem_files(seen.take(i as int)),
        decreases all.len() - i,
    {
        proof {
            assert(seen.take(i + 1).drop_last() =~= seen.take(i as int));
        }
        let from = &all[i].from;
        if !holds_path(&out, from) {
            let ghost before = out.deep_view();
            out.push(from.copy());
            proof {
                assert(out.deep_view() =~= before.push(from.deep_view()));
            }
        }
        i = i + 1;
    }
    proof {
        assert(seen.take(i as int) =~= seen);
    }
    out
}

/// Whether a list holds a path.
pub fn holds_path(paths: &Vec<FilePath>, path: &FilePath) -> (r: bool)
    ensures
        r == paths.deep_view().contains(path.deep_view()),
{
    let mut i: usize = 0;
    while i < paths.len()
        invariant
            i <= paths.len(),
            forall|k: int| 0 <= k < i ==> #[trigger] paths@[k].deep_view() != path.deep_view(),
        decreases paths.len() - i,
    {
        if paths[i].same(path) {
            proof {
                assert(paths.deep_view()[i as int] == path.deep_view());
            }
            return true;
        }
        i = i + 1;
    }
    false
}

fn mark_calls(
    out: &mut Vec<Diagnostic>,
    problem: &Problem,
    source: &GraphSource,
    line_index: &LineIndex,
    encoding: PositionEncoding,
)
    requires
        line_index.wf(),
        line_index@ == source.text@,
    ensures
        final(out).deep_view() == old(out).deep_view() + kept(
            source.calls@,
            |call: IncludeCall|
                call_diagnostic(source.text@, problem.deep_view(), call, encoding),
        ),
{
    let ghost start = out.deep_view();
    let ghost pick = |call: IncludeCall|
        call_diagnostic(source.text@, problem.deep_view(), call, encoding);
    let mut i: usize = 0;
    proof {
        assert(source.calls@.take(0) =~= Seq::<IncludeCall>::empty());
        assert(start + kept(source.calls@.take(0), pick) =~= start);
    }
    while i < source.calls.len()
        invariant
            i <= source.calls.len(),
            line_index.wf(),
            line_index@ == source.text@,
            pick == |call: IncludeCall|
                call_diagnostic(source.text@, problem.deep_view(), call, encoding),
            out.deep_view() == start + kept(source.calls@.take(i as int), pick),
        decreases source.calls.len() - i,
    {
        let call = &source.calls[i];
        proof {
            lemma_kept_step(source.calls@, pick, i as int);
        }
        i = i + 1;
        if same_text(call.raw.as_str(), problem.raw.as_str()) {
            let ghost before = out.deep_view();
            out.push(
                Diagnostic {
                    range: line_index.range(
                        call.range.start as usize,
                        call.range.end as usize,
                        encoding,
                    ),
                    severity: problem.severity,
                    code: None,
                    source: "fatou".to_owned(),
                    message: problem.message.clone(),
                    unnecessary: false,
                },
            );
            proof {
                assert(out.deep_view() =~= before.push(out@.last().deep_view()));
                assert(out.deep_view() =~= start + kept(source.calls@.take(i as int), pick));
            }
        }
    }
    proof {
        assert(source.calls@.take(i as int) =~= source.calls@);
    }
}

fn diagnose_source(all: &Vec<Problem>, source: &GraphSource, encoding: PositionEncoding) -> (r: Vec<
    Diagnostic,
>)
    requires
        fits(source.text@),
    ensures
        r.deep_view() == source_diagnostics(all.deep_view(), *source, encoding),
{
    let ghost seen = all.deep_view();
    let line_index = LineIndex::new(source.text.as_str());
    let mut out: Vec<Diagnostic> = Vec::new();
    let mut i: usize = 0;
    proof {
        assert(seen.take(0) =~= Seq::<ProblemView>::empty());
        assert(out.deep_view() =~= Seq::<DiagnosticView>::empty());
    }
    while i < all.len()
        invariant
            i <= all.len(),
            seen == all.deep_view(),
            line_index.wf(),
            line_index@ == source.text@,
            out.deep_view() == source_diagnostics(seen.take(i as int), *source, encoding),
        decreases all.len() - i,
    {
        proof {
            assert(seen.take(i + 1).drop_last() =~= seen.take(i as int));
        }
        if all[i].from.same(&source.path) {
            mark_calls(&mut out, &all[i], source, &line_index, encoding);
        }
        i = i + 1;
    }
    proof {
        assert(seen.take(i as int) =~= seen);
    }
    out
}

/// The diagnostics of the include graph, file by file, by path. A file that `sources` does
/// not hold is left out, and so is one whose problems no call accounts for.
pub fn graph_diagnostics(
    graph: &ProjectGraph,
    sources: &Vec<GraphSource>,
    encoding: PositionEncoding,
) -> (r: Vec<FileDiagnostics>)
    requires
        forall|i: int| 0 <= i < sources.len() ==> fits((#[trigger] sources@[i]).text@),
    ensures
        r.deep_view() == graph_report(*graph, sources@, encoding),
{
    let all = collect_problems(graph);
    let files = collect_files(&all);
    let ghost views = files.deep_view();
    let ghost pick = |path: Seq<Seq<char>>|
        file_report(problems(*graph), sources@, path, encoding);
    let mut out: Vec<FileDiagnostics> = Vec::new();
    let mut i: usize = 0;
    proof {
        assert(views.take(0) =~= Seq::<Seq<Seq<char>>>::empty());
        assert(out.deep_view() =~= Seq::<FileDiagnosticsView>::empty());
    }
    while i < files.len()
        invariant
            i <= files.len(),
            views == files.deep_view(),
            all.deep_view() == problems(*graph),
            forall|i: int| 0 <= i < sources.len() ==> fits((#[trigger] sources@[i]).text@),
            pick == |path: Seq<Seq<char>>|
                file_report(problems(*graph), sources@, path, encoding),
            out.deep_view() == kept(views.take(i as int), pick),
        decreases files.len() - i,
    {
        let path = &files[i];
        proof {
            lemma_kept_step(views, pick, i as int);
        }
        i = i + 1;
        let ghost here = is_source_at(path.deep_view());
        let mut at: usize = 0;
        while at < sources.len() && !sources[at].path.same(path)
            invariant
                at <= sources.len(),
                here == is_source_at(path.deep_view()),
                forall|k: int| 0 <= k < at ==> !here(#[trigger] sources@[k]),
            decreases sources.len() - at,
        {
            at = at + 1;
        }
        proof {
            lemma_first_index_is(sources@, here, at as int);
        }
        if at < sources.len() {
            let diagnostics = diagnose_source(&all, &sources[at], encoding);
            if diagnostics.len() > 0 {
                let ghost before = out.deep_view();
                out.push(FileDiagnostics { path: path.copy(), diagnostics });
                proof {
                    assert(out.deep_view() =~= before.push(out@.last().deep_view()));
                }
            }
        }
    }
    proof {
        assert(views.take(i as int) =~= views);
    }
    order_reports(out)
}

/// That a report is on the file at a path.
pub open spec fn is_report_on(path: Seq<Seq<char>>) -> spec_fn(FileDiagnosticsView) -> bool {
    |report: FileDiagnosticsView| report.path == path
}

/// The diagnostics that attach to one file.
pub fn graph_diagnostics_for(reports: Vec<FileDiagnostics>, path: &FilePath) -> (r: Vec<Diagnostic>)
    ensures
        r.deep_view() == ({
            let all = reports.deep_view();
            let at = first_index(all, is_report_on(path.deep_view()));
            if at < all.len() {
                all[at].diagnostics
            } else {
                Seq::empty()
            }
        }),
{
    let ghost all = reports.deep_view();
    let ghost here = is_report_on(path.deep_view());
    let mut reports = reports;
    let mut at: usize = 0;
    while at < reports.len() && !reports[at].path.same(path)
        invariant
            at <= reports.len(),
            all == reports.deep_view(),
            here == is_report_on(path.deep_view()),
            forall|k: int| 0 <= k < at ==> !here(#[trigger] all[k]),
        decreases reports.len() - at,
    {
        at = at + 1;
    }
    proof {
        lemma_first_index_is(all, here, at as int);
    }
    if at < reports.len() {
        let report = reports.remove(at);
        report.diagnostics
    } else {
        let none: Vec<Diagnostic> = Vec::new();
        proof {
            assert(none.deep_view() =~= Seq::<DiagnosticView>::empty());
        }
        none
    }
}

proof fn lemma_file_listed(all: Seq<ProblemView>, p: int)
    ensures
        0 <= p < all.len() ==> problem_files(all).contains(all[p].from),
    decreases all.len(),
{
    if 0 <= p < all.len() {
        let before = problem_files(all.drop_last());
        let after = problem_files(all);
        if p < all.len() - 1 {
            lemma_file_listed(all.drop_last(), p);
            let j = choose|j: int| 0 <= j < before.len() && before[j] == all[p].from;
            assert(after[j] == all[p].from);
        } else if !before.contains(all[p].from) {
            assert(after[before.len() as int] == all[p].from);
        }
    }
}

proof fn lemma_call_marked(
    all: Seq<ProblemView>,
    source: GraphSource,
    encoding: PositionEncoding,
    p: int,
    c: int,
)
    requires
        0 <= p < all.len(),
        all[p].from == source.path.deep_view(),
        0 <= c < source.calls.len(),
        source.calls@[c].raw@ == all[p].raw,
    ensures
        source_diagnostics(all, source, encoding).contains(
            call_diagnostic(source.text@, all[p], source.calls@[c], encoding)->0,
        ),
    decreases all.len(),
{
    let before = source_diagnostics(all.drop_last(), source, encoding);
    let after = source_diagnostics(all, source, encoding);
    let mark = call_diagnostic(source.text@, all[p], source.calls@[c], encoding)->0;
    if p < all.len() - 1 {
        assert(all.drop_last()[p] == all[p]);
        lemma_call_marked(all.drop_last(), source, encoding, p, c);
        let j = choose|j: int| 0 <= j < before.len() && before[j] == mark;
        assert(after[j] == mark);
    } else {
        let problem = all.last();
        let f = |call: IncludeCall| call_diagnostic(source.text@, problem, call, encoding);
        let j = lemma_kept_holds(source.calls@, f, c);
        assert(after[before.len() + j] == mark);
    }
}

/// Whether reports hold a diagnostic on a file.
pub open spec fn reports_hold(
    reports: Seq<FileDiagnosticsView>,
    path: Seq<Seq<char>>,
    severity: DiagnosticSeverity,
    message: Seq<char>,
    range: Range,
) -> bool {
    exists|r: int, d: int|
        0 <= r < reports.len() && reports[r].path == path && 0 <= d < reports[r].diagnostics.len()
            && (#[trigger] reports[r].diagnostics[d]).severity == severity
            && reports[r].diagnostics[d].message == message && reports[r].diagnostics[d].range
            == range
}

/// A fault is reported at every call in its file that has its literal: one that leads
/// nowhere as an error, one that leads back as a warning, each with the literal in its
/// message.
pub proof fn law_faults_are_reported_at_their_calls(
    graph: ProjectGraph,
    sources: Seq<GraphSource>,
    encoding: PositionEncoding,
    i: int,
    at: int,
    c: int,
)
    requires
        0 <= at < sources.len(),
        forall|k: int|
            0 <= k < at ==> (#[trigger] sources[k]).path.deep_view()
                != sources[at].path.deep_view(),
        0 <= c < sources[at].calls.len(),
    ensures
        ({
            let source = sources[at];
            let call = source.calls@[c];
            let reported = |severity: DiagnosticSeverity, message: Seq<char>|
                reports_hold(
                    graph_report(graph, sources, encoding),
                    source.path.deep_view(),
                    severity,
                    message,
                    range_at(
                        source.text@,
                        call.range.start as int,
                        call.range.end as int,
                        encoding,
                    ),
                );
            &&& 0 <= i < graph.unresolved.len() && graph.unresolved@[i].from.deep_view()
                == source.path.deep_view() && graph.unresolved@[i].raw@ == call.raw@ ==> reported(
                DiagnosticSeverity::Error,
                "cannot resolve include: \""@ + call.raw@ + "\" was not found"@,
            )
            &&& 0 <= i < graph.cycles.len() && graph.cycles@[i].from.deep_view()
                == source.path.deep_view() && graph.cycles@[i].raw@ == call.raw@ ==> reported(
                DiagnosticSeverity::Warning,
                "include cycle: \""@ + call.raw@ + "\" transitively includes this file"@,
            )
        }),
{
    let source = sources[at];
    let call = source.calls@[c];
    let all = problems(graph);
    if 0 <= i < graph.unresolved.len() && graph.unresolved@[i].from.deep_view()
        == source.path.deep_view() && graph.unresolved@[i].raw@ == call.raw@ {
        assert(all[i] == unresolved_problem(graph.unresolved@[i]));
        lemma_fault_reported(graph, sources, encoding, i, at, c);
    }
    if 0 <= i < graph.cycles.len() && graph.cycles@[i].from.deep_view() == source.path.deep_view()
        && graph.cycles@[i].raw@ == call.raw@ {
        let p = graph.unresolved.len() + i;
        assert(all[p] == cycle_problem(graph.cycles@[i]));
        lemma_fault_reported(graph, sources, encoding, p, at, c);
    }
}

proof fn lemma_fault_reported(
    graph: ProjectGraph,
    sources: Seq<GraphSource>,
    encoding: PositionEncoding,
    p: int,
    at: int,
    c: int,
)
    requires
        0 <= at < sources.len(),
        forall|k: int|
            0 <= k < at ==> (#[trigger] sources[k]).path.deep_view()
                != sources[at].path.deep_view(),
        0 <= c < sources[at].calls.len(),
        0 <= p < problems(graph).len(),
        problems(graph)[p].from == sources[at].path.deep_view(),
        problems(graph)[p].raw == sources[at].calls@[c].raw@,
    ensures
        reports_hold(
            graph_report(graph, sources, encoding),
            sources[at].path.deep_view(),
            problems(graph)[p].severity,
            problems(graph)[p].message,
            range_at(
                sources[at].text@,
                sources[at].calls@[c].range.start as int,
                sources[at].calls@[c].range.end as int,
                encoding,
            ),
        ),
{
    let all = problems(graph);
    let source = sources[at];
    let path = source.path.deep_view();
    let files = problem_files(all);
    let f = |path: Seq<Seq<char>>| file_report(all, sources, path, encoding);
    lemma_call_marked(all, source, encoding, p, c);
    let marks = source_diagnostics(all, source, encoding);
    let mark = call_diagnostic(source.text@, all[p], source.calls@[c], encoding)->0;
    let d = choose|d: int| 0 <= d < marks.len() && marks[d] == mark;
    assert forall|k: int| 0 <= k < at implies !is_source_at(path)(#[trigger] sources[k]) by {}
    lemma_first_index_is(sources, is_source_at(path), at);
    lemma_file_listed(all, p);
    let k = choose|k: int| 0 <= k < files.len() && files[k] == path;
    let j = lemma_kept_holds(files, f, k);
    let found = kept(files, f);
    assert(found.contains(found[j]));
    law_sorting_keeps_items(found, report_rank(report_paths(found)), found[j]);
    let reports = graph_report(graph, sources, encoding);
    assert(reports == reports_in_order(found));
    let r = choose|r: int| 0 <= r < reports.len() && reports[r] == found[j];
    assert(reports[r].path == path);
    assert(reports[r].diagnostics[d] == mark);
}

/// What is reported on a file is at one of its calls, and says what a fault of that
/// file with the call's literal says.
pub proof fn law_only_faults_are_reported(
    all: Seq<ProblemView>,
    source: GraphSource,
    encoding: PositionEncoding,
    d: int,
)
    requires
        0 <= d < source_diagnostics(all, source, encoding).len(),
    ensures
        exists|p: int, c: int|
            {
                let shown = source_diagnostics(all, source, encoding)[d];
                &&& 0 <= p < all.len()
                &&& 0 <= c < source.calls.len()
                &&& (#[trigger] all[p]).from == source.path.deep_view()
                &&& all[p].raw == (#[trigger] source.calls@[c]).raw@
                &&& shown.severity == all[p].severity
                &&& shown.source == "fatou"@
                &&& shown.message == all[p].message
                &&& shown.range == range_at(
                    source.text@,
                    source.calls@[c].range.start as int,
                    source.calls@[c].range.end as int,
                    encoding,
                )
            },
    decreases all.len(),
{
    let before = source_diagnostics(all.drop_last(), source, encoding);
    if d < before.len() {
        law_only_faults_are_reported(all.drop_last(), source, encoding, d);
        let front = all.drop_last();
        let (p, c) = choose|p: int, c: int|
            {
                let shown = before[d];
                &&& 0 <= p < front.len()
                &&& 0 <= c < source.calls.len()
                &&& (#[trigger] front[p]).from == source.path.deep_view()
                &&& front[p].raw == (#[trigger] source.calls@[c]).raw@
                &&& shown.severity == front[p].severity
                &&& shown.source == "fatou"@
                &&& shown.message == front[p].message
                &&& shown.range == range_at(
                    source.text@,
                    source.calls@[c].range.start as int,
                    source.calls@[c].range.end as int,
                    encoding,
                )
            };
        assert(all[p] == front[p]);
        assert(source.calls@[c].raw@ == all[p].raw);
    } else {
        let problem = all.last();
        let f = |call: IncludeCall| call_diagnostic(source.text@, problem, call, encoding);
        let c = lemma_kept_from(source.calls@, f, d - before.len());
        assert(all[all.len() - 1] == problem);
        assert(source.calls@[c].raw@ == problem.raw);
    }
}

/// Reports come in the order of their paths.
pub proof fn law_reports_come_by_path(reports: Seq<FileDiagnosticsView>, i: int, j: int)
    requires
        0 <= i < j < reports_in_order(reports).len(),
    ensures
        ({
            let all = reports_in_order(reports);
            all[i].path == all[j].path || path_less(all[i].path, all[j].path)
        }),
{
    let paths = report_paths(reports);
    let key = report_rank(paths);
    let all = reports_in_order(reports);
    law_sorted(reports, key);
    assert(key(all[i]) <= key(all[j]));
    assert(all.contains(all[i]) && all.contains(all[j]));
    law_sorting_keeps_items(reports, key, all[i]);
    law_sorting_keeps_items(reports, key, all[j]);
    let a = choose|a: int| 0 <= a < reports.len() && reports[a] == all[i];
    let b = choose|b: int| 0 <= b < reports.len() && reports[b] == all[j];
    assert(paths[a] == all[i].path && paths[b] == all[j].path);
    law_path_ranks(paths, all[i].path, all[j].path);
}

} // verus!
