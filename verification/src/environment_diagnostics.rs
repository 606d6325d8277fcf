//! Diagnostics of the environment files, `Project.toml` and `Manifest.toml`.

use vstd::prelude::*;

use crate::diagnostics::{Diagnostic, DiagnosticSeverity, DiagnosticView};
use crate::graph_diagnostics::{FileDiagnostics, FileDiagnosticsView};
use crate::lint::{severity_to_lsp, shown_severity, Severity};
use crate::order::{is_path_less, law_path_ranks, path_less};
use crate::paths::FilePath;
use crate::text::{fits, range_at, LineIndex, PositionEncoding, TextRange};

verus! {

/// A finding in a project file.
#[derive(Debug)]
pub struct ProjectFinding {
    pub check: String,
    pub severity: Severity,
    pub message: String,
    pub range: TextRange,
}

/// The diagnostic that a finding becomes, with the check as its code.
pub open spec fn project_diagnostic(
    s: Seq<char>,
    finding: ProjectFinding,
    encoding: PositionEncoding,
) -> DiagnosticView {
    DiagnosticView {
        range: range_at(s, finding.range.start as int, finding.range.end as int, encoding),
        severity: shown_severity(finding.severity),
        code: Some(finding.check@),
        source: "fatou"@,
        message: finding.message@,
        unnecessary: false,
    }
}

/// The diagnostic that a finding becomes.
pub fn to_lsp(finding: &ProjectFinding, line_index: &LineIndex, encoding: PositionEncoding) -> (r:
    Diagnostic)
    requires
        line_index.wf(),
    ensures
        r.deep_view() == project_diagnostic(line_index@, *finding, encoding),
{
    Diagnostic {
        range: line_index.range(finding.range.start as usize, finding.range.end as usize, encoding),
        severity: severity_to_lsp(finding.severity),
        code: Some(finding.check.clone()),
        source: "fatou".to_owned(),
        message: finding.message.clone(),
        unnecessary: false,
    }
}

/// A file of an environment, with its text, where it could be read, and what the
/// checks found in it.
#[derive(Debug)]
pub struct CheckedFile {
    pub path: FilePath,
    pub text: Option<String>,
    pub findings: Vec<ProjectFinding>,
}

impl CheckedFile {
    /// The text fits.
    pub open spec fn wf(&self) -> bool {
        self.text is Some ==> fits(self.text->0@)
    }

    /// Whether there is something to report on the file: it could be read, and the
    /// checks found something.
    pub open spec fn is_faulty(&self) -> bool {
        self.text is Some && self.findings.len() > 0
    }
}

/// The diagnostics of a file that could be read.
pub open spec fn file_diagnostics(file: CheckedFile, encoding: PositionEncoding) -> Seq<
    DiagnosticView,
> {
    Seq::new(
        file.findings.len() as nat,
        |i: int| project_diagnostic(file.text->0@, file.findings@[i], encoding),
    )
}

/// The reports on a file: one, where there is something to report.
pub open spec fn file_reports(file: CheckedFile, encoding: PositionEncoding) -> Seq<
    FileDiagnosticsView,
> {
    if file.is_faulty() {
        seq![
            FileDiagnosticsView {
                path: file.path.deep_view(),
                diagnostics: file_diagnostics(file, encoding),
            },
        ]
    } else {
        Seq::empty()
    }
}

/// The reports on an environment: on its project file, whose meaning is checked,
/// and on its manifest, whose syntax is; in the order of their paths, with one
/// report for one path.
pub open spec fn environment_reports(
    project: CheckedFile,
    manifest: Option<CheckedFile>,
    encoding: PositionEncoding,
) -> Seq<FileDiagnosticsView> {
    match manifest {
        Some(manifest) => if project.is_faulty() && manifest.is_faulty()
            && project.path.deep_view() == manifest.path.deep_view() {
            seq![
                FileDiagnosticsView {
                    path: project.path.deep_view(),
                    diagnostics: file_diagnostics(project, encoding) + file_diagnostics(
                        manifest,
                        encoding,
                    ),
                },
            ]
        } else if path_less(manifest.path.deep_view(), project.path.deep_view()) {
            file_reports(manifest, encoding) + file_reports(project, encoding)
        } else {
            file_reports(project, encoding) + file_reports(manifest, encoding)
        },
        None => file_reports(project, encoding),
    }
}

/// Each finding in a file that could be read is reported on that file, be it the
/// project file or the manifest.
pub proof fn law_findings_are_reported(
    project: CheckedFile,
    manifest: Option<CheckedFile>,
    encoding: PositionEncoding,
    of_manifest: bool,
    i: int,
) -> (at: (int, int))
    requires
        of_manifest ==> manifest is Some,
        ({
            let file = if of_manifest {
                manifest->0
            } else {
                project
            };
            file.text is Some && 0 <= i < file.findings.len()
        }),
    ensures
        ({
            let file = if of_manifest {
                manifest->0
            } else {
                project
            };
            let reports = environment_reports(project, manifest, encoding);
            &&& 0 <= at.0 < reports.len()
            &&& reports[at.0].path == file.path.deep_view()
            &&& 0 <= at.1 < reports[at.0].diagnostics.len()
            &&& reports[at.0].diagnostics[at.1] == project_diagnostic(
                file.text->0@,
                file.findings@[i],
                encoding,
            )
        }),
{
    let file = if of_manifest {
        manifest->0
    } else {
        project
    };
    let reports = environment_reports(project, manifest, encoding);
    if reports.len() == 1 {
        if of_manifest && project.is_faulty() {
            (0, project.findings.len() + i)
        } else {
            (0, i)
        }
    } else if reports[0].path == file.path.deep_view() {
        (0, i)
    } else {
        (1, i)
    }
}

fn push_diagnostics(
    text: &str,
    findings: &Vec<ProjectFinding>,
    encoding: PositionEncoding,
    out: &mut Vec<Diagnostic>,
)
    requires
        fits(text@),
    ensures
        final(out).deep_view() == old(out).deep_view() + Seq::new(
            findings.len() as nat,
            |i: int| project_diagnostic(text@, findings@[i], encoding),
        ),
{
    let ghost before = out.deep_view();
    let line_index = LineIndex::new(text);
    let mut i: usize = 0;
    while i < findings.len()
        invariant
            line_index.wf(),
            line_index@ == text@,
            i <= findings.len(),
            out.deep_view() == before + Seq::new(
                i as nat,
                |k: int| project_diagnostic(text@, findings@[k], encoding),
            ),
        decreases findings.len() - i,
    {
        let ghost sofar = out.deep_view();
        out.push(to_lsp(&findings[i], &line_index, encoding));
        i = i + 1;
        proof {
            assert(out.deep_view() =~= sofar.push(
                project_diagnostic(text@, findings@[i - 1], encoding),
            ));
            assert(out.deep_view() =~= before + Seq::new(
                i as nat,
                |k: int| project_diagnostic(text@, findings@[k], encoding),
            ));
        }
    }
}

/// The report on a file, or none where there is nothing to report.
fn report_on(file: &CheckedFile, encoding: PositionEncoding) -> (r: Option<FileDiagnostics>)
    requires
        file.wf(),
    ensures
        r is Some <==> file.is_faulty(),
        r is Some ==> r->0.deep_view() == file_reports(*file, encoding)[0],
{
    let text = match &file.text {
        Some(text) => text,
        None => {
            return None;
        },
    };
    if file.findings.len() == 0 {
        return None;
    }
    let mut diagnostics: Vec<Diagnostic> = Vec::new();
    push_diagnostics(text.as_str(), &file.findings, encoding, &mut diagnostics);
    proof {
        assert(diagnostics.deep_view() =~= file_diagnostics(*file, encoding));
    }
    Some(FileDiagnostics { path: file.path.copy(), diagnostics })
}

fn push_report(out: &mut Vec<FileDiagnostics>, report: Option<FileDiagnostics>)
    ensures
        final(out).deep_view() == old(out).deep_view() + match report {
            Some(report) => seq![report.deep_view()],
            None => Seq::empty(),
        },
{
    let ghost before = out.deep_view();
    if let Some(report) = report {
        out.push(report);
        proof {
            assert(out.deep_view() =~= before + seq![report.deep_view()]);
        }
    } else {
        proof {
            assert(before + Seq::<FileDiagnosticsView>::empty() =~= before);
        }
    }
}

/// The diagnostics of one resolved environment: what the checks found in its
/// project file, and the faults in the syntax of its manifest. A file that cannot
/// be read contributes nothing; a file without findings is absent.
pub fn environment_diagnostics(
    project: &CheckedFile,
    manifest: Option<&CheckedFile>,
    encoding: PositionEncoding,
) -> (r: Vec<FileDiagnostics>)
    requires
        project.wf(),
        manifest is Some ==> manifest->0.wf(),
    ensures
        r.deep_view() == environment_reports(
            *project,
            match manifest {
                Some(manifest) => Some(*manifest),
                None => None,
            },
            encoding,
        ),
{
    let mut out: Vec<FileDiagnostics> = Vec::new();
    proof {
        assert(out.deep_view() =~= Seq::<FileDiagnosticsView>::empty());
    }
    let own = report_on(project, encoding);
    let manifest = match manifest {
        Some(manifest) => manifest,
        None => {
            push_report(&mut out, own);
            proof {
                assert(out.deep_view() =~= file_reports(*project, encoding));
            }
            return out;
        },
    };
    if let (Some(text), Some(other)) = (&project.text, &manifest.text) {
        if project.findings.len() > 0 && manifest.findings.len() > 0 && project.path.same(
            &manifest.path,
        ) {
            let mut diagnostics: Vec<Diagnostic> = Vec::new();
            push_diagnostics(text.as_str(), &project.findings, encoding, &mut diagnostics);
            push_diagnostics(other.as_str(), &manifest.findings, encoding, &mut diagnostics);
            proof {
                assert(diagnostics.deep_view() =~= file_diagnostics(*project, encoding)
                    + file_diagnostics(*manifest, encoding));
            }
            out.push(FileDiagnostics { path: project.path.copy(), diagnostics });
            proof {
                assert(out.deep_view() =~= environment_reports(
                    *project,
                    Some(*manifest),
                    encoding,
                ));
            }
            return out;
        }
    }
    let theirs = report_on(manifest, encoding);
    if is_path_less(&manifest.path, &project.path) {
        push_report(&mut out, theirs);
        push_report(&mut out, own);
    } else {
        push_report(&mut out, own);
        push_report(&mut out, theirs);
    }
    proof {
        assert(out.deep_view() =~= environment_reports(*project, Some(*manifest), encoding));
    }
    out
}

/// The diagnostics of an environment that could not be resolved: the one finding
/// that says why, on the file at fault. A file that cannot be read counts as
/// empty, so that the fault is still reported.
pub fn resolve_failure_diagnostics(
    path: FilePath,
    text: Option<&str>,
    finding: &ProjectFinding,
    encoding: PositionEncoding,
) -> (r: FileDiagnostics)
    requires
        text is Some ==> fits(text->0@),
    ensures
        r.deep_view().path == path.deep_view(),
        r.deep_view().diagnostics == seq![
            project_diagnostic(
                match text {
                    Some(text) => text@,
                    None => Seq::empty(),
                },
                *finding,
                encoding,
            ),
        ],
{
    let text = match text {
        Some(text) => text,
        None => "",
    };
    proof {
        reveal_strlit("");
        assert(""@ =~= Seq::<char>::empty());
    }
    let line_index = LineIndex::new(text);
    let diagnostics = vec![to_lsp(finding, &line_index, encoding)];
    proof {
        assert(diagnostics.deep_view() =~= seq![
            project_diagnostic(text@, *finding, encoding),
        ]);
    }
    FileDiagnostics { path, diagnostics }
}

/// A finding in a project file keeps its severity, check, message and place.
pub proof fn law_project_findings_are_shown_as_they_are(
    s: Seq<char>,
    finding: ProjectFinding,
    encoding: PositionEncoding,
)
    ensures
        ({
            let shown = project_diagnostic(s, finding, encoding);
            &&& shown.message == finding.message@
            &&& shown.source == "fatou"@
            &&& shown.code == Some(finding.check@)
            &&& shown.range == range_at(
                s,
                finding.range.start as int,
                finding.range.end as int,
                encoding,
            )
            &&& !shown.unnecessary
            &&& shown.severity == DiagnosticSeverity::Error <==> finding.severity == Severity::Error
            &&& shown.severity == DiagnosticSeverity::Warning <==> finding.severity
                == Severity::Warning
            &&& shown.severity == DiagnosticSeverity::Information <==> finding.severity
                == Severity::Info
            &&& shown.severity == DiagnosticSeverity::Hint <==> finding.severity == Severity::Hint
        }),
{
}

/// The reports on an environment are on its project file or its manifest, never on one
/// without findings, and no two are on one path.
pub proof fn law_reports_are_on_files_with_findings(
    project: CheckedFile,
    manifest: Option<CheckedFile>,
    encoding: PositionEncoding,
    i: int,
)
    requires
        0 <= i < environment_reports(project, manifest, encoding).len(),
    ensures
        ({
            let reports = environment_reports(project, manifest, encoding);
            let has = |file: CheckedFile|
                file.path.deep_view() == reports[i].path && file.text is Some && file.findings.len()
                    > 0;
            &&& has(project) || (manifest is Some && has(manifest->0))
            &&& reports[i].diagnostics.len() > 0
            &&& forall|j: int| 0 <= j < i ==> (#[trigger] reports[j]).path != reports[i].path
        }),
{
}

/// The reports on an environment come in the order of their paths.
pub proof fn law_reports_on_an_environment_come_by_path(
    project: CheckedFile,
    manifest: CheckedFile,
    encoding: PositionEncoding,
    i: int,
    j: int,
)
    requires
        0 <= i < j < environment_reports(project, Some(manifest), encoding).len(),
    ensures
        path_less(
            environment_reports(project, Some(manifest), encoding)[i].path,
            environment_reports(project, Some(manifest), encoding)[j].path,
        ),
{
    let a = project.path.deep_view();
    let b = manifest.path.deep_view();
    let both = seq![a, b];
    assert(both[0] == a && both[1] == b);
    law_path_ranks(both, a, b);
    law_path_ranks(both, b, a);
}

} // verus!
