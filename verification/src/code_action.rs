//! Code actions: the fixes that findings of the linter bring along.

use vstd::prelude::*;

use crate::diagnostics::{Diagnostic, DiagnosticView};
use crate::edits::{TextEdit, TextEditView};
use crate::format::lsp_range_to_text_range;
use crate::lint::{finding_diagnostic, finding_to_lsp, Applicability, Finding, Fix};
use crate::strings::cat;
use crate::text::{
    fits, offset_at, range_at, LineIndex, PositionEncoding, Range,
};

verus! {

/// What an action is for.
#[derive(Clone, Copy, Debug, PartialEq, Eq, Structural)]
pub enum CodeActionKind {
    QuickFix,
    RefactorRewrite,
}

/// An action: an edit of one document, with the finding that it resolves where
/// there is one.
#[derive(Debug)]
pub struct CodeAction {
    pub title: String,
    pub kind: CodeActionKind,
    pub diagnostic: Option<Diagnostic>,
    pub uri: String,
    pub edit: TextEdit,
    pub is_preferred: bool,
}

/// What a [`CodeAction`] says.
pub struct CodeActionView {
    pub title: Seq<char>,
    pub kind: CodeActionKind,
    pub diagnostic: Option<DiagnosticView>,
    pub uri: Seq<char>,
    pub edit: TextEditView,
    pub is_preferred: bool,
}

impl DeepView for CodeAction {
    type V = CodeActionView;

    open spec fn deep_view(&self) -> CodeActionView {
        CodeActionView {
            title: self.title@,
            kind: self.kind,
            diagnostic: self.diagnostic.deep_view(),
            uri: self.uri@,
            edit: self.edit.deep_view(),
            is_preferred: self.is_preferred,
        }
    }
}

/// The action that applies a fix: a safe one is preferred, an unsafe one says so.
pub open spec fn fix_action(
    s: Seq<char>,
    finding: Finding,
    fix: Fix,
    uri: Seq<char>,
    encoding: PositionEncoding,
) -> CodeActionView {
    CodeActionView {
        title: if fix.applicability == Applicability::Safe {
            fix.description@
        } else {
            fix.description@ + " (unsafe)"@
        },
        kind: CodeActionKind::QuickFix,
        diagnostic: Some(finding_diagnostic(s, finding, encoding)),
        uri,
        edit: TextEditView {
            range: range_at(s, fix.range.start as int, fix.range.end as int, encoding),
            new_text: fix.content@,
        },
        is_preferred: fix.applicability == Applicability::Safe,
    }
}

/// The action that applies `fix` of `finding`.
pub fn action_for_fix(
    finding: &Finding,
    fix: &Fix,
    uri: &str,
    line_index: &LineIndex,
    encoding: PositionEncoding,
) -> (r: CodeAction)
    requires
        line_index.wf(),
    ensures
        r.deep_view() == fix_action(line_index@, *finding, *fix, uri@, encoding),
{
    let safe = match fix.applicability {
        Applicability::Safe => true,
        Applicability::Unsafe => false,
    };
    let title = if safe {
        fix.description.clone()
    } else {
        cat(fix.description.as_str(), " (unsafe)")
    };
    CodeAction {
        title,
        kind: CodeActionKind::QuickFix,
        diagnostic: Some(finding_to_lsp(finding, line_index, encoding)),
        uri: uri.to_owned(),
        edit: TextEdit {
            range: line_index.range(fix.range.start as usize, fix.range.end as usize, encoding),
            new_text: fix.content.clone(),
        },
        is_preferred: safe,
    }
}

/// The actions that apply a finding's fixes.
pub open spec fn fix_actions(
    s: Seq<char>,
    finding: Finding,
    uri: Seq<char>,
    encoding: PositionEncoding,
) -> Seq<CodeActionView> {
    finding.fixes@.map_values(|fix: Fix| fix_action(s, finding, fix, uri, encoding))
}

/// Whether a finding touches what lies between two bytes, in either order.
pub open spec fn touches_range(finding: Finding, a: int, b: int) -> bool {
    let (start, end) = if a <= b {
        (a, b)
    } else {
        (b, a)
    };
    finding.range.start <= end && start <= finding.range.end
}

/// The actions of the findings that touch a range, finding by finding.
pub open spec fn actions_in(
    s: Seq<char>,
    findings: Seq<Finding>,
    uri: Seq<char>,
    range: Range,
    encoding: PositionEncoding,
) -> Seq<CodeActionView>
    decreases findings.len(),
{
    if findings.len() == 0 {
        Seq::empty()
    } else {
        let before = actions_in(s, findings.drop_last(), uri, range, encoding);
        if touches_range(
            findings.last(),
            offset_at(s, range.start, encoding) as int,
            offset_at(s, range.end, encoding) as int,
        ) {
            before + fix_actions(s, findings.last(), uri, encoding)
        } else {
            before
        }
    }
}

/// The actions that apply fixes of findings that touch `range`; a cursor at
/// either edge of a finding touches it.
pub fn actions_for(
    findings: &Vec<Finding>,
    uri: &str,
    text: &str,
    range: Range,
    encoding: PositionEncoding,
) -> (r: Vec<CodeAction>)
    requires
        fits(text@),
    ensures
        r.deep_view() == actions_in(text@, findings@, uri@, range, encoding),
{
    let ghost s = text@;
    let requested = lsp_range_to_text_range(text, range, encoding);
    let line_index = LineIndex::new(text);
    let mut out: Vec<CodeAction> = Vec::new();
    let mut i: usize = 0;
    proof {
        assert(findings@.take(0) =~= Seq::<Finding>::empty());
        assert(out.deep_view() =~= Seq::<CodeActionView>::empty());
    }
    while i < findings.len()
        invariant
            s == text@,
            line_index.wf(),
            line_index@ == s,
            i <= findings.len(),
            ({
                let a = offset_at(s, range.start, encoding) as int;
                let b = offset_at(s, range.end, encoding) as int;
                if a <= b {
                    requested.start == a && requested.end == b
                } else {
                    requested.start == b && requested.end == a
                }
            }),
            out.deep_view() == actions_in(
                s,
                findings@.take(i as int),
                uri@,
                range,
                encoding,
            ),
        decreases findings.len() - i,
    {
        proof {
            assert(findings@.take(i + 1).drop_last() =~= findings@.take(i as int));
        }
        let finding = &findings[i];
        if finding.range.start <= requested.end && requested.start <= finding.range.end {
            let ghost before = out.deep_view();
            let ghost more = fix_actions(s, *finding, uri@, encoding);
            let mut k: usize = 0;
            proof {
                assert(before + more.take(0) =~= before);
            }
            while k < finding.fixes.len()
                invariant
                    line_index.wf(),
                    line_index@ == s,
                    k <= finding.fixes.len(),
                    more == fix_actions(s, *finding, uri@, encoding),
                    out.deep_view() == before + more.take(k as int),
                decreases finding.fixes.len() - k,
            {
                let ghost held = out.deep_view();
                let action = action_for_fix(finding, &finding.fixes[k], uri, &line_index, encoding);
                out.push(action);
                k = k + 1;
                proof {
                    assert(out.deep_view() =~= held.push(more[k - 1]));
                    assert(before + more.take(k as int) =~= (before + more.take(k - 1)).push(
                        more[k - 1],
                    ));
                }
            }
            proof {
                assert(more.take(k as int) =~= more);
            }
        }
        i = i + 1;
    }
    proof {
        assert(findings@.take(i as int) =~= findings@);
    }
    out
}

/// Every fix of every finding that touches the range, at an edge too, is offered as a
/// quick fix of that finding: it replaces what the fix replaces by what it puts there,
/// and is preferred, and called by its description alone, exactly where the fix is safe.
pub proof fn law_every_fix_in_reach_is_offered(
    s: Seq<char>,
    findings: Seq<Finding>,
    uri: Seq<char>,
    range: Range,
    encoding: PositionEncoding,
    i: int,
    f: int,
)
    requires
        0 <= i < findings.len(),
        0 <= f < findings[i].fixes.len(),
        ({
            let a = offset_at(s, range.start, encoding) as int;
            let b = offset_at(s, range.end, encoding) as int;
            &&& findings[i].range.start <= a || findings[i].range.start <= b
            &&& a <= findings[i].range.end || b <= findings[i].range.end
        }),
    ensures
        exists|k: int|
            0 <= k < actions_in(s, findings, uri, range, encoding).len() && {
                let action = #[trigger] actions_in(s, findings, uri, range, encoding)[k];
                let fix = findings[i].fixes@[f];
                &&& action.kind == CodeActionKind::QuickFix
                &&& action.uri == uri
                &&& action.edit.new_text == fix.content@
                &&& action.edit.range == range_at(
                    s,
                    fix.range.start as int,
                    fix.range.end as int,
                    encoding,
                )
                &&& action.diagnostic == Some(finding_diagnostic(s, findings[i], encoding))
                &&& action.is_preferred <==> fix.applicability == Applicability::Safe
                &&& action.title == (if fix.applicability == Applicability::Safe {
                    fix.description@
                } else {
                    fix.description@ + " (unsafe)"@
                })
            },
    decreases findings.len(),
{
    let front = findings.drop_last();
    let before = actions_in(s, front, uri, range, encoding);
    let all = actions_in(s, findings, uri, range, encoding);
    if i == findings.len() - 1 {
        let own = fix_actions(s, findings[i], uri, encoding);
        assert(all[before.len() + f] == own[f]);
    } else {
        assert(front[i] == findings[i]);
        law_every_fix_in_reach_is_offered(s, front, uri, range, encoding, i, f);
        let k = choose|k: int|
            0 <= k < before.len() && {
                let action = #[trigger] before[k];
                let fix = findings[i].fixes@[f];
                &&& action.kind == CodeActionKind::QuickFix
                &&& action.uri == uri
                &&& action.edit.new_text == fix.content@
                &&& action.edit.range == range_at(
                    s,
                    fix.range.start as int,
                    fix.range.end as int,
                    encoding,
                )
                &&& action.diagnostic == Some(finding_diagnostic(s, findings[i], encoding))
                &&& action.is_preferred <==> fix.applicability == Applicability::Safe
                &&& action.title == (if fix.applicability == Applicability::Safe {
                    fix.description@
                } else {
                    fix.description@ + " (unsafe)"@
                })
            };
        assert(all[k] == before[k]);
    }
}

/// Findings that lie apart from the range offer nothing.
pub proof fn law_fixes_out_of_reach_are_not_offered(
    s: Seq<char>,
    findings: Seq<Finding>,
    uri: Seq<char>,
    range: Range,
    encoding: PositionEncoding,
)
    requires
        forall|i: int|
            0 <= i < findings.len() ==> {
                let a = offset_at(s, range.start, encoding) as int;
                let b = offset_at(s, range.end, encoding) as int;
                let there = (#[trigger] findings[i]).range;
                (a < there.start && b < there.start) || (there.end < a && there.end < b)
            },
    ensures
        actions_in(s, findings, uri, range, encoding).len() == 0,
    decreases findings.len(),
{
    if findings.len() > 0 {
        let front = findings.drop_last();
        assert forall|i: int| 0 <= i < front.len() implies front[i] == findings[i] by {}
        law_fixes_out_of_reach_are_not_offered(s, front, uri, range, encoding);
        assert(findings[findings.len() - 1] == findings.last());
    }
}

} // verus!
