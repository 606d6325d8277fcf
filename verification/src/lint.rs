//! Lint findings as diagnostics, and the rules they come from.

use std::sync::Arc;

use vstd::prelude::*;

use crate::diagnostics::{Diagnostic, DiagnosticSeverity, DiagnosticView};
use crate::search::{kept, lemma_kept_from, lemma_kept_holds, lemma_kept_step};
use crate::strings::{copy_texts, holds_text, same_text, starts_with};
use crate::text::{fits, range_at, LineIndex, PositionEncoding, TextRange};

verus! {

/// How serious the linter takes a finding.
#[derive(Clone, Copy, Debug, PartialEq, Eq, Structural)]
pub enum Severity {
    Error,
    Warning,
    Info,
    Hint,
}

/// The severity that the client is told.
pub open spec fn shown_severity(severity: Severity) -> DiagnosticSeverity {
    match severity {
        Severity::Error => DiagnosticSeverity::Error,
        Severity::Warning => DiagnosticSeverity::Warning,
        Severity::Info => DiagnosticSeverity::Information,
        Severity::Hint => DiagnosticSeverity::Hint,
    }
}

/// The severity that the client is told.
pub fn severity_to_lsp(severity: Severity) -> (r: DiagnosticSeverity)
    ensures
        r == shown_severity(severity),
{
    match severity {
        Severity::Error => DiagnosticSeverity::Error,
        Severity::Warning => DiagnosticSeverity::Warning,
        Severity::Info => DiagnosticSeverity::Information,
        Severity::Hint => DiagnosticSeverity::Hint,
    }
}

/// Whether a fix may be applied without looking.
#[derive(Clone, Copy, Debug, PartialEq, Eq, Structural)]
pub enum Applicability {
    Safe,
    Unsafe,
}

/// A repair that a finding brings along.
#[derive(Debug)]
pub struct Fix {
    pub description: String,
    pub content: String,
    pub range: TextRange,
    pub applicability: Applicability,
}

/// A finding of the linter.
#[derive(Debug)]
pub struct Finding {
    pub rule: String,
    pub severity: Severity,
    pub range: TextRange,
    pub message: String,
    pub fixes: Vec<Fix>,
}

/// The diagnostic that a finding becomes. Findings of the `unused-` rules are
/// about dead code and may be faded.
pub open spec fn finding_diagnostic(
    s: Seq<char>,
    finding: Finding,
    encoding: PositionEncoding,
) -> DiagnosticView {
    DiagnosticView {
        range: range_at(s, finding.range.start as int, finding.range.end as int, encoding),
        severity: shown_severity(finding.severity),
        code: Some(finding.rule@),
        source: "fatou"@,
        message: finding.message@,
        unnecessary: "unused-"@.is_prefix_of(finding.rule@),
    }
}

/// The diagnostic that a finding becomes.
pub fn finding_to_lsp(finding: &Finding, line_index: &LineIndex, encoding: PositionEncoding) -> (r:
    Diagnostic)
    requires
        line_index.wf(),
    ensures
        r.deep_view() == finding_diagnostic(line_index@, *finding, encoding),
{
    Diagnostic {
        range: line_index.range(finding.range.start as usize, finding.range.end as usize, encoding),
        severity: severity_to_lsp(finding.severity),
        code: Some(finding.rule.clone()),
        source: "fatou".to_owned(),
        message: finding.message.clone(),
        unnecessary: starts_with(finding.rule.as_str(), "unused-"),
    }
}

/// The diagnostics of a number of findings in `text`.
pub fn findings_to_lsp(findings: &Vec<Finding>, text: &str, encoding: PositionEncoding) -> (r: Vec<
    Diagnostic,
>)
    requires
        fits(text@),
    ensures
        r.deep_view() == Seq::new(
            findings.len() as nat,
            |i: int| finding_diagnostic(text@, findings@[i], encoding),
        ),
{
    let line_index = LineIndex::new(text);
    let mut out: Vec<Diagnostic> = Vec::new();
    let mut i: usize = 0;
    while i < findings.len()
        invariant
            line_index.wf(),
            line_index@ == text@,
            i <= findings.len(),
            out.len() == i,
            forall|k: int|
                0 <= k < i ==> #[trigger] out@[k].deep_view() == finding_diagnostic(
                    text@,
                    findings@[k],
                    encoding,
                ),
        decreases findings.len() - i,
    {
        out.push(finding_to_lsp(&findings[i], &line_index, encoding));
        i = i + 1;
    }
    proof {
        assert(out.deep_view() =~= Seq::new(
            findings.len() as nat,
            |i: int| finding_diagnostic(text@, findings@[i], encoding),
        ));
    }
    out
}

/// What the linter may report of a document: nothing where the parser found fault
/// with it, since rules need a clean tree.
pub fn lint_findings(parse_clean: bool, found: Vec<Finding>) -> (r: Vec<Finding>)
    ensures
        r@ == (if parse_clean {
            found@
        } else {
            Seq::empty()
        }),
{
    if parse_clean {
        found
    } else {
        Vec::new()
    }
}

/// The lint diagnostics of `text`, given whether it parses and what the linter
/// found in it.
pub fn compute_lint_diagnostics(
    text: &str,
    parse_clean: bool,
    found: Vec<Finding>,
    encoding: PositionEncoding,
) -> (r: Vec<Diagnostic>)
    requires
        fits(text@),
    ensures
        r.deep_view() == (if parse_clean {
            Seq::new(found.len() as nat, |i: int| finding_diagnostic(text@, found@[i], encoding))
        } else {
            Seq::empty()
        }),
{
    let findings = lint_findings(parse_clean, found);
    let r = findings_to_lsp(&findings, text, encoding);
    proof {
        assert(!parse_clean ==> r.deep_view() =~= Seq::<DiagnosticView>::empty());
        assert(parse_clean ==> r.deep_view() =~= Seq::new(
            found.len() as nat,
            |i: int| finding_diagnostic(text@, found@[i], encoding),
        ));
    }
    r
}

/// A rule that the linter knows.
#[derive(Debug)]
pub struct RuleInfo {
    pub id: String,
    pub default_enabled: bool,
}

/// The lint section of a configuration. `O` are the options of single rules.
#[derive(Debug)]
pub struct LintConfig<O> {
    /// The rules to run, in place of the default ones.
    pub select: Option<Vec<String>>,
    /// The rules not to run.
    pub ignore: Vec<String>,
    /// The rules whose severity is overridden, with the severity.
    pub severity: Vec<(String, Severity)>,
    /// The options of single rules.
    pub options: Arc<O>,
}

/// What a [`LintConfig`] says.
pub struct LintView<O> {
    pub select: Option<Seq<Seq<char>>>,
    pub ignore: Seq<Seq<char>>,
    pub severity: Seq<(Seq<char>, Severity)>,
    pub options: O,
}

impl<O> DeepView for LintConfig<O> {
    type V = LintView<O>;

    open spec fn deep_view(&self) -> LintView<O> {
        LintView {
            select: self.select.deep_view(),
            ignore: self.ignore.deep_view(),
            severity: Seq::new(
                self.severity.len() as nat,
                |i: int| (self.severity@[i].0@, self.severity@[i].1),
            ),
            options: *self.options,
        }
    }
}

/// The rules to run, with the severities that are overridden and the options of
/// single rules.
#[derive(Debug)]
pub struct ResolvedRules<O> {
    pub enabled: Vec<String>,
    pub severity: Vec<(String, Severity)>,
    pub options: Arc<O>,
}

/// What [`ResolvedRules`] say.
pub struct RulesView<O> {
    pub enabled: Seq<Seq<char>>,
    pub severity: Seq<(Seq<char>, Severity)>,
    pub options: O,
}

impl<O> DeepView for ResolvedRules<O> {
    type V = RulesView<O>;

    open spec fn deep_view(&self) -> RulesView<O> {
        RulesView {
            enabled: self.enabled.deep_view(),
            severity: Seq::new(
                self.severity.len() as nat,
                |i: int| (self.severity@[i].0@, self.severity@[i].1),
            ),
            options: *self.options,
        }
    }
}

/// The ids that a configuration asks for: its own selection, or the rules that
/// are on by default.
pub open spec fn selected<O>(registry: Seq<RuleInfo>, lint: LintView<O>) -> Seq<Seq<char>> {
    match lint.select {
        Some(select) => select,
        None => kept(
            registry,
            |rule: RuleInfo|
                if rule.default_enabled {
                    Some(rule.id@)
                } else {
                    None
                },
        ),
    }
}

/// The rules of the registry that a selection turns on, less those to ignore.
pub open spec fn enabled_rules(
    registry: Seq<RuleInfo>,
    select: Seq<Seq<char>>,
    ignore: Seq<Seq<char>>,
) -> Seq<Seq<char>> {
    kept(
        registry,
        |rule: RuleInfo|
            if select.contains(rule.id@) && !ignore.contains(rule.id@) {
                Some(rule.id@)
            } else {
                None
            },
    )
}

/// Whether the registry holds a rule.
pub open spec fn is_known(registry: Seq<RuleInfo>, id: Seq<char>) -> bool {
    exists|i: int| 0 <= i < registry.len() && (#[trigger] registry[i]).id@ == id
}

/// The ids among `ids` that the registry does not hold.
pub open spec fn unknown_ids(registry: Seq<RuleInfo>, ids: Seq<Seq<char>>) -> Seq<Seq<char>> {
    kept(
        ids,
        |id: Seq<char>|
            if is_known(registry, id) {
                None
            } else {
                Some(id)
            },
    )
}

/// The ids that a configuration names: selected, ignored, overridden.
pub open spec fn named_ids<O>(lint: LintView<O>) -> Seq<Seq<char>> {
    (match lint.select {
        Some(select) => select,
        None => Seq::empty(),
    }) + lint.ignore + Seq::new(lint.severity.len(), |i: int| lint.severity[i].0)
}

/// The rules for files of the workspace alone, where names can be resolved.
pub open spec fn member_rules() -> Seq<Seq<char>> {
    seq!["undefined-name"@, "call-arity"@]
}

/// A selection with an id added, unless it holds it.
pub open spec fn with_id(select: Seq<Seq<char>>, id: Seq<char>) -> Seq<Seq<char>> {
    if select.contains(id) {
        select
    } else {
        select.push(id)
    }
}

/// The selection for files of the workspace.
pub open spec fn member_selection<O>(registry: Seq<RuleInfo>, lint: LintView<O>) -> Seq<Seq<char>> {
    with_id(with_id(selected(registry, lint), "undefined-name"@), "call-arity"@)
}

/// The rules that a file of the workspace runs, against those any file runs:
/// none is missing, and the rules for workspace files are among them wherever the
/// linter knows them and the configuration does not ignore them.
pub proof fn law_member_rules_extend<O>(registry: Seq<RuleInfo>, lint: LintView<O>, id: Seq<char>)
    ensures
        enabled_rules(registry, selected(registry, lint), lint.ignore).contains(id)
            ==> enabled_rules(registry, member_selection(registry, lint), lint.ignore).contains(id),
        member_rules().contains(id) && is_known(registry, id) && !lint.ignore.contains(id)
            ==> enabled_rules(registry, member_selection(registry, lint), lint.ignore).contains(id),
        lint.ignore.contains(id) ==> !enabled_rules(
            registry,
            member_selection(registry, lint),
            lint.ignore,
        ).contains(id),
{
    let base = selected(registry, lint);
    let step = with_id(base, "undefined-name"@);
    let wide = member_selection(registry, lint);
    lemma_with_id(base, "undefined-name"@);
    lemma_with_id(step, "call-arity"@);
    lemma_enabled(registry, base, lint.ignore, id);
    lemma_enabled(registry, wide, lint.ignore, id);
    if member_rules().contains(id) {
        let k = choose|k: int| 0 <= k < member_rules().len() && member_rules()[k] == id;
        assert(wide.contains(id));
    }
    if base.contains(id) {
        assert(step.contains(id));
        assert(wide.contains(id));
    }
}

proof fn lemma_with_id(select: Seq<Seq<char>>, id: Seq<char>)
    ensures
        with_id(select, id).contains(id),
        forall|other: Seq<char>|
            select.contains(other) ==> #[trigger] with_id(select, id).contains(other),
{
    let r = with_id(select, id);
    if !select.contains(id) {
        assert(r[select.len() as int] == id);
        assert forall|other: Seq<char>| select.contains(other) implies #[trigger] r.contains(
            other,
        ) by {
            let k = choose|k: int| 0 <= k < select.len() && select[k] == other;
            assert(r[k] == other);
        }
    }
}

/// Which rules are enabled: those the linter knows, the selection holds and the
/// configuration does not ignore.
pub proof fn lemma_enabled(
    registry: Seq<RuleInfo>,
    select: Seq<Seq<char>>,
    ignore: Seq<Seq<char>>,
    id: Seq<char>,
)
    ensures
        enabled_rules(registry, select, ignore).contains(id) <==> is_known(registry, id)
            && select.contains(id) && !ignore.contains(id),
    decreases registry.len(),
{
    let pick = |rule: RuleInfo|
        if select.contains(rule.id@) && !ignore.contains(rule.id@) {
            Some(rule.id@)
        } else {
            None
        };
    let all = enabled_rules(registry, select, ignore);
    if registry.len() > 0 {
        let front = registry.drop_last();
        let before = enabled_rules(front, select, ignore);
        lemma_enabled(front, select, ignore, id);
        let last = registry.last();
        if is_known(front, id) {
            let k = choose|k: int| 0 <= k < front.len() && (#[trigger] front[k]).id@ == id;
            assert(registry[k].id@ == id);
        }
        if is_known(registry, id) && !is_known(front, id) {
            let k = choose|k: int| 0 <= k < registry.len() && (#[trigger] registry[k]).id@ == id;
            if k < front.len() {
                assert(front[k].id@ == id);
            }
            assert(last.id@ == id);
        }
        if pick(last) is Some {
            assert(all == before.push(last.id@));
            assert(registry[registry.len() - 1].id@ == last.id@);
            if all.contains(id) {
                let k = choose|k: int| 0 <= k < all.len() && all[k] == id;
                if k < before.len() {
                    assert(before[k] == id);
                } else {
                    assert(last.id@ == id);
                }
            }
            if before.contains(id) {
                let k = choose|k: int| 0 <= k < before.len() && before[k] == id;
                assert(all[k] == id);
            }
            assert(all[before.len() as int] == last.id@);
        } else {
            assert(all == before);
        }
    }
}

fn copy_severities(severity: &Vec<(String, Severity)>) -> (r: Vec<(String, Severity)>)
    ensures
        r.len() == severity.len(),
        forall|k: int|
            0 <= k < r.len() ==> (#[trigger] r@[k]).0@ == severity@[k].0@ && r@[k].1
                == severity@[k].1,
{
    let mut out: Vec<(String, Severity)> = Vec::new();
    let mut i: usize = 0;
    while i < severity.len()
        invariant
            i <= severity.len(),
            out.len() == i,
            forall|k: int|
                0 <= k < i ==> (#[trigger] out@[k]).0@ == severity@[k].0@ && out@[k].1
                    == severity@[k].1,
        decreases severity.len() - i,
    {
        out.push((severity[i].0.clone(), severity[i].1));
        i = i + 1;
    }
    out
}

/// The rules on by default.
fn default_ids(registry: &Vec<RuleInfo>) -> (r: Vec<String>)
    ensures
        r.deep_view() == kept(
            registry@,
            |rule: RuleInfo|
                if rule.default_enabled {
                    Some(rule.id@)
                } else {
                    None
                },
        ),
{
    let ghost pick = |rule: RuleInfo|
        if rule.default_enabled {
            Some(rule.id@)
        } else {
            None
        };
    let mut out: Vec<String> = Vec::new();
    let mut i: usize = 0;
    proof {
        assert(registry@.take(0) =~= Seq::<RuleInfo>::empty());
        assert(out.deep_view() =~= Seq::<Seq<char>>::empty());
    }
    while i < registry.len()
        invariant
            i <= registry.len(),
            pick == |rule: RuleInfo|
                if rule.default_enabled {
                    Some(rule.id@)
                } else {
                    None
                },
            out.deep_view() == kept(registry@.take(i as int), pick),
        decreases registry.len() - i,
    {
        proof {
            lemma_kept_step(registry@, pick, i as int);
        }
        if registry[i].default_enabled {
            let ghost before = out.deep_view();
            out.push(registry[i].id.clone());
            proof {
                assert(out.deep_view() =~= before.push(registry@[i as int].id@));
            }
        }
        i = i + 1;
    }
    proof {
        assert(registry@.take(i as int) =~= registry@);
    }
    out
}

fn knows(registry: &Vec<RuleInfo>, id: &str) -> (r: bool)
    ensures
        r == is_known(registry@, id@),
{
    let mut i: usize = 0;
    while i < registry.len()
        invariant
            i <= registry.len(),
            forall|k: int| 0 <= k < i ==> (#[trigger] registry@[k]).id@ != id@,
        decreases registry.len() - i,
    {
        if same_text(registry[i].id.as_str(), id) {
            return true;
        }
        i = i + 1;
    }
    false
}

fn push_unknown(out: &mut Vec<String>, registry: &Vec<RuleInfo>, id: &str)
    ensures
        final(out).deep_view() == (if is_known(registry@, id@) {
            old(out).deep_view()
        } else {
            old(out).deep_view().push(id@)
        }),
{
    if !knows(registry, id) {
        let ghost before = out.deep_view();
        out.push(id.to_owned());
        proof {
            assert(out.deep_view() =~= before.push(id@));
        }
    }
}

fn push_all_unknown(out: &mut Vec<String>, registry: &Vec<RuleInfo>, ids: &Vec<String>)
    ensures
        final(out).deep_view() == old(out).deep_view() + unknown_ids(registry@, ids.deep_view()),
{
    let ghost start = out.deep_view();
    let ghost all = ids.deep_view();
    let ghost pick = |id: Seq<char>|
        if is_known(registry@, id) {
            None
        } else {
            Some(id)
        };
    let mut i: usize = 0;
    proof {
        assert(all.take(0) =~= Seq::<Seq<char>>::empty());
        assert(start + kept(all.take(0), pick) =~= start);
    }
    while i < ids.len()
        invariant
            i <= ids.len(),
            all == ids.deep_view(),
            pick == |id: Seq<char>|
                if is_known(registry@, id) {
                    None
                } else {
                    Some(id)
                },
            out.deep_view() == start + kept(all.take(i as int), pick),
        decreases ids.len() - i,
    {
        let ghost before = out.deep_view();
        proof {
            lemma_kept_step(all, pick, i as int);
        }
        push_unknown(out, registry, ids[i].as_str());
        proof {
            assert(out.deep_view() =~= start + kept(all.take(i + 1), pick));
        }
        i = i + 1;
    }
    proof {
        assert(all.take(i as int) =~= all);
    }
}

proof fn lemma_unknown_concat(registry: Seq<RuleInfo>, a: Seq<Seq<char>>, b: Seq<Seq<char>>)
    ensures
        unknown_ids(registry, a + b) == unknown_ids(registry, a) + unknown_ids(registry, b),
    decreases b.len(),
{
    if b.len() == 0 {
        assert(a + b =~= a);
        assert(unknown_ids(registry, a) + unknown_ids(registry, b) =~= unknown_ids(registry, a));
    } else {
        assert((a + b).drop_last() =~= a + b.drop_last());
        lemma_unknown_concat(registry, a, b.drop_last());
        assert(unknown_ids(registry, a + b) =~= unknown_ids(registry, a) + unknown_ids(
            registry,
            b,
        ));
    }
}

impl<O> ResolvedRules<O> {
    /// The rules that a configuration turns on, and the ids that it names and the
    /// linter does not know.
    pub fn resolve(registry: &Vec<RuleInfo>, lint: &LintConfig<O>) -> (r: (
        ResolvedRules<O>,
        Vec<String>,
    ))
        ensures
            r.0.deep_view().enabled == enabled_rules(
                registry@,
                selected(registry@, lint.deep_view()),
                lint.ignore.deep_view(),
            ),
            r.0.deep_view().severity == lint.deep_view().severity,
            r.0.deep_view().options == lint.deep_view().options,
            r.1.deep_view() == unknown_ids(registry@, named_ids(lint.deep_view())),
    {
        let select = match &lint.select {
            Some(select) => copy_texts(select),
            None => default_ids(registry),
        };
        let ghost wanted = select.deep_view();
        let ghost ignored = lint.ignore.deep_view();
        let ghost pick = |rule: RuleInfo|
            if wanted.contains(rule.id@) && !ignored.contains(rule.id@) {
                Some(rule.id@)
            } else {
                None
            };
        let mut enabled: Vec<String> = Vec::new();
        let mut i: usize = 0;
        proof {
            assert(registry@.take(0) =~= Seq::<RuleInfo>::empty());
            assert(enabled.deep_view() =~= Seq::<Seq<char>>::empty());
        }
        while i < registry.len()
            invariant
                i <= registry.len(),
                wanted == select.deep_view(),
                ignored == lint.ignore.deep_view(),
                pick == |rule: RuleInfo|
                    if wanted.contains(rule.id@) && !ignored.contains(rule.id@) {
                        Some(rule.id@)
                    } else {
                        None
                    },
                enabled.deep_view() == kept(registry@.take(i as int), pick),
            decreases registry.len() - i,
        {
            proof {
                lemma_kept_step(registry@, pick, i as int);
            }
            let id = registry[i].id.as_str();
            if holds_text(&select, id) && !holds_text(&lint.ignore, id) {
                let ghost before = enabled.deep_view();
                enabled.push(id.to_owned());
                proof {
                    assert(enabled.deep_view() =~= before.push(id@));
                }
            }
            i = i + 1;
        }
        proof {
            assert(registry@.take(i as int) =~= registry@);
        }
        let mut unknown: Vec<String> = Vec::new();
        let ghost chosen = match lint.deep_view().select {
            Some(select) => select,
            None => Seq::empty(),
        };
        proof {
            assert(unknown.deep_view() =~= unknown_ids(registry@, Seq::empty()));
        }
        if let Some(select) = &lint.select {
            push_all_unknown(&mut unknown, registry, select);
        }
        proof {
            assert(unknown.deep_view() =~= unknown_ids(registry@, chosen));
        }
        push_all_unknown(&mut unknown, registry, &lint.ignore);
        let mut overridden: Vec<String> = Vec::new();
        let mut j: usize = 0;
        while j < lint.severity.len()
            invariant
                j <= lint.severity.len(),
                overridden.len() == j,
                forall|k: int|
                    0 <= k < j ==> #[trigger] overridden@[k]@ == lint.severity@[k].0@,
            decreases lint.severity.len() - j,
        {
            overridden.push(lint.severity[j].0.clone());
            j = j + 1;
        }
        push_all_unknown(&mut unknown, registry, &overridden);
        proof {
            let tail = Seq::new(
                lint.deep_view().severity.len(),
                |i: int| lint.deep_view().severity[i].0,
            );
            assert(overridden.deep_view() =~= tail);
            lemma_unknown_concat(registry@, chosen, ignored);
            lemma_unknown_concat(registry@, chosen + ignored, tail);
        }
        let severity = copy_severities(&lint.severity);
        let r = ResolvedRules { enabled, severity, options: lint.options.clone() };
        proof {
            assert(r.deep_view().severity =~= lint.deep_view().severity);
        }
        (r, unknown)
    }
}

/// The rules that the server lints with: those of the configuration, and for
/// files of the workspace those and [`member_rules`].
#[derive(Debug)]
pub struct ServerRules<O> {
    pub plain: ResolvedRules<O>,
    pub member: ResolvedRules<O>,
}

/// The two rule sets of a configuration; both have its severities and the options
/// of single rules.
pub open spec fn server_rules<O>(registry: Seq<RuleInfo>, lint: LintView<O>) -> (
    RulesView<O>,
    RulesView<O>,
) {
    (
        RulesView {
            enabled: enabled_rules(registry, selected(registry, lint), lint.ignore),
            severity: lint.severity,
            options: lint.options,
        },
        RulesView {
            enabled: enabled_rules(registry, member_selection(registry, lint), lint.ignore),
            severity: lint.severity,
            options: lint.options,
        },
    )
}

fn add_id(select: &mut Vec<String>, id: &str)
    ensures
        final(select).deep_view() == with_id(old(select).deep_view(), id@),
{
    if !holds_text(select, id) {
        let ghost before = select.deep_view();
        select.push(id.to_owned());
        proof {
            assert(select.deep_view() =~= before.push(id@));
        }
    }
}

impl<O> ServerRules<O> {
    /// Resolves both rule sets, and gives the ids that the configuration names and
    /// the linter does not know.
    pub fn from_config(lint: &LintConfig<O>, registry: &Vec<RuleInfo>) -> (r: (
        ServerRules<O>,
        Vec<String>,
    ))
        ensures
            (r.0.plain.deep_view(), r.0.member.deep_view()) == server_rules(
                registry@,
                lint.deep_view(),
            ),
            r.1.deep_view() == unknown_ids(registry@, named_ids(lint.deep_view())),
    {
        let (plain, unknown) = ResolvedRules::resolve(registry, lint);
        let mut select = match &lint.select {
            Some(select) => copy_texts(select),
            None => default_ids(registry),
        };
        add_id(&mut select, "undefined-name");
        add_id(&mut select, "call-arity");
        let member_config = LintConfig {
            select: Some(select),
            ignore: copy_texts(&lint.ignore),
            severity: copy_severities(&lint.severity),
            options: lint.options.clone(),
        };
        proof {
            assert(member_config.deep_view().severity =~= lint.deep_view().severity);
        }
        let (member, _) = ResolvedRules::resolve(registry, &member_config);
        (ServerRules { plain, member }, unknown)
    }

    /// The rules for a file, by whether it belongs to the workspace.
    pub fn get(&self, workspace_member: bool) -> (r: &ResolvedRules<O>)
        ensures
            *r == (if workspace_member {
                self.member
            } else {
                self.plain
            }),
    {
        if workspace_member {
            &self.member
        } else {
            &self.plain
        }
    }

    /// The rule sets of the default configuration, whose rules have `options`.
    pub fn defaults(registry: &Vec<RuleInfo>, options: O) -> (r: ServerRules<O>)
        ensures
            (r.plain.deep_view(), r.member.deep_view()) == server_rules(
                registry@,
                LintView {
                    select: None,
                    ignore: Seq::empty(),
                    severity: Seq::empty(),
                    options,
                },
            ),
    {
        let lint = LintConfig {
            select: None,
            ignore: Vec::new(),
            severity: Vec::new(),
            options: Arc::new(options),
        };
        proof {
            assert(lint.deep_view().ignore =~= Seq::<Seq<char>>::empty());
            assert(lint.deep_view().severity =~= Seq::<(Seq<char>, Severity)>::empty());
        }
        let (rules, _) = ServerRules::from_config(&lint, registry);
        rules
    }
}

/// A finding keeps its severity, rule, message and place when it is reported, and fades
/// its code exactly where its rule begins with `unused-`.
pub proof fn law_findings_are_reported_as_they_are(
    s: Seq<char>,
    finding: Finding,
    encoding: PositionEncoding,
    rest: Seq<char>,
)
    ensures
        ({
            let shown = finding_diagnostic(s, finding, encoding);
            &&& shown.range == range_at(
                s,
                finding.range.start as int,
                finding.range.end as int,
                encoding,
            )
            &&& shown.message == finding.message@
            &&& shown.source == "fatou"@
            &&& shown.code == Some(finding.rule@)
            &&& shown.severity == DiagnosticSeverity::Error <==> finding.severity == Severity::Error
            &&& shown.severity == DiagnosticSeverity::Warning <==> finding.severity
                == Severity::Warning
            &&& shown.severity == DiagnosticSeverity::Information <==> finding.severity
                == Severity::Info
            &&& shown.severity == DiagnosticSeverity::Hint <==> finding.severity == Severity::Hint
            &&& finding.rule@ == "unused-"@ + rest ==> shown.unnecessary
            &&& shown.unnecessary ==> exists|more: Seq<char>|
                finding.rule@ == #[trigger] ("unused-"@ + more)
        }),
{
    let shown = finding_diagnostic(s, finding, encoding);
    if finding.rule@ == "unused-"@ + rest {
        assert(finding.rule@.subrange(0, "unused-"@.len() as int) =~= "unused-"@);
    }
    if shown.unnecessary {
        let more = finding.rule@.skip("unused-"@.len() as int);
        assert(finding.rule@ =~= "unused-"@ + more);
    }
}

/// A rule runs in any file exactly where the linter knows it, the configuration selects
/// it, or selects nothing and the rule is on by default, and does not ignore it.
pub proof fn law_rules_run_where_asked<O>(registry: Seq<RuleInfo>, lint: LintView<O>, i: int)
    requires
        0 <= i < registry.len(),
        forall|a: int, b: int|
            0 <= a < b < registry.len() ==> (#[trigger] registry[a]).id@ != (
            #[trigger] registry[b]).id@,
    ensures
        ({
            let id = registry[i].id@;
            let asked = if lint.select is Some {
                lint.select->0.contains(id)
            } else {
                registry[i].default_enabled
            };
            let ignored = lint.ignore.contains(id);
            let (plain, member) = server_rules(registry, lint);
            &&& plain.enabled.contains(id) <==> asked && !ignored
            &&& member.enabled.contains(id) <==> !ignored && (asked || id == "undefined-name"@ || id
                == "call-arity"@)
        }),
{
    let id = registry[i].id@;
    let select = selected(registry, lint);
    let by_default = |rule: RuleInfo|
        if rule.default_enabled {
            Some(rule.id@)
        } else {
            None
        };
    if lint.select is None {
        assert(select == kept(registry, by_default));
        if registry[i].default_enabled {
            let j = lemma_kept_holds(registry, by_default, i);
            assert(select[j] == id);
        }
        if select.contains(id) {
            let j = choose|j: int| 0 <= j < select.len() && select[j] == id;
            let k = lemma_kept_from(registry, by_default, j);
            assert(registry[k].id@ == id);
            assert(k == i);
        }
    }
    let more = with_id(select, "undefined-name"@);
    lemma_selection_grows(select, "undefined-name"@, id);
    lemma_selection_grows(more, "call-arity"@, id);
    lemma_rule_runs(registry, select, lint.ignore, i);
    lemma_rule_runs(registry, member_selection(registry, lint), lint.ignore, i);
}

proof fn lemma_selection_grows(select: Seq<Seq<char>>, id: Seq<char>, other: Seq<char>)
    ensures
        with_id(select, id).contains(other) <==> select.contains(other) || other == id,
{
    let more = with_id(select, id);
    if select.contains(other) {
        let j = choose|j: int| 0 <= j < select.len() && select[j] == other;
        assert(more[j] == other);
    }
    if other == id && !select.contains(id) {
        assert(more[select.len() as int] == id);
    }
}

proof fn lemma_rule_runs(
    registry: Seq<RuleInfo>,
    select: Seq<Seq<char>>,
    ignore: Seq<Seq<char>>,
    i: int,
)
    requires
        0 <= i < registry.len(),
    ensures
        enabled_rules(registry, select, ignore).contains(registry[i].id@) <==> select.contains(
            registry[i].id@,
        ) && !ignore.contains(registry[i].id@),
{
    let f = |rule: RuleInfo|
        if select.contains(rule.id@) && !ignore.contains(rule.id@) {
            Some(rule.id@)
        } else {
            None
        };
    let enabled = enabled_rules(registry, select, ignore);
    assert(enabled == kept(registry, f));
    if select.contains(registry[i].id@) && !ignore.contains(registry[i].id@) {
        let j = lemma_kept_holds(registry, f, i);
        assert(enabled[j] == registry[i].id@);
    }
    if enabled.contains(registry[i].id@) {
        let j = choose|j: int| 0 <= j < enabled.len() && enabled[j] == registry[i].id@;
        let k = lemma_kept_from(registry, f, j);
    }
}

} // verus!
