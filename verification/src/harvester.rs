//! The harvester as a state machine: it resolves the environments of the
//! workspace, harvests their packages, and then harvests again whatever changes.

use vstd::prelude::*;

use crate::graph_diagnostics::{reports_in_order, FileDiagnostics, FileDiagnosticsView};
use crate::harvest::{
    collect_environments, environments_of, indexed_message, last_sent, next_harvest,
    reindexed_message, reindexing_message, step_for, DevPackage, HarvestSignal, HarvestStep,
    ResolvedRoot, SentIndexes,
};
use crate::paths::FilePath;
use crate::progress::{
    after_begin, after_end, begin_messages, end_message, report_message, token_of, HarvestProgress,
    ProgressMessage, ProgressView,
};
use crate::publish::{
    messages_of, publish_findings, published_after, FileFindings, Publish, PublishView,
};
use crate::strings::decimal;

verus! {

/// The harvester: its progress reports, the files that carry diagnostics, the roots
/// whose environments are in use, the packages under development, and what was sent
/// of them.
#[derive(Debug)]
pub struct Harvester {
    pub progress: HarvestProgress,
    pub published: Vec<String>,
    pub roots: Vec<usize>,
    pub packages: Vec<DevPackage>,
    pub sent: SentIndexes,
}

/// What the harvester does.
#[derive(Debug)]
pub enum HarvestAction {
    Progress(ProgressMessage),
    /// Resolve the environment of every root.
    Resolve,
    /// Find the URIs of the files.
    Locate(Vec<FileDiagnostics>),
    Publish(Publish),
    /// Harvest the packages of these roots' environments.
    HarvestLibraries(Vec<usize>),
    /// Send what was harvested.
    SendLibrary,
    /// Take so many signals from the queue.
    Take(usize),
    HarvestPackage(usize),
    /// Send the package that was harvested.
    SendPackage(usize),
    /// Wait for a signal.
    Wait,
}

/// What a [`HarvestAction`] says.
pub enum ActionView {
    Progress(ProgressView),
    Resolve,
    Locate(Seq<FileDiagnosticsView>),
    Publish(PublishView),
    HarvestLibraries(Seq<usize>),
    SendLibrary,
    Take(usize),
    HarvestPackage(usize),
    SendPackage(usize),
    Wait,
}

impl DeepView for HarvestAction {
    type V = ActionView;

    open spec fn deep_view(&self) -> ActionView {
        match *self {
            HarvestAction::Progress(message) => ActionView::Progress(message.deep_view()),
            HarvestAction::Resolve => ActionView::Resolve,
            HarvestAction::Locate(reports) => ActionView::Locate(reports.deep_view()),
            HarvestAction::Publish(message) => ActionView::Publish(message.deep_view()),
            HarvestAction::HarvestLibraries(roots) => ActionView::HarvestLibraries(roots@),
            HarvestAction::SendLibrary => ActionView::SendLibrary,
            HarvestAction::Take(count) => ActionView::Take(count),
            HarvestAction::HarvestPackage(at) => ActionView::HarvestPackage(at),
            HarvestAction::SendPackage(at) => ActionView::SendPackage(at),
            HarvestAction::Wait => ActionView::Wait,
        }
    }
}

/// Progress messages as actions.
pub open spec fn shown(messages: Seq<ProgressView>) -> Seq<ActionView> {
    messages.map_values(|message: ProgressView| ActionView::Progress(message))
}

/// A progress message as an action, where there is one.
pub open spec fn shown_once(message: Option<ProgressView>) -> Seq<ActionView> {
    match message {
        Some(message) => seq![ActionView::Progress(message)],
        None => Seq::empty(),
    }
}

/// Messages that publish diagnostics as actions.
pub open spec fn sent_out(messages: Seq<PublishView>) -> Seq<ActionView> {
    messages.map_values(|message: PublishView| ActionView::Publish(message))
}

fn push_begin(out: &mut Vec<HarvestAction>, messages: Vec<ProgressMessage>)
    ensures
        final(out).deep_view() == old(out).deep_view() + shown(messages.deep_view()),
{
    let ghost start = out.deep_view();
    let ghost all = messages.deep_view();
    let ghost goal = shown(all);
    let mut messages = messages;
    let n = messages.len();
    let mut i: usize = 0;
    proof {
        assert(start + goal.take(0) =~= start);
        assert(all.skip(0) =~= all);
    }
    while i < n
        invariant
            i <= n == all.len(),
            messages.len() == n - i,
            messages.deep_view() == all.skip(i as int),
            goal == shown(all),
            out.deep_view() == start + goal.take(i as int),
        decreases n - i,
    {
        let ghost rest = messages.deep_view();
        let ghost before = out.deep_view();
        let message = messages.remove(0);
        proof {
            assert(message.deep_view() == rest[0]);
            assert(rest[0] == all[i as int]);
            assert(messages.deep_view() =~= rest.drop_first());
            assert(rest.drop_first() =~= all.skip(i + 1));
        }
        out.push(HarvestAction::Progress(message));
        i = i + 1;
        proof {
            assert(out.deep_view() =~= before.push(goal[i - 1]));
            assert(start + goal.take(i as int) =~= (start + goal.take(i - 1)).push(goal[i - 1]));
        }
    }
    proof {
        assert(goal.take(i as int) =~= goal);
    }
}

fn push_progress(out: &mut Vec<HarvestAction>, message: Option<ProgressMessage>)
    ensures
        final(out).deep_view() == old(out).deep_view() + shown_once(message.deep_view()),
{
    let ghost start = out.deep_view();
    match message {
        Some(message) => {
            out.push(HarvestAction::Progress(message));
            proof {
                assert(out.deep_view() =~= start.push(out@.last().deep_view()));
                assert(out.deep_view() =~= start + seq![out@.last().deep_view()]);
            }
        },
        None => {
            proof {
                assert(start + Seq::<ActionView>::empty() =~= start);
            }
        },
    }
}

fn push_action(out: &mut Vec<HarvestAction>, action: HarvestAction)
    ensures
        final(out).deep_view() == old(out).deep_view() + seq![action.deep_view()],
{
    let ghost start = out.deep_view();
    out.push(action);
    proof {
        assert(out.deep_view() =~= start + seq![out@.last().deep_view()]);
    }
}

fn push_messages(out: &mut Vec<HarvestAction>, messages: Vec<Publish>)
    ensures
        final(out).deep_view() == old(out).deep_view() + sent_out(messages.deep_view()),
{
    let ghost start = out.deep_view();
    let ghost all = messages.deep_view();
    let ghost goal = sent_out(all);
    let mut messages = messages;
    let n = messages.len();
    let mut i: usize = 0;
    proof {
        assert(start + goal.take(0) =~= start);
        assert(all.skip(0) =~= all);
    }
    while i < n
        invariant
            i <= n == all.len(),
            messages.len() == n - i,
            messages.deep_view() == all.skip(i as int),
            goal == sent_out(all),
            out.deep_view() == start + goal.take(i as int),
        decreases n - i,
    {
        let ghost rest = messages.deep_view();
        let ghost before = out.deep_view();
        let message = messages.remove(0);
        proof {
            assert(message.deep_view() == rest[0]);
            assert(rest[0] == all[i as int]);
            assert(messages.deep_view() =~= rest.drop_first());
            assert(rest.drop_first() =~= all.skip(i + 1));
        }
        out.push(HarvestAction::Publish(message));
        i = i + 1;
        proof {
            assert(out.deep_view() =~= before.push(goal[i - 1]));
            assert(start + goal.take(i as int) =~= (start + goal.take(i - 1)).push(goal[i - 1]));
        }
    }
    proof {
        assert(goal.take(i as int) =~= goal);
    }
}

fn no_actions() -> (r: Vec<HarvestAction>)
    ensures
        r.deep_view() == Seq::<ActionView>::empty(),
{
    let r: Vec<HarvestAction> = Vec::new();
    proof {
        assert(r.deep_view() =~= Seq::<ActionView>::empty());
    }
    r
}

/// The title of every cycle.
pub open spec fn title() -> Seq<char> {
    "Indexing Julia environment"@
}

/// What is done of a package that was harvested, given the index that was sent of
/// it last: the cycle ends, and the package is sent where its index is another.
pub open spec fn package_actions(
    last: Option<Seq<u8>>,
    progress: HarvestProgress,
    name: Seq<char>,
    index: Seq<u8>,
    at: usize,
) -> Seq<ActionView> {
    shown_once(end_message(progress, "Re-indexed "@ + name)) + (if last == Some(index) {
        Seq::empty()
    } else {
        seq![ActionView::SendPackage(at)]
    }) + seq![ActionView::Wait]
}

impl Harvester {
    /// Its progress reports are in order.
    pub open spec fn wf(&self) -> bool {
        self.progress.wf()
    }

    /// A harvester that has done nothing.
    pub fn new(report_progress: bool) -> (r: Harvester)
        ensures
            r.wf(),
            r.progress.enabled == report_progress,
            r.progress.next == 0,
            r.progress.active is None,
            r.published.len() == 0,
            r.roots.len() == 0,
            r.packages.len() == 0,
            forall|name: Seq<char>| #[trigger] last_sent(r.sent.entries@, name) is None,
    {
        Harvester {
            progress: HarvestProgress::new(report_progress),
            published: Vec::new(),
            roots: Vec::new(),
            packages: Vec::new(),
            sent: SentIndexes::new(),
        }
    }

    /// Begins its work for the roots of a workspace; without one there is nothing to
    /// harvest.
    pub fn open(&mut self, workspace_roots: &Vec<FilePath>) -> (r: Vec<HarvestAction>)
        requires
            old(self).wf(),
            old(self).progress.next < u64::MAX,
        ensures
            final(self).wf(),
            workspace_roots.len() == 0 ==> *final(self) == *old(self) && r.len() == 0,
            workspace_roots.len() > 0 ==> {
                &&& final(self).progress == after_begin(old(self).progress)
                &&& final(self).published == old(self).published
                &&& final(self).roots == old(self).roots
                &&& final(self).packages == old(self).packages
                &&& final(self).sent == old(self).sent
                &&& r.deep_view() == shown(
                    begin_messages(old(self).progress, title(), "Resolving environment"@),
                ) + seq![ActionView::Resolve]
            },
    {
        if workspace_roots.len() == 0 {
            Vec::new()
        } else {
            self.start()
        }
    }

    /// Begins a full pass.
    pub fn start(&mut self) -> (r: Vec<HarvestAction>)
        requires
            old(self).wf(),
            old(self).progress.next < u64::MAX,
        ensures
            final(self).wf(),
            final(self).progress == after_begin(old(self).progress),
            final(self).published == old(self).published,
            final(self).roots == old(self).roots,
            final(self).packages == old(self).packages,
            final(self).sent == old(self).sent,
            r.deep_view() == shown(
                begin_messages(old(self).progress, title(), "Resolving environment"@),
            ) + seq![ActionView::Resolve],
    {
        let mut out = no_actions();
        let messages = self.progress.begin("Indexing Julia environment", "Resolving environment");
        let ghost shown_first = shown(messages.deep_view());
        push_begin(&mut out, messages);
        push_action(&mut out, HarvestAction::Resolve);
        proof {
            assert(out.deep_view() =~= shown_first + seq![ActionView::Resolve]);
        }
        out
    }

    /// The environments have been resolved: one is used for each project, and what
    /// is wrong with their files is to be published.
    pub fn resolved(&mut self, outcomes: Vec<ResolvedRoot>) -> (r: Vec<HarvestAction>)
        requires
            old(self).wf(),
        ensures
            final(self).wf(),
            final(self).progress == old(self).progress,
            final(self).published == old(self).published,
            final(self).roots@ == environments_of(outcomes.deep_view()).roots,
            final(self).packages == old(self).packages,
            final(self).sent == old(self).sent,
            r.deep_view() == seq![
                ActionView::Locate(
                    reports_in_order(environments_of(outcomes.deep_view()).reports),
                ),
            ],
    {
        let environments = collect_environments(outcomes);
        self.roots = environments.roots;
        let mut out = no_actions();
        push_action(&mut out, HarvestAction::Locate(environments.reports));
        proof {
            assert(out.deep_view() =~= seq![out.deep_view()[0]]);
        }
        out
    }

    /// The files with diagnostics have their URIs: what is new is published, what is
    /// gone is cleared, and the packages are harvested.
    pub fn located(&mut self, findings: Vec<FileFindings>) -> (r: Vec<HarvestAction>)
        requires
            old(self).wf(),
        ensures
            final(self).wf(),
            final(self).progress == old(self).progress,
            final(self).published.deep_view() == published_after(findings.deep_view()),
            final(self).roots == old(self).roots,
            final(self).packages == old(self).packages,
            final(self).sent == old(self).sent,
            r.deep_view() == sent_out(
                messages_of(findings.deep_view(), old(self).published.deep_view()),
            ) + shown_once(
                report_message(old(self).progress, "Indexing Base and packages"@),
            ) + seq![ActionView::HarvestLibraries(old(self).roots@)],
    {
        let mut out = no_actions();
        let messages = publish_findings(findings, &mut self.published);
        let ghost first = sent_out(messages.deep_view());
        push_messages(&mut out, messages);
        proof {
            assert(out.deep_view() =~= first);
        }
        push_progress(&mut out, self.progress.report("Indexing Base and packages"));
        let mut roots: Vec<usize> = Vec::new();
        let mut i: usize = 0;
        while i < self.roots.len()
            invariant
                i <= self.roots.len(),
                roots@ == self.roots@.take(i as int),
            decreases self.roots.len() - i,
        {
            roots.push(self.roots[i]);
            i = i + 1;
        }
        proof {
            assert(roots@ =~= self.roots@);
        }
        push_action(&mut out, HarvestAction::HarvestLibraries(roots));
        out
    }

    /// The packages have been harvested: they are sent, also where there are none,
    /// and nothing counts as sent of the packages under development.
    pub fn harvested(&mut self, indexed: u64, packages: Vec<DevPackage>) -> (r: Vec<HarvestAction>)
        requires
            old(self).wf(),
        ensures
            final(self).wf(),
            final(self).progress == after_end(old(self).progress),
            final(self).published == old(self).published,
            final(self).roots == old(self).roots,
            final(self).packages == packages,
            forall|name: Seq<char>| #[trigger] last_sent(final(self).sent.entries@, name) is None,
            r.deep_view() == seq![ActionView::SendLibrary] + shown_once(
                end_message(
                    old(self).progress,
                    "Indexed "@ + decimal(indexed as nat) + " packages"@,
                ),
            ) + seq![ActionView::Wait],
    {
        let mut out = no_actions();
        push_action(&mut out, HarvestAction::SendLibrary);
        proof {
            assert(out.deep_view() =~= seq![ActionView::SendLibrary]);
        }
        let message = indexed_message(indexed);
        push_progress(&mut out, self.progress.end(message.as_str()));
        push_action(&mut out, HarvestAction::Wait);
        self.packages = packages;
        self.sent = SentIndexes::new();
        out
    }

    /// Signals have come: a changed project or manifest settles them all and begins
    /// a full pass; a changed source is harvested with its package, or else ignored.
    pub fn signalled(&mut self, queue: &Vec<HarvestSignal>) -> (r: Vec<HarvestAction>)
        requires
            old(self).wf(),
            old(self).progress.next < u64::MAX,
            queue.len() > 0,
        ensures
            final(self).wf(),
            final(self).published == old(self).published,
            final(self).roots == old(self).roots,
            final(self).packages == old(self).packages,
            final(self).sent == old(self).sent,
            match step_for(old(self).packages@, queue@[0]) {
                HarvestStep::Resolve => {
                    &&& final(self).progress == after_begin(old(self).progress)
                    &&& r.deep_view() == seq![ActionView::Take(queue.len())] + shown(
                        begin_messages(old(self).progress, title(), "Resolving environment"@),
                    ) + seq![ActionView::Resolve]
                },
                HarvestStep::Harvest(at) => {
                    &&& final(self).progress == after_begin(old(self).progress)
                    &&& r.deep_view() == seq![ActionView::Take(1)] + shown(
                        begin_messages(
                            old(self).progress,
                            title(),
                            "Re-indexing "@ + old(self).packages@[at as int].name@,
                        ),
                    ) + seq![ActionView::HarvestPackage(at)]
                },
                HarvestStep::Ignore => {
                    &&& final(self).progress == old(self).progress
                    &&& r.deep_view() == seq![ActionView::Take(1)] + seq![ActionView::Wait]
                },
            },
    {
        let (step, settled) = next_harvest(queue, &self.packages);
        let mut out = no_actions();
        push_action(&mut out, HarvestAction::Take(settled));
        proof {
            assert(out.deep_view() =~= seq![ActionView::Take(settled)]);
        }
        match step {
            HarvestStep::Resolve => {
                let messages = self.progress.begin(
                    "Indexing Julia environment",
                    "Resolving environment",
                );
                push_begin(&mut out, messages);
                push_action(&mut out, HarvestAction::Resolve);
            },
            HarvestStep::Harvest(at) => {
                let message = reindexing_message(self.packages[at].name.as_str());
                let messages = self.progress.begin("Indexing Julia environment", message.as_str());
                push_begin(&mut out, messages);
                push_action(&mut out, HarvestAction::HarvestPackage(at));
            },
            HarvestStep::Ignore => {
                push_action(&mut out, HarvestAction::Wait);
            },
        }
        out
    }

    /// Package `at` has been harvested again: it is sent unless it is what was sent
    /// last.
    pub fn package_harvested(&mut self, at: usize, index: Vec<u8>) -> (r: Vec<HarvestAction>)
        requires
            old(self).wf(),
            at < old(self).packages.len(),
        ensures
            final(self).wf(),
            final(self).progress == after_end(old(self).progress),
            final(self).published == old(self).published,
            final(self).roots == old(self).roots,
            final(self).packages == old(self).packages,
            ({
                let name = old(self).packages@[at as int].name@;
                &&& last_sent(final(self).sent.entries@, name) == Some(index@)
                &&& forall|other: Seq<char>|
                    other != name ==> #[trigger] last_sent(final(self).sent.entries@, other)
                        == last_sent(old(self).sent.entries@, other)
                &&& r.deep_view() == package_actions(
                    last_sent(old(self).sent.entries@, name),
                    old(self).progress,
                    name,
                    index@,
                    at,
                )
            }),
    {
        let mut out = no_actions();
        let message = reindexed_message(self.packages[at].name.as_str());
        let ended = self.progress.end(message.as_str());
        let ghost first = shown_once(ended.deep_view());
        push_progress(&mut out, ended);
        proof {
            assert(out.deep_view() =~= first);
        }
        if self.sent.harvested(self.packages[at].name.as_str(), index) {
            push_action(&mut out, HarvestAction::SendPackage(at));
        } else {
            proof {
                assert(first + Seq::<ActionView>::empty() =~= first);
            }
        }
        push_action(&mut out, HarvestAction::Wait);
        out
    }
}

/// A package whose index is the one that was sent last is not sent again.
pub proof fn law_unchanged_package_is_not_sent(
    progress: HarvestProgress,
    name: Seq<char>,
    index: Seq<u8>,
    at: usize,
)
    ensures
        !package_actions(Some(index), progress, name, index, at).contains(
            ActionView::SendPackage(at),
        ),
{
}

/// A package whose index is another than the one that was sent last, or of which none was
/// sent, is sent; either way its cycle ends and the next signal is waited for.
pub proof fn law_changed_package_is_sent(
    last: Option<Seq<u8>>,
    progress: HarvestProgress,
    name: Seq<char>,
    index: Seq<u8>,
    at: usize,
)
    ensures
        ({
            let actions = package_actions(last, progress, name, index, at);
            &&& last is None || last->0 != index ==> actions.contains(ActionView::SendPackage(at))
            &&& progress.active is Some ==> actions[0] == ActionView::Progress(
                ProgressView::End {
                    token: token_of(progress.active->0),
                    message: "Re-indexed "@ + name,
                },
            )
            &&& actions.last() == ActionView::Wait
        }),
{
    let actions = package_actions(last, progress, name, index, at);
    let first = shown_once(end_message(progress, "Re-indexed "@ + name));
    if last is None || last->0 != index {
        assert(actions[first.len() as int] == ActionView::SendPackage(at));
    }
}

} // verus!
