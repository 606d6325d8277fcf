//! The queue in front of the analysis thread, which owns the database.
//!
//! Requests are coalesced, the latest version of each document alone staying in
//! the queue. At most one analysis is in flight; it is canceled only by a newer
//! edit of its own document.

use vstd::prelude::*;

use crate::paths::FilePath;
use crate::search::{first_index, lemma_first_index, lemma_first_index_is};
use crate::strings::same_text;
use crate::text::char_index;

verus! {

/// One replacement in a buffer, in byte offsets.
#[derive(Debug)]
pub struct Edit {
    pub start: usize,
    pub end: usize,
    pub insert: String,
}

/// What an [`Edit`] says.
pub struct EditView {
    pub start: int,
    pub end: int,
    pub insert: Seq<char>,
}

impl DeepView for Edit {
    type V = EditView;

    open spec fn deep_view(&self) -> EditView {
        EditView { start: self.start as int, end: self.end as int, insert: self.insert@ }
    }
}

/// The text that a chain of edits makes of another, each edit speaking of what
/// the ones before it made.
pub open spec fn replayed(text: Seq<char>, edits: Seq<EditView>) -> Seq<char>
    decreases edits.len(),
{
    if edits.len() == 0 {
        text
    } else {
        let before = replayed(text, edits.drop_last());
        let edit = edits.last();
        before.take(char_index(before, edit.start)) + edit.insert + before.skip(
            char_index(before, edit.end),
        )
    }
}

/// Replaying two chains one behind the other is replaying the second on what the
/// first made.
pub proof fn law_chains_compose(text: Seq<char>, first: Seq<EditView>, second: Seq<EditView>)
    ensures
        replayed(text, first + second) == replayed(replayed(text, first), second),
    decreases second.len(),
{
    if second.len() == 0 {
        assert(first + second =~= first);
    } else {
        assert((first + second).drop_last() =~= first + second.drop_last());
        law_chains_compose(text, first, second.drop_last());
    }
}

/// A request to refresh the diagnostics of a buffer, with whatever else the
/// analysis needs in `context`.
#[derive(Debug)]
pub struct AnalysisRequest<T> {
    pub uri: String,
    pub text: String,
    pub version: i32,
    /// The edits that made `text` of the text sent before, or `None` where they
    /// are not known.
    pub edits: Option<Vec<Edit>>,
    pub context: T,
}

/// What an [`AnalysisRequest`] says.
pub struct RequestView<T> {
    pub uri: Seq<char>,
    pub text: Seq<char>,
    pub version: i32,
    pub edits: Option<Seq<EditView>>,
    pub context: T,
}

impl<T> DeepView for AnalysisRequest<T> {
    type V = RequestView<T>;

    open spec fn deep_view(&self) -> RequestView<T> {
        RequestView {
            uri: self.uri@,
            text: self.text@,
            version: self.version,
            edits: self.edits.deep_view(),
            context: self.context,
        }
    }
}

/// What the queue should do next.
#[derive(Debug)]
pub enum DispatchAction {
    /// Nothing to start, or the analysis in flight goes on.
    Wait,
    /// The slot is free: start this document.
    Start(String),
    /// A newer edit of the document in flight has come: cancel it and start again.
    SupersedeAndStart(String),
}

/// What a [`DispatchAction`] says.
pub enum DispatchView {
    Wait,
    Start(Seq<char>),
    SupersedeAndStart(Seq<char>),
}

impl DeepView for DispatchAction {
    type V = DispatchView;

    open spec fn deep_view(&self) -> DispatchView {
        match *self {
            DispatchAction::Wait => DispatchView::Wait,
            DispatchAction::Start(uri) => DispatchView::Start(uri@),
            DispatchAction::SupersedeAndStart(uri) => DispatchView::SupersedeAndStart(uri@),
        }
    }
}

/// That an entry of a queue is for one document.
pub open spec fn is_entry_for(uri: Seq<char>) -> spec_fn((Seq<char>, i32)) -> bool {
    |entry: (Seq<char>, i32)| entry.0 == uri
}

/// Where a document stands in a queue of documents and versions.
pub open spec fn queue_index(pending: Seq<(Seq<char>, i32)>, uri: Seq<char>) -> int {
    first_index(pending, is_entry_for(uri))
}

/// Whether a document is in a queue.
pub open spec fn queued(pending: Seq<(Seq<char>, i32)>, uri: Seq<char>) -> bool {
    queue_index(pending, uri) < pending.len()
}

/// What to do next. Idle, the active document comes first, then whichever is
/// first in the queue; busy, only a newer version of the document in flight
/// counts.
pub open spec fn decision(
    inflight: Option<(Seq<char>, i32)>,
    pending: Seq<(Seq<char>, i32)>,
    active: Option<Seq<char>>,
) -> DispatchView {
    match inflight {
        None => if active is Some && queued(pending, active->0) {
            DispatchView::Start(active->0)
        } else if pending.len() > 0 {
            DispatchView::Start(pending[0].0)
        } else {
            DispatchView::Wait
        },
        Some((uri, version)) => if queued(pending, uri) && pending[queue_index(pending, uri)].1
            > version {
            DispatchView::SupersedeAndStart(uri)
        } else {
            DispatchView::Wait
        },
    }
}

fn queue_position(pending: &Vec<(String, i32)>, uri: &str) -> (r: usize)
    ensures
        r == queue_index(pending.deep_view(), uri@),
{
    let ghost here = is_entry_for(uri@);
    let ghost all = pending.deep_view();
    let mut at: usize = 0;
    while at < pending.len() && !same_text(pending[at].0.as_str(), uri)
        invariant
            at <= pending.len(),
            all == pending.deep_view(),
            here == is_entry_for(uri@),
            forall|k: int| 0 <= k < at ==> !here(#[trigger] all[k]),
        decreases pending.len() - at,
    {
        proof {
            assert(all[at as int].0 == pending@[at as int].0@);
        }
        at = at + 1;
    }
    proof {
        if at < pending.len() {
            assert(all[at as int].0 == pending@[at as int].0@);
        }
        lemma_first_index_is(all, here, at as int);
    }
    at
}

/// Decides what to do next. `inflight` is the document being analyzed and its
/// version, `pending` the latest version of each queued document, `active` the
/// document edited last.
pub fn decide(
    inflight: Option<(&str, i32)>,
    pending: &Vec<(String, i32)>,
    active: Option<&str>,
) -> (r: DispatchAction)
    ensures
        r.deep_view() == decision(
            match inflight {
                Some((uri, version)) => Some((uri@, version)),
                None => None,
            },
            pending.deep_view(),
            match active {
                Some(uri) => Some(uri@),
                None => None,
            },
        ),
{
    match inflight {
        None => {
            if let Some(uri) = active {
                if queue_position(pending, uri) < pending.len() {
                    return DispatchAction::Start(uri.to_owned());
                }
            }
            if pending.len() > 0 {
                proof {
                    assert(pending.deep_view()[0].0 == pending@[0].0@);
                }
                DispatchAction::Start(pending[0].0.clone())
            } else {
                DispatchAction::Wait
            }
        },
        Some((uri, version)) => {
            let at = queue_position(pending, uri);
            if at < pending.len() && pending[at].1 > version {
                DispatchAction::SupersedeAndStart(uri.to_owned())
            } else {
                DispatchAction::Wait
            }
        },
    }
}

/// An analysis in flight is canceled only for its own document, and only for a
/// strictly newer version of it; nothing else starts meanwhile.
pub proof fn law_only_own_newer_edit_cancels(
    uri: Seq<char>,
    version: i32,
    pending: Seq<(Seq<char>, i32)>,
    active: Option<Seq<char>>,
)
    ensures
        match decision(Some((uri, version)), pending, active) {
            DispatchView::Wait => true,
            DispatchView::Start(_) => false,
            DispatchView::SupersedeAndStart(other) => other == uri && exists|i: int|
                0 <= i < pending.len() && (#[trigger] pending[i]).0 == uri && pending[i].1
                    > version,
        },
{
    let here = is_entry_for(uri);
    lemma_first_index(pending, here);
    let at = queue_index(pending, uri);
    if at < pending.len() {
        assert(here(pending[at]));
    }
}

/// Idle, a queue that holds anything starts one of its documents: nothing queued
/// waits forever for want of the active document.
pub proof fn law_idle_queue_drains(
    pending: Seq<(Seq<char>, i32)>,
    active: Option<Seq<char>>,
)
    ensures
        match decision(None, pending, active) {
            DispatchView::Wait => pending.len() == 0,
            DispatchView::Start(uri) => queued(pending, uri),
            DispatchView::SupersedeAndStart(_) => false,
        },
{
    if pending.len() > 0 {
        let uri = pending[0].0;
        lemma_first_index_is(pending, is_entry_for(uri), 0);
    }
}

/// The document that is being analyzed.
#[derive(Debug)]
pub struct Inflight {
    pub uri: String,
    pub version: i32,
}

/// The state of the queue.
#[derive(Debug)]
pub struct AnalysisQueue<T> {
    pub inflight: Option<Inflight>,
    /// The latest pending request of each document.
    pub pending: Vec<AnalysisRequest<T>>,
    /// The document edited last.
    pub active: Option<String>,
}

/// What an [`AnalysisQueue`] holds.
pub struct QueueView<T> {
    pub inflight: Option<(Seq<char>, i32)>,
    pub pending: Seq<RequestView<T>>,
    pub active: Option<Seq<char>>,
}

impl<T> DeepView for AnalysisQueue<T> {
    type V = QueueView<T>;

    open spec fn deep_view(&self) -> QueueView<T> {
        QueueView {
            inflight: match self.inflight {
                Some(inflight) => Some((inflight.uri@, inflight.version)),
                None => None,
            },
            pending: self.pending.deep_view(),
            active: self.active.deep_view(),
        }
    }
}

/// That a request is for one document.
pub open spec fn is_request_for<T>(uri: Seq<char>) -> spec_fn(RequestView<T>) -> bool {
    |request: RequestView<T>| request.uri == uri
}

/// Where the request for a document stands.
pub open spec fn request_index<T>(pending: Seq<RequestView<T>>, uri: Seq<char>) -> int {
    first_index(pending, is_request_for(uri))
}

/// Whether each document has one request at most.
pub open spec fn unique_uris<T>(pending: Seq<RequestView<T>>) -> bool {
    forall|i: int, j: int|
        0 <= i < j < pending.len() ==> (#[trigger] pending[i]).uri != (#[trigger] pending[j]).uri
}

/// The edits of a request that replaces another: both chains where both are
/// known.
pub open spec fn chained(
    kept_edits: Option<Seq<EditView>>,
    fresh: Option<Seq<EditView>>,
) -> Option<Seq<EditView>> {
    match (kept_edits, fresh) {
        (Some(kept_edits), Some(fresh)) => Some(kept_edits + fresh),
        _ => None,
    }
}

/// The queue with one more request. A newer version replaces the one it holds and
/// takes over its edits; an older or equal one is dropped, and where its text
/// differs the edits of the one that stays no longer say how its text came about.
pub open spec fn enqueued<T>(pending: Seq<RequestView<T>>, request: RequestView<T>) -> Seq<
    RequestView<T>,
> {
    let at = request_index(pending, request.uri);
    if at >= pending.len() {
        pending.push(request)
    } else {
        let existing = pending[at];
        if existing.version >= request.version {
            if existing.text != request.text {
                pending.update(at, RequestView { edits: None, ..existing })
            } else {
                pending
            }
        } else {
            pending.update(
                at,
                RequestView { edits: chained(existing.edits, request.edits), ..request },
            )
        }
    }
}

/// Coalescing keeps one request for each document.
pub proof fn law_enqueue_keeps_unique<T>(pending: Seq<RequestView<T>>, request: RequestView<T>)
    requires
        unique_uris(pending),
    ensures
        unique_uris(enqueued(pending, request)),
{
    lemma_first_index(pending, is_request_for::<T>(request.uri));
}

/// Coalescing keeps the highest version of a document.
pub proof fn law_enqueue_keeps_newest<T>(pending: Seq<RequestView<T>>, request: RequestView<T>)
    ensures
        ({
            let before = request_index(pending, request.uri);
            let after = request_index(enqueued(pending, request), request.uri);
            &&& after < enqueued(pending, request).len()
            &&& enqueued(pending, request)[after].uri == request.uri
            &&& enqueued(pending, request)[after].version >= request.version
            &&& before < pending.len() ==> enqueued(pending, request)[after].version
                >= pending[before].version
        }),
{
    let here = is_request_for::<T>(request.uri);
    lemma_first_index(pending, here);
    let at = request_index(pending, request.uri);
    let result = enqueued(pending, request);
    if at < pending.len() {
        assert(here(pending[at]));
    }
    assert forall|k: int| 0 <= k < at implies !here(#[trigger] result[k]) by {
        assert(!here(pending[k]));
    }
    lemma_first_index_is(result, here, at);
}

/// The edits that stay with a coalesced request lead from the text that the first
/// one started from to the text that is left.
pub proof fn law_coalesced_edits_replay<T>(
    base: Seq<char>,
    existing: RequestView<T>,
    request: RequestView<T>,
)
    requires
        existing.edits is Some ==> replayed(base, existing.edits->0) == existing.text,
        request.edits is Some ==> replayed(existing.text, request.edits->0) == request.text,
        existing.uri == request.uri,
    ensures
        ({
            let left = enqueued(seq![existing], request)[0];
            left.edits is Some ==> replayed(base, left.edits->0) == left.text
        }),
{
    let here = is_request_for::<T>(request.uri);
    lemma_first_index_is(seq![existing], here, 0);
    if existing.edits is Some && request.edits is Some {
        law_chains_compose(base, existing.edits->0, request.edits->0);
    }
}

/// An analysis to run, and whether the one in flight has to be canceled for it.
#[derive(Debug)]
pub struct Dispatch<T> {
    pub request: AnalysisRequest<T>,
    pub cancel: bool,
}

/// The documents of a queue with their versions.
pub open spec fn versions<T>(pending: Seq<RequestView<T>>) -> Seq<(Seq<char>, i32)> {
    Seq::new(pending.len(), |i: int| (pending[i].uri, pending[i].version))
}

/// The state after a dispatch, the request that starts, and whether the analysis
/// in flight is canceled.
pub open spec fn dispatched<T>(state: QueueView<T>) -> (QueueView<T>, Option<RequestView<T>>, bool) {
    match decision(state.inflight, versions(state.pending), state.active) {
        DispatchView::Wait => (state, None, false),
        DispatchView::Start(uri) => {
            let request = state.pending[request_index(state.pending, uri)];
            (started(state, uri), Some(request), false)
        },
        DispatchView::SupersedeAndStart(uri) => {
            let request = state.pending[request_index(state.pending, uri)];
            (started(state, uri), Some(request), true)
        },
    }
}

/// The state once the request for a document has started.
pub open spec fn started<T>(state: QueueView<T>, uri: Seq<char>) -> QueueView<T> {
    let at = request_index(state.pending, uri);
    QueueView {
        inflight: Some((uri, state.pending[at].version)),
        pending: state.pending.remove(at),
        active: state.active,
    }
}

/// The state once an analysis has reported that it is done: the slot is free if
/// it is the one in flight, and not if a newer one has taken its place.
pub open spec fn finished<T>(state: QueueView<T>, uri: Seq<char>, version: i32) -> QueueView<T> {
    if state.inflight == Some((uri, version)) {
        QueueView { inflight: None, ..state }
    } else {
        state
    }
}

/// The state after a number of requests.
pub open spec fn received<T>(state: QueueView<T>, requests: Seq<RequestView<T>>) -> QueueView<T>
    decreases requests.len(),
{
    if requests.len() == 0 {
        state
    } else {
        let before = received(state, requests.drop_last());
        QueueView {
            inflight: before.inflight,
            pending: enqueued(before.pending, requests.last()),
            active: Some(requests.last().uri),
        }
    }
}

proof fn lemma_versions_index<T>(pending: Seq<RequestView<T>>, uri: Seq<char>)
    ensures
        queue_index(versions(pending), uri) == request_index(pending, uri),
{
    let here = is_request_for::<T>(uri);
    lemma_first_index(pending, here);
    let at = request_index(pending, uri);
    let all = versions(pending);
    let there = is_entry_for(uri);
    assert forall|k: int| 0 <= k < at implies !there(#[trigger] all[k]) by {
        assert(!here(pending[k]));
    }
    lemma_first_index_is(all, there, at);
}

/// A dispatch starts a request that the queue holds: the one for the document it
/// then has in flight.
pub proof fn law_dispatch_starts_a_held_request<T>(state: QueueView<T>)
    ensures
        match dispatched(state).1 {
            Some(request) => {
                &&& state.pending.contains(request)
                &&& dispatched(state).0.inflight == Some((request.uri, request.version))
                &&& dispatched(state).0.pending.len() == state.pending.len() - 1
            },
            None => dispatched(state).0 == state,
        },
{
    let all = versions(state.pending);
    match decision(state.inflight, all, state.active) {
        DispatchView::Wait => {},
        DispatchView::Start(uri) => {
            law_idle_queue_drains(all, state.active);
            lemma_versions_index(state.pending, uri);
            lemma_first_index(state.pending, is_request_for::<T>(uri));
        },
        DispatchView::SupersedeAndStart(uri) => {
            lemma_versions_index(state.pending, uri);
            lemma_first_index(state.pending, is_request_for::<T>(uri));
        },
    }
}

impl<T> AnalysisQueue<T> {
    /// An idle queue.
    pub fn new() -> (r: AnalysisQueue<T>)
        ensures
            r.deep_view().inflight is None,
            r.deep_view().pending.len() == 0,
            r.deep_view().active is None,
    {
        AnalysisQueue { inflight: None, pending: Vec::new(), active: None }
    }

    fn find(&self, uri: &str) -> (r: usize)
        ensures
            r == request_index(self.deep_view().pending, uri@),
    {
        let ghost all = self.pending.deep_view();
        let ghost here = is_request_for::<T>(uri@);
        let mut at: usize = 0;
        while at < self.pending.len() && !same_text(self.pending[at].uri.as_str(), uri)
            invariant
                at <= self.pending.len(),
                all == self.pending.deep_view(),
                here == is_request_for::<T>(uri@),
                forall|k: int| 0 <= k < at ==> !here(#[trigger] all[k]),
            decreases self.pending.len() - at,
        {
            at = at + 1;
        }
        proof {
            lemma_first_index_is(all, here, at as int);
        }
        at
    }

    /// Adds a request to the queue.
    pub fn enqueue(&mut self, request: AnalysisRequest<T>)
        ensures
            final(self).deep_view() == (QueueView {
                inflight: old(self).deep_view().inflight,
                pending: enqueued(old(self).deep_view().pending, request.deep_view()),
                active: Some(request.uri@),
            }),
    {
        let ghost before = self.pending.deep_view();
        let ghost added = request.deep_view();
        self.active = Some(request.uri.clone());
        let at = self.find(request.uri.as_str());
        if at >= self.pending.len() {
            self.pending.push(request);
            proof {
                assert(self.pending.deep_view() =~= before.push(added));
            }
            return;
        }
        if self.pending[at].version >= request.version {
            if !same_text(self.pending[at].text.as_str(), request.text.as_str()) {
                self.pending[at].edits = None;
                proof {
                    assert(self.pending.deep_view() =~= before.update(
                        at as int,
                        RequestView { edits: None, ..before[at as int] },
                    ));
                }
            }
            return;
        }
        let mut request = request;
        let held = self.pending[at].edits.take();
        let fresh = request.edits.take();
        request.edits = match (held, fresh) {
            (Some(held), Some(fresh)) => {
                let ghost both = held.deep_view() + fresh.deep_view();
                let mut held = held;
                let mut fresh = fresh;
                held.append(&mut fresh);
                proof {
                    assert(held.deep_view() =~= both);
                }
                Some(held)
            },
            _ => None,
        };
        let ghost replacement = request.deep_view();
        self.pending[at] = request;
        proof {
            assert(self.pending.deep_view() =~= before.update(at as int, replacement));
        }
    }

    /// Takes the next request to analyze, where the slot allows it.
    pub fn try_dispatch(&mut self) -> (r: Option<Dispatch<T>>)
        ensures
            final(self).deep_view() == dispatched(old(self).deep_view()).0,
            match r {
                Some(dispatch) => {
                    &&& dispatched(old(self).deep_view()).1 == Some(dispatch.request.deep_view())
                    &&& dispatched(old(self).deep_view()).2 == dispatch.cancel
                },
                None => dispatched(old(self).deep_view()).1 is None,
            },
    {
        let ghost state = self.deep_view();
        proof {
            law_dispatch_starts_a_held_request(state);
        }
        let mut queue: Vec<(String, i32)> = Vec::new();
        let mut i: usize = 0;
        while i < self.pending.len()
            invariant
                self.deep_view() == state,
                i <= self.pending.len(),
                queue.len() == i,
                forall|k: int|
                    0 <= k < i ==> (#[trigger] queue.deep_view()[k]) == versions(
                        state.pending,
                    )[k],
            decreases self.pending.len() - i,
        {
            let request = &self.pending[i];
            let ghost before = queue.deep_view();
            queue.push((request.uri.clone(), request.version));
            proof {
                assert(queue.deep_view() =~= before.push((request.uri@, request.version)));
            }
            i = i + 1;
        }
        proof {
            assert(queue.deep_view() =~= versions(state.pending));
        }
        let action = {
            let inflight = match &self.inflight {
                Some(inflight) => Some((inflight.uri.as_str(), inflight.version)),
                None => None,
            };
            let active = match &self.active {
                Some(active) => Some(active.as_str()),
                None => None,
            };
            decide(inflight, &queue, active)
        };
        let (uri, cancel) = match action {
            DispatchAction::Wait => {
                return None;
            },
            DispatchAction::Start(uri) => (uri, false),
            DispatchAction::SupersedeAndStart(uri) => (uri, true),
        };
        let at = self.find(uri.as_str());
        proof {
            law_idle_queue_drains(versions(state.pending), state.active);
            lemma_versions_index(state.pending, uri@);
        }
        let request = self.pending.remove(at);
        proof {
            assert(self.pending.deep_view() =~= state.pending.remove(at as int));
        }
        self.inflight = Some(Inflight { uri, version: request.version });
        Some(Dispatch { request, cancel })
    }

    /// Takes in requests, in the order in which they came, and dispatches.
    pub fn on_requests(&mut self, requests: Vec<AnalysisRequest<T>>) -> (r: Option<Dispatch<T>>)
        ensures
            ({
                let after = dispatched(received(old(self).deep_view(), requests.deep_view()));
                &&& final(self).deep_view() == after.0
                &&& match r {
                    Some(dispatch) => {
                        &&& after.1 == Some(dispatch.request.deep_view())
                        &&& after.2 == dispatch.cancel
                    },
                    None => after.1 is None,
                }
            }),
    {
        let ghost state = self.deep_view();
        let ghost all = requests.deep_view();
        let mut requests = requests;
        let n = requests.len();
        let mut i: usize = 0;
        proof {
            assert(all.take(0) =~= Seq::<RequestView<T>>::empty());
        }
        while i < n
            invariant
                i <= n == all.len(),
                requests.len() == n - i,
                requests.deep_view() == all.skip(i as int),
                self.deep_view() == received(state, all.take(i as int)),
            decreases n - i,
        {
            let ghost rest = requests.deep_view();
            let request = requests.remove(0);
            proof {
                assert(rest[0] == all[i as int]);
                assert(requests.deep_view() =~= rest.drop_first());
                assert(rest.drop_first() =~= all.skip(i + 1));
                assert(all.take(i + 1).drop_last() =~= all.take(i as int));
            }
            self.enqueue(request);
            i = i + 1;
        }
        proof {
            assert(all.take(n as int) =~= all);
        }
        self.try_dispatch()
    }

    /// Takes in that the analysis of `uri` at `version` is done, and dispatches.
    pub fn on_done(&mut self, uri: &str, version: i32) -> (r: Option<Dispatch<T>>)
        ensures
            ({
                let after = dispatched(finished(old(self).deep_view(), uri@, version));
                &&& final(self).deep_view() == after.0
                &&& match r {
                    Some(dispatch) => {
                        &&& after.1 == Some(dispatch.request.deep_view())
                        &&& after.2 == dispatch.cancel
                    },
                    None => after.1 is None,
                }
            }),
    {
        let current = match &self.inflight {
            Some(inflight) => same_text(inflight.uri.as_str(), uri) && inflight.version == version,
            None => false,
        };
        if current {
            self.inflight = None;
        }
        self.try_dispatch()
    }
}

/// A message for the analysis thread. A channel whose other end is gone gives
/// `None`.
#[derive(Debug)]
pub enum WorkerEvent<T> {
    /// A document was closed or changed on disk.
    Sync(Option<FilePath>),
    /// The harvester delivered an index.
    Library(Option<LibraryUpdate>),
    /// Requests to analyze.
    Analyze(Option<Vec<AnalysisRequest<T>>>),
    /// An analysis is done.
    Done(Option<Inflight>),
    /// A read job.
    Read(bool),
}

/// An index that the harvester delivered.
#[derive(Clone, Copy, Debug, PartialEq, Eq, Structural)]
pub enum LibraryUpdate {
    /// That of the whole environment.
    Full,
    /// That of one package.
    Package,
}

/// What the analysis thread does with a message.
#[derive(Debug)]
pub enum WorkerAction<T> {
    /// Leave the loop.
    Stop,
    /// Wait for the next message.
    Idle,
    /// Take the text of a file from disk again.
    Revert(FilePath),
    /// Put the index in place, seed the members and refresh the diagnostics of
    /// the include graph.
    Install(LibraryUpdate),
    /// Cancel the analysis in flight where told to, then run this one.
    Run(Dispatch<T>),
    /// Run the read job on a snapshot.
    ReadOnSnapshot,
}

/// What the thread does once the queue has been asked for the next analysis.
pub open spec fn runs<T>(
    action: WorkerAction<T>,
    after: (QueueView<T>, Option<RequestView<T>>, bool),
) -> bool {
    match after.1 {
        Some(request) => action is Run && action->Run_0.request.deep_view() == request
            && action->Run_0.cancel == after.2,
        None => action is Idle,
    }
}

/// One turn of the analysis thread's loop. Only the end of the requests ends the
/// loop; the end of another channel is passed over.
pub fn worker_step<T>(queue: &mut AnalysisQueue<T>, event: WorkerEvent<T>) -> (r: WorkerAction<T>)
    ensures
        match event {
            WorkerEvent::Sync(path) => {
                &&& final(queue).deep_view() == old(queue).deep_view()
                &&& match path {
                    Some(path) => r == WorkerAction::<T>::Revert(path),
                    None => r is Idle,
                }
            },
            WorkerEvent::Library(update) => {
                &&& final(queue).deep_view() == old(queue).deep_view()
                &&& match update {
                    Some(update) => r == WorkerAction::<T>::Install(update),
                    None => r is Idle,
                }
            },
            WorkerEvent::Analyze(None) => {
                &&& final(queue).deep_view() == old(queue).deep_view()
                &&& r is Stop
            },
            WorkerEvent::Analyze(Some(requests)) => {
                let after = dispatched(received(old(queue).deep_view(), requests.deep_view()));
                final(queue).deep_view() == after.0 && runs(r, after)
            },
            WorkerEvent::Done(None) => {
                &&& final(queue).deep_view() == old(queue).deep_view()
                &&& r is Idle
            },
            WorkerEvent::Done(Some(done)) => {
                let after = dispatched(
                    finished(old(queue).deep_view(), done.uri@, done.version),
                );
                final(queue).deep_view() == after.0 && runs(r, after)
            },
            WorkerEvent::Read(job) => {
                &&& final(queue).deep_view() == old(queue).deep_view()
                &&& if job {
                    r is ReadOnSnapshot
                } else {
                    r is Idle
                }
            },
        },
{
    match event {
        WorkerEvent::Sync(Some(path)) => WorkerAction::Revert(path),
        WorkerEvent::Sync(None) => WorkerAction::Idle,
        WorkerEvent::Library(Some(update)) => WorkerAction::Install(update),
        WorkerEvent::Library(None) => WorkerAction::Idle,
        WorkerEvent::Analyze(None) => WorkerAction::Stop,
        WorkerEvent::Analyze(Some(requests)) => match queue.on_requests(requests) {
            Some(dispatch) => WorkerAction::Run(dispatch),
            None => WorkerAction::Idle,
        },
        WorkerEvent::Done(None) => WorkerAction::Idle,
        WorkerEvent::Done(Some(done)) => match queue.on_done(done.uri.as_str(), done.version) {
            Some(dispatch) => WorkerAction::Run(dispatch),
            None => WorkerAction::Idle,
        },
        WorkerEvent::Read(job) => if job {
            WorkerAction::ReadOnSnapshot
        } else {
            WorkerAction::Idle
        },
    }
}

/// Idle, the document edited last is analyzed first where it waits, and else whichever
/// has waited longest; busy, a newer version of the document in flight always takes its
/// place.
pub proof fn law_the_active_document_comes_first(
    pending: Seq<(Seq<char>, i32)>,
    active: Option<Seq<char>>,
    uri: Seq<char>,
    version: i32,
    i: int,
)
    requires
        0 <= i < pending.len(),
        forall|k: int| 0 <= k < i ==> (#[trigger] pending[k]).0 != pending[i].0,
    ensures
        active == Some(pending[i].0) ==> decision(None, pending, active) == DispatchView::Start(
            pending[i].0,
        ),
        active is None ==> decision(None, pending, active) == DispatchView::Start(pending[0].0),
        active is Some && (forall|k: int|
            0 <= k < pending.len() ==> (#[trigger] pending[k]).0 != active->0) ==> decision(
            None,
            pending,
            active,
        ) == DispatchView::Start(pending[0].0),
        uri == pending[i].0 && pending[i].1 > version ==> decision(
            Some((uri, version)),
            pending,
            active,
        ) == DispatchView::SupersedeAndStart(uri),
{
    let f = is_entry_for(pending[i].0);
    assert forall|k: int| 0 <= k < i implies !f(#[trigger] pending[k]) by {}
    lemma_first_index_is(pending, f, i);
    if active is Some && (forall|k: int|
        0 <= k < pending.len() ==> (#[trigger] pending[k]).0 != active->0) {
        lemma_first_index(pending, is_entry_for(active->0));
        let at = queue_index(pending, active->0);
        if at < pending.len() {
            assert(pending[at].0 == active->0);
        }
    }
}

/// A newer version of a document takes the place of the one that waits, with its text,
/// and with the edits of both where both are known; an older one changes no text.
/// Requests for other documents stay as they are.
pub proof fn law_newer_versions_replace_older_ones<T>(
    pending: Seq<RequestView<T>>,
    request: RequestView<T>,
    i: int,
    k: int,
)
    requires
        0 <= i < pending.len(),
        pending[i].uri == request.uri,
        forall|j: int| 0 <= j < i ==> (#[trigger] pending[j]).uri != request.uri,
        0 <= k < pending.len(),
    ensures
        ({
            let after = enqueued(pending, request);
            &&& after.len() == pending.len()
            &&& k != i ==> after[k] == pending[k]
            &&& request.version > pending[i].version ==> after[i].text == request.text
                && after[i].version == request.version && after[i].context == request.context
            &&& request.version > pending[i].version && pending[i].edits is Some
                && request.edits is Some ==> after[i].edits == Some(
                pending[i].edits->0 + request.edits->0,
            )
            &&& request.version > pending[i].version && (pending[i].edits is None
                || request.edits is None) ==> after[i].edits is None
            &&& request.version <= pending[i].version ==> after[i].text == pending[i].text
                && after[i].version == pending[i].version
            &&& request.version <= pending[i].version && request.text == pending[i].text
                ==> after[i].edits == pending[i].edits
            &&& request.version <= pending[i].version && request.text != pending[i].text
                ==> after[i].edits is None
        }),
{
    let f = is_request_for::<T>(request.uri);
    assert forall|j: int| 0 <= j < i implies !f(#[trigger] pending[j]) by {}
    lemma_first_index_is(pending, f, i);
}

/// A document that does not wait yet is put behind all that do.
pub proof fn law_new_documents_wait_at_the_end<T>(
    pending: Seq<RequestView<T>>,
    request: RequestView<T>,
)
    requires
        forall|j: int| 0 <= j < pending.len() ==> (#[trigger] pending[j]).uri != request.uri,
    ensures
        enqueued(pending, request) == pending.push(request),
{
    let f = is_request_for::<T>(request.uri);
    lemma_first_index(pending, f);
    let at = request_index(pending, request.uri);
    if at < pending.len() {
        assert(pending[at].uri == request.uri);
    }
}

/// The end of an analysis frees the slot exactly where it is the one in flight: that of
/// another document or version leaves it taken.
pub proof fn law_only_the_running_analysis_frees_the_slot<T>(
    state: QueueView<T>,
    uri: Seq<char>,
    version: i32,
)
    ensures
        state.inflight is Some && state.inflight == Some((uri, version)) ==> finished(
            state,
            uri,
            version,
        ).inflight is None,
        state.inflight is Some && state.inflight != Some((uri, version)) ==> finished(
            state,
            uri,
            version,
        ) == state,
        finished(state, uri, version).pending == state.pending,
        finished(state, uri, version).active == state.active,
{
}

} // verus!
