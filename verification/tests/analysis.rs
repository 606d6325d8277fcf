//! The queue of analyses: which one is started, and what becomes of its edits.

use fatou_lsp::analysis_thread::{
    decide, worker_step, AnalysisQueue, AnalysisRequest, DispatchAction, Edit, Inflight,
    LibraryUpdate, WorkerAction, WorkerEvent,
};

fn uri_named(name: &str) -> String {
    format!("file:///work/{name}")
}

fn pending(uris: &[(&str, i32)]) -> Vec<(String, i32)> {
    uris.iter().map(|(name, version)| (uri_named(name), *version)).collect()
}

fn start_of(action: DispatchAction) -> String {
    match action {
        DispatchAction::Start(uri) => uri,
        other => panic!("expected Start, got {other:?}"),
    }
}

fn is_wait(action: DispatchAction) -> bool {
    matches!(action, DispatchAction::Wait)
}

#[test]
fn decide_idle_starts_a_pending_uri() {
    assert_eq!(start_of(decide(None, &pending(&[("a.jl", 1)]), None)), uri_named("a.jl"));
}

#[test]
fn decide_idle_empty_queue_waits() {
    assert!(is_wait(decide(None, &Vec::new(), None)));
}

#[test]
fn decide_idle_prefers_active_uri() {
    // Several URIs pending at once (a bulk dirty): the active document is started
    // first.
    let queue = pending(&[("a.jl", 1), ("b.jl", 1), ("c.jl", 1)]);
    let b = uri_named("b.jl");
    assert_eq!(start_of(decide(None, &queue, Some(&b))), b);
}

#[test]
fn decide_idle_active_not_pending_falls_back() {
    // The active document has no pending request: any pending URI is started rather
    // than waiting.
    let focused = uri_named("focused.jl");
    assert_eq!(
        start_of(decide(None, &pending(&[("a.jl", 1)]), Some(&focused))),
        uri_named("a.jl")
    );
}

#[test]
fn decide_active_never_cancels_a_different_inflight_uri() {
    // Activity on B must not cancel A's running analysis; B waits its turn.
    let (a, b) = (uri_named("a.jl"), uri_named("b.jl"));
    assert!(is_wait(decide(Some((&a, 1)), &pending(&[("b.jl", 1)]), Some(&b))));
}

#[test]
fn decide_supersedes_same_uri_newer_version() {
    let a = uri_named("a.jl");
    match decide(Some((&a, 1)), &pending(&[("a.jl", 2)]), None) {
        DispatchAction::SupersedeAndStart(uri) => assert_eq!(uri, a),
        other => panic!("expected SupersedeAndStart, got {other:?}"),
    }
}

#[test]
fn decide_waits_when_pending_same_uri_not_newer() {
    let a = uri_named("a.jl");
    assert!(is_wait(decide(Some((&a, 1)), &pending(&[("a.jl", 1)]), None)));
}

#[test]
fn decide_never_cancels_a_different_uri() {
    let a = uri_named("a.jl");
    assert!(is_wait(decide(Some((&a, 1)), &pending(&[("b.jl", 5), ("c.jl", 9)]), None)));
}

#[test]
fn decide_drains_multiple_uris_one_at_a_time() {
    let mut queue = pending(&[("a.jl", 1), ("b.jl", 1), ("c.jl", 1)]);

    // Idle: start some URI.
    let first = start_of(decide(None, &queue, None));
    assert!(queue.iter().any(|(uri, _)| *uri == first));
    queue.retain(|(uri, _)| *uri != first);

    // Busy with `first`, two others still queued: wait, never supersede.
    assert!(is_wait(decide(Some((&first, 1)), &queue, None)));

    // Each `done` frees the slot; the next URI starts.
    let mut started = vec![first];
    while !queue.is_empty() {
        let next = start_of(decide(None, &queue, None));
        queue.retain(|(uri, _)| *uri != next);
        started.push(next);
    }
    started.sort();
    assert_eq!(started, vec![uri_named("a.jl"), uri_named("b.jl"), uri_named("c.jl")]);
}

fn request(version: i32, text: &str, edits: Option<Vec<Edit>>) -> AnalysisRequest<()> {
    AnalysisRequest {
        uri: uri_named("a.jl"),
        text: text.to_string(),
        version,
        edits,
        context: (),
    }
}

#[test]
fn try_dispatch_supersedes_inflight_and_triggers_cancellation() {
    let mut queue = AnalysisQueue::new();
    queue.enqueue(request(1, "x = 1\n", None));
    let first = queue.try_dispatch().expect("v1 is dispatched");
    assert!(!first.cancel);
    assert!(
        matches!(&queue.inflight, Some(f) if f.uri == uri_named("a.jl") && f.version == 1),
        "v1 should be in flight after the first dispatch"
    );

    // A strictly newer edit of the same URI supersedes what runs.
    queue.enqueue(request(2, "x = 1\n", None));
    let second = queue.try_dispatch().expect("v2 is dispatched");
    assert!(second.cancel, "what runs is cancelled");
    assert!(
        matches!(&queue.inflight, Some(f) if f.uri == uri_named("a.jl") && f.version == 2),
        "supersede should advance the in-flight slot to v2"
    );
    assert!(queue.pending.is_empty(), "the superseding request should have been dispatched");

    // The end of the cancelled analysis frees nothing; that of the newer one does.
    assert!(queue.on_done(&uri_named("a.jl"), 1).is_none());
    assert!(queue.inflight.is_some());
    assert!(queue.on_done(&uri_named("a.jl"), 2).is_none());
    assert!(queue.inflight.is_none());
}

fn edit(at: usize, insert: &str) -> Edit {
    Edit { start: at, end: at, insert: insert.to_string() }
}

fn held_edits(queue: &AnalysisQueue<()>) -> Option<Vec<(usize, String)>> {
    queue.pending[0]
        .edits
        .as_ref()
        .map(|edits| edits.iter().map(|e| (e.start, e.insert.clone())).collect())
}

#[test]
fn enqueue_accumulates_the_edits_of_coalesced_requests() {
    let mut queue = AnalysisQueue::new();
    queue.enqueue(request(1, "xy\n", Some(vec![edit(1, "x")])));
    queue.enqueue(request(2, "xyz\n", Some(vec![edit(2, "y")])));
    assert_eq!(
        held_edits(&queue),
        Some(vec![(1, "x".to_string()), (2, "y".to_string())]),
        "v1's edits must survive its request being dropped"
    );

    // An unknown transform anywhere in the run poisons the whole chain.
    queue.enqueue(request(3, "brand new\n", None));
    assert_eq!(held_edits(&queue), None);

    // A re-analysis at the same version and text is dropped, and must not take a
    // good chain down with it.
    let mut queue = AnalysisQueue::new();
    queue.enqueue(request(1, "xy\n", Some(vec![edit(1, "x")])));
    queue.enqueue(request(1, "xy\n", None));
    assert_eq!(held_edits(&queue), Some(vec![(1, "x".to_string())]));

    // A dropped request whose text differs, though, means the pending chain no
    // longer describes how the pending text was reached.
    queue.enqueue(request(1, "different\n", None));
    assert_eq!(held_edits(&queue), None);
}

#[test]
fn the_end_of_the_requests_ends_the_thread() {
    let mut queue: AnalysisQueue<()> = AnalysisQueue::new();
    assert!(matches!(worker_step(&mut queue, WorkerEvent::Sync(None)), WorkerAction::Idle));
    assert!(matches!(worker_step(&mut queue, WorkerEvent::Library(None)), WorkerAction::Idle));
    assert!(matches!(worker_step(&mut queue, WorkerEvent::Read(false)), WorkerAction::Idle));
    assert!(matches!(
        worker_step(&mut queue, WorkerEvent::Read(true)),
        WorkerAction::ReadOnSnapshot
    ));
    assert!(matches!(
        worker_step(&mut queue, WorkerEvent::Library(Some(LibraryUpdate::Full))),
        WorkerAction::Install(LibraryUpdate::Full)
    ));
    let requests = vec![request(1, "a\n", None), request(2, "b\n", None)];
    match worker_step(&mut queue, WorkerEvent::Analyze(Some(requests))) {
        WorkerAction::Run(dispatch) => assert_eq!(dispatch.request.version, 2),
        other => panic!("expected the newer request to run, got {other:?}"),
    }
    let done = Inflight { uri: uri_named("a.jl"), version: 2 };
    assert!(matches!(worker_step(&mut queue, WorkerEvent::Done(Some(done))), WorkerAction::Idle));
    assert!(matches!(worker_step(&mut queue, WorkerEvent::Analyze(None)), WorkerAction::Stop));
}
