//! The server's session: what it is opened with, and the order in which its loop
//! takes what arrives.

use vstd::prelude::*;

use crate::capabilities::{
    negotiate_position_encoding, offers_utf8, refreshes, supports_diagnostic_refresh,
    supports_inlay_hint_refresh, supports_pull_diagnostics, supports_watched_files_registration,
    supports_work_done_progress, ClientCapabilities,
};
use crate::harvest::{paths_named, root_uris, workspace_roots};
use crate::paths::FilePath;
use crate::strings::byte_len;
use crate::text::PositionEncoding;

verus! {

/// What the client opens a session with: what it can do, the folders of the
/// workspace, and the one root of a client that knows no folders.
#[derive(Debug)]
pub struct InitializeParams {
    pub capabilities: ClientCapabilities,
    pub workspace_folders: Option<Vec<String>>,
    pub root_uri: Option<String>,
}

impl InitializeParams {
    /// The URIs have the length of a message's text.
    pub open spec fn wf(&self) -> bool {
        &&& self.workspace_folders is Some ==> forall|i: int|
            0 <= i < self.workspace_folders->0.len() ==> byte_len(
                (#[trigger] self.workspace_folders->0@[i])@,
            ) <= i32::MAX
        &&& self.root_uri is Some ==> byte_len(self.root_uri->0@) <= i32::MAX
    }
}

/// What holds for a whole session.
#[derive(Debug)]
pub struct Session {
    pub encoding: PositionEncoding,
    pub roots: Vec<FilePath>,
    /// Whether file watchers are registered.
    pub register_watchers: bool,
    /// Whether diagnostics are pulled.
    pub pull_diagnostics: bool,
    /// Whether each analysis publishes its diagnostics.
    pub push_diagnostics: bool,
    pub diagnostic_refresh: bool,
    pub inlay_hint_refresh: bool,
    pub work_done_progress: bool,
}

/// Opens a session. Watching files pays off only where there is a workspace, and
/// diagnostics go one way: they are published unless they are pulled.
pub fn open_session(params: &InitializeParams) -> (r: Session)
    requires
        params.wf(),
    ensures
        r.encoding == (if offers_utf8(params.capabilities) {
            PositionEncoding::Utf8
        } else {
            PositionEncoding::Utf16
        }),
        r.roots.deep_view() == paths_named(
            root_uris(params.workspace_folders, params.root_uri),
        ),
        ({
            let workspace = params.capabilities.workspace;
            &&& r.register_watchers == (workspace is Some
                && workspace->0.did_change_watched_files is Some
                && workspace->0.did_change_watched_files->0.dynamic_registration == Some(true)
                && r.roots.len() > 0)
            &&& r.diagnostic_refresh == (workspace is Some && refreshes(workspace->0.diagnostic))
            &&& r.inlay_hint_refresh == (workspace is Some && refreshes(workspace->0.inlay_hint))
        }),
        r.pull_diagnostics == (params.capabilities.text_document is Some
            && params.capabilities.text_document->0.diagnostic is Some),
        r.push_diagnostics == !r.pull_diagnostics,
        r.work_done_progress == (params.capabilities.window is Some
            && params.capabilities.window->0.work_done_progress == Some(true)),
{
    let capabilities = &params.capabilities;
    let roots = workspace_roots(&params.workspace_folders, &params.root_uri);
    let register_watchers = supports_watched_files_registration(capabilities) && roots.len() > 0;
    let pull_diagnostics = supports_pull_diagnostics(capabilities);
    Session {
        encoding: negotiate_position_encoding(capabilities),
        roots,
        register_watchers,
        pull_diagnostics,
        push_diagnostics: !pull_diagnostics,
        diagnostic_refresh: supports_diagnostic_refresh(capabilities),
        inlay_hint_refresh: supports_inlay_hint_refresh(capabilities),
        work_done_progress: supports_work_done_progress(capabilities),
    }
}

/// What the loop found.
#[derive(Clone, Copy, Debug, PartialEq, Eq, Structural)]
pub enum LoopEvent {
    /// At the client's channel, without waiting: a message.
    ClientWaiting,
    /// At the client's channel, without waiting: nothing.
    ClientIdle,
    /// After waiting for whatever comes first: a message of the client.
    ClientArrived,
    /// After waiting: a result of the server's own threads.
    OutboundArrived,
    /// After a message of the client: it asked to shut down.
    ShutdownHandled,
    /// After a message or a result: it has been dealt with.
    Handled,
    /// A channel has no sender any more.
    Disconnected,
}

/// What the loop does next.
#[derive(Clone, Copy, Debug, PartialEq, Eq, Structural)]
pub enum LoopAction {
    /// Deal with the message of the client.
    HandleClient,
    /// Deal with the result.
    HandleOutbound,
    /// Wait for a message or a result.
    Wait,
    /// Look at the client's channel again.
    Poll,
    /// End the loop.
    Stop,
}

/// What the loop does next. It looks at the client's channel before it waits, so
/// that every message of the client that is there is dealt with before a result: a
/// cancellation comes before the reply that it cancels.
pub fn loop_step(event: LoopEvent) -> (r: LoopAction)
    ensures
        r == LoopAction::HandleClient <==> event == LoopEvent::ClientWaiting || event
            == LoopEvent::ClientArrived,
        r == LoopAction::HandleOutbound <==> event == LoopEvent::OutboundArrived,
        r == LoopAction::Wait <==> event == LoopEvent::ClientIdle,
        r == LoopAction::Poll <==> event == LoopEvent::Handled,
        r == LoopAction::Stop <==> event == LoopEvent::ShutdownHandled || event
            == LoopEvent::Disconnected,
{
    match event {
        LoopEvent::ClientWaiting => LoopAction::HandleClient,
        LoopEvent::ClientIdle => LoopAction::Wait,
        LoopEvent::ClientArrived => LoopAction::HandleClient,
        LoopEvent::OutboundArrived => LoopAction::HandleOutbound,
        LoopEvent::ShutdownHandled => LoopAction::Stop,
        LoopEvent::Handled => LoopAction::Poll,
        LoopEvent::Disconnected => LoopAction::Stop,
    }
}

} // verus!
