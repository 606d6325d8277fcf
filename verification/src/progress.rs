//! Progress reports of the indexing passes.
//!
//! Each pass is one cycle: a token is created, then begun, reported on and ended.
//! A client that does not take progress reports is sent nothing.

use vstd::prelude::*;

use crate::strings::{cat, decimal, decimal_text, lemma_decimal_value};

verus! {

/// A message to the client about a pass.
#[derive(Debug)]
pub enum ProgressMessage {
    Create { request_id: String, token: String },
    Begin { token: String, title: String, message: String },
    Report { token: String, message: String },
    End { token: String, message: String },
}

/// What a [`ProgressMessage`] says.
pub enum ProgressView {
    Create { request_id: Seq<char>, token: Seq<char> },
    Begin { token: Seq<char>, title: Seq<char>, message: Seq<char> },
    Report { token: Seq<char>, message: Seq<char> },
    End { token: Seq<char>, message: Seq<char> },
}

impl DeepView for ProgressMessage {
    type V = ProgressView;

    open spec fn deep_view(&self) -> ProgressView {
        match *self {
            ProgressMessage::Create { request_id, token } => ProgressView::Create {
                request_id: request_id@,
                token: token@,
            },
            ProgressMessage::Begin { token, title, message } => ProgressView::Begin {
                token: token@,
                title: title@,
                message: message@,
            },
            ProgressMessage::Report { token, message } => ProgressView::Report {
                token: token@,
                message: message@,
            },
            ProgressMessage::End { token, message } => ProgressView::End {
                token: token@,
                message: message@,
            },
        }
    }
}

/// The token of a cycle.
pub open spec fn token_of(id: u64) -> Seq<char> {
    "fatou/harvest/"@ + decimal(id as nat)
}

/// Two cycles have different tokens.
pub proof fn law_tokens_differ(a: u64, b: u64)
    requires
        a != b,
    ensures
        token_of(a) != token_of(b),
{
    let head = "fatou/harvest/"@;
    lemma_decimal_value(a as nat);
    lemma_decimal_value(b as nat);
    if token_of(a) == token_of(b) {
        assert(token_of(a).skip(head.len() as int) =~= decimal(a as nat));
        assert(token_of(b).skip(head.len() as int) =~= decimal(b as nat));
    }
}

fn token(id: u64) -> (r: String)
    ensures
        r@ == token_of(id),
{
    let digits = decimal_text(id);
    cat("fatou/harvest/", digits.as_str())
}

/// The reporter of one pass at a time.
#[derive(Debug)]
pub struct HarvestProgress {
    /// Whether the client takes progress reports.
    pub enabled: bool,
    /// The id of the next cycle.
    pub next: u64,
    /// The cycle that is running.
    pub active: Option<u64>,
}

/// A reporter once it has begun a cycle.
pub open spec fn after_begin(progress: HarvestProgress) -> HarvestProgress {
    if progress.enabled {
        HarvestProgress {
            enabled: true,
            next: (progress.next + 1) as u64,
            active: Some(progress.next),
        }
    } else {
        progress
    }
}

/// The messages that begin a cycle: its token is created, then it begins.
pub open spec fn begin_messages(
    progress: HarvestProgress,
    title: Seq<char>,
    message: Seq<char>,
) -> Seq<ProgressView> {
    if progress.enabled {
        seq![
            ProgressView::Create {
                request_id: "fatou-progress-"@ + decimal(progress.next as nat),
                token: token_of(progress.next),
            },
            ProgressView::Begin { token: token_of(progress.next), title, message },
        ]
    } else {
        Seq::empty()
    }
}

/// The message that reports on the cycle that is running.
pub open spec fn report_message(progress: HarvestProgress, message: Seq<char>) -> Option<
    ProgressView,
> {
    match progress.active {
        Some(id) => Some(ProgressView::Report { token: token_of(id), message }),
        None => None,
    }
}

/// A reporter once it has ended its cycle.
pub open spec fn after_end(progress: HarvestProgress) -> HarvestProgress {
    HarvestProgress { enabled: progress.enabled, next: progress.next, active: None }
}

/// The message that ends the cycle that is running.
pub open spec fn end_message(progress: HarvestProgress, message: Seq<char>) -> Option<
    ProgressView,
> {
    match progress.active {
        Some(id) => Some(ProgressView::End { token: token_of(id), message }),
        None => None,
    }
}

impl HarvestProgress {
    /// The cycle that is running has an id that was given out, and a client that
    /// takes no reports has none running.
    pub open spec fn wf(&self) -> bool {
        &&& self.active is Some ==> self.active->0 < self.next
        &&& !self.enabled ==> self.active is None
    }

    /// A reporter that has not begun a cycle.
    pub fn new(enabled: bool) -> (r: HarvestProgress)
        ensures
            r.wf(),
            r.enabled == enabled,
            r.next == 0,
            r.active is None,
    {
        HarvestProgress { enabled, next: 0, active: None }
    }

    /// Begins a cycle under a token of its own.
    pub fn begin(&mut self, title: &str, message: &str) -> (r: Vec<ProgressMessage>)
        requires
            old(self).wf(),
            old(self).next < u64::MAX,
        ensures
            final(self).wf(),
            *final(self) == after_begin(*old(self)),
            r.deep_view() == begin_messages(*old(self), title@, message@),
    {
        let mut out: Vec<ProgressMessage> = Vec::new();
        if !self.enabled {
            proof {
                assert(out.deep_view() =~= Seq::<ProgressView>::empty());
            }
            return out;
        }
        let id = self.next;
        self.next = id + 1;
        self.active = Some(id);
        let digits = decimal_text(id);
        out.push(
            ProgressMessage::Create {
                request_id: cat("fatou-progress-", digits.as_str()),
                token: token(id),
            },
        );
        out.push(
            ProgressMessage::Begin {
                token: token(id),
                title: title.to_owned(),
                message: message.to_owned(),
            },
        );
        proof {
            assert(out.deep_view() =~= seq![out@[0].deep_view(), out@[1].deep_view()]);
        }
        out
    }

    /// Reports on the cycle that is running; nothing without one.
    pub fn report(&self, message: &str) -> (r: Option<ProgressMessage>)
        ensures
            r.deep_view() == report_message(*self, message@),
    {
        match self.active {
            Some(id) => Some(
                ProgressMessage::Report { token: token(id), message: message.to_owned() },
            ),
            None => None,
        }
    }

    /// Ends the cycle that is running; nothing without one.
    pub fn end(&mut self, message: &str) -> (r: Option<ProgressMessage>)
        requires
            old(self).wf(),
        ensures
            final(self).wf(),
            *final(self) == after_end(*old(self)),
            r.deep_view() == end_message(*old(self), message@),
    {
        let active = self.active;
        self.active = None;
        match active {
            Some(id) => Some(
                ProgressMessage::End { token: token(id), message: message.to_owned() },
            ),
            None => None,
        }
    }
}

/// A cycle is begun, reported on and ended under one token, which no earlier cycle had;
/// once it has ended nothing more is said of it, and a client that takes no reports is
/// told nothing at all.
pub proof fn law_a_cycle_has_one_token(
    progress: HarvestProgress,
    title: Seq<char>,
    message: Seq<char>,
    more: Seq<char>,
)
    requires
        progress.wf(),
        progress.next < u64::MAX,
    ensures
        ({
            let running = after_begin(progress);
            let begun = begin_messages(progress, title, message);
            &&& progress.enabled ==> begun.len() == 2 && begun[0] is Create && begun[1] is Begin
                && begun[0]->Create_token == begun[1]->Begin_token && begun[1]->title == title
                && begun[1]->Begin_message == message && report_message(running, more) == Some(
                ProgressView::Report { token: begun[1]->Begin_token, message: more },
            ) && end_message(running, more) == Some(
                ProgressView::End { token: begun[1]->Begin_token, message: more },
            )
            &&& progress.active is Some && progress.enabled ==> begun[1]->Begin_token != token_of(
                progress.active->0,
            )
            &&& !progress.enabled ==> begun.len() == 0 && report_message(running, more) is None
                && end_message(running, more) is None
            &&& report_message(after_end(running), more) is None
            &&& end_message(after_end(running), more) is None
        }),
{
    if progress.active is Some {
        law_tokens_differ(progress.active->0, progress.next);
    }
}

} // verus!
