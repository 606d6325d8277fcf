//! Publishing diagnostics of files: what is new is sent, and what was sent before
//! and is gone is cleared.

use vstd::prelude::*;

use crate::diagnostics::{Diagnostic, DiagnosticView};
use crate::search::{kept, lemma_kept_from, lemma_kept_step};
use crate::strings::holds_text;

verus! {

/// The diagnostics of one file, with its URI where it has one.
#[derive(Debug)]
pub struct FileFindings {
    pub uri: Option<String>,
    pub diagnostics: Vec<Diagnostic>,
}

/// What [`FileFindings`] say.
pub struct FindingsView {
    pub uri: Option<Seq<char>>,
    pub diagnostics: Seq<DiagnosticView>,
}

impl DeepView for FileFindings {
    type V = FindingsView;

    open spec fn deep_view(&self) -> FindingsView {
        FindingsView { uri: self.uri.deep_view(), diagnostics: self.diagnostics.deep_view() }
    }
}

/// A message that replaces the diagnostics of a document.
#[derive(Debug)]
pub struct Publish {
    pub uri: String,
    pub diagnostics: Vec<Diagnostic>,
}

/// What a [`Publish`] says.
pub struct PublishView {
    pub uri: Seq<char>,
    pub diagnostics: Seq<DiagnosticView>,
}

impl DeepView for Publish {
    type V = PublishView;

    open spec fn deep_view(&self) -> PublishView {
        PublishView { uri: self.uri@, diagnostics: self.diagnostics.deep_view() }
    }
}

/// The message of a file that has a URI.
pub open spec fn message_of() -> spec_fn(FindingsView) -> Option<PublishView> {
    |findings: FindingsView|
        match findings.uri {
            Some(uri) => Some(PublishView { uri, diagnostics: findings.diagnostics }),
            None => None,
        }
}

/// The documents of messages.
pub open spec fn published_uris(messages: Seq<PublishView>) -> Seq<Seq<char>> {
    messages.map_values(|message: PublishView| message.uri)
}

/// The message that clears a document, unless it has diagnostics now.
pub open spec fn clear_of(now: Seq<Seq<char>>) -> spec_fn(Seq<char>) -> Option<PublishView> {
    |uri: Seq<char>|
        if now.contains(uri) {
            None
        } else {
            Some(PublishView { uri, diagnostics: Seq::empty() })
        }
}

/// The messages of one pass: one for each file with findings, then an empty one
/// for each document that had some before and has none now.
pub open spec fn messages_of(findings: Seq<FindingsView>, before: Seq<Seq<char>>) -> Seq<
    PublishView,
> {
    let updates = kept(findings, message_of());
    updates + kept(before, clear_of(published_uris(updates)))
}

/// What has diagnostics after a pass.
pub open spec fn published_after(findings: Seq<FindingsView>) -> Seq<Seq<char>> {
    published_uris(kept(findings, message_of()))
}

/// Publishes the findings of a pass. `published` holds the documents that had
/// findings on the pass before, and afterwards those that have some now.
pub fn publish_findings(findings: Vec<FileFindings>, published: &mut Vec<String>) -> (r: Vec<
    Publish,
>)
    ensures
        r.deep_view() == messages_of(findings.deep_view(), old(published).deep_view()),
        final(published).deep_view() == published_after(findings.deep_view()),
{
    let ghost all = findings.deep_view();
    let ghost before = published.deep_view();
    let ghost pick = message_of();
    let mut findings = findings;
    let n = findings.len();
    let mut out: Vec<Publish> = Vec::new();
    let mut now: Vec<String> = Vec::new();
    let mut i: usize = 0;
    proof {
        assert(all.take(0) =~= Seq::<FindingsView>::empty());
        assert(out.deep_view() =~= Seq::<PublishView>::empty());
        assert(now.deep_view() =~= published_uris(out.deep_view()));
        assert(all.skip(0) =~= all);
    }
    while i < n
        invariant
            i <= n == all.len(),
            findings.len() == n - i,
            findings.deep_view() == all.skip(i as int),
            pick == message_of(),
            out.deep_view() == kept(all.take(i as int), pick),
            now.deep_view() == published_uris(out.deep_view()),
        decreases n - i,
    {
        proof {
            lemma_kept_step(all, pick, i as int);
        }
        let ghost rest = findings.deep_view();
        let found = findings.remove(0);
        proof {
            assert(found.deep_view() == rest[0]);
            assert(rest[0] == all[i as int]);
            assert(findings.deep_view() =~= rest.drop_first());
            assert(rest.drop_first() =~= all.skip(i + 1));
        }
        i = i + 1;
        if let Some(uri) = found.uri {
            let ghost sent = out.deep_view();
            let ghost listed = now.deep_view();
            now.push(uri.clone());
            out.push(Publish { uri, diagnostics: found.diagnostics });
            proof {
                assert(out.deep_view() =~= sent.push(out@.last().deep_view()));
                assert(now.deep_view() =~= listed.push(uri@));
                assert(now.deep_view() =~= published_uris(out.deep_view()));
            }
        }
    }
    proof {
        assert(all.take(i as int) =~= all);
    }
    let ghost updates = out.deep_view();
    let ghost clear = clear_of(now.deep_view());
    let mut j: usize = 0;
    proof {
        assert(before.take(0) =~= Seq::<Seq<char>>::empty());
        assert(updates + kept(before.take(0), clear) =~= updates);
    }
    while j < published.len()
        invariant
            j <= published.len(),
            before == published.deep_view(),
            clear == clear_of(now.deep_view()),
            out.deep_view() == updates + kept(before.take(j as int), clear),
        decreases published.len() - j,
    {
        proof {
            lemma_kept_step(before, clear, j as int);
            assert(before[j as int] == published@[j as int]@);
        }
        let uri = published[j].as_str();
        j = j + 1;
        if !holds_text(&now, uri) {
            let ghost sent = out.deep_view();
            let none: Vec<Diagnostic> = Vec::new();
            proof {
                assert(none.deep_view() =~= Seq::<DiagnosticView>::empty());
            }
            out.push(Publish { uri: uri.to_owned(), diagnostics: none });
            proof {
                assert(out.deep_view() =~= sent.push(out@.last().deep_view()));
                assert(out.deep_view() =~= updates + kept(before.take(j as int), clear));
            }
        }
    }
    proof {
        assert(before.take(j as int) =~= before);
    }
    *published = now;
    out
}

/// A document whose findings are gone is cleared once: the pass behind says
/// nothing of it, if it finds nothing either.
pub proof fn law_cleared_once(before: Seq<Seq<char>>)
    ensures
        messages_of(Seq::empty(), published_after(Seq::empty())).len() == 0,
        forall|i: int|
            0 <= i < before.len() ==> messages_of(Seq::empty(), before).contains(
                PublishView { uri: #[trigger] before[i], diagnostics: Seq::empty() },
            ),
{
    let none = Seq::<FindingsView>::empty();
    let updates = kept(none, message_of());
    assert(published_uris(updates) =~= Seq::<Seq<char>>::empty());
    let clear = clear_of(published_uris(updates));
    assert(messages_of(none, before) =~= kept(before, clear));
    assert forall|i: int| 0 <= i < before.len() implies messages_of(none, before).contains(
        PublishView { uri: #[trigger] before[i], diagnostics: Seq::empty() },
    ) by {
        lemma_kept_holds(before, clear, i);
    }
}

/// A document is cleared exactly where it had findings before and has none now.
pub proof fn law_clears_what_is_gone(
    findings: Seq<FindingsView>,
    before: Seq<Seq<char>>,
    uri: Seq<char>,
)
    requires
        before.contains(uri),
        !published_after(findings).contains(uri),
    ensures
        messages_of(findings, before).contains(
            PublishView { uri, diagnostics: Seq::<DiagnosticView>::empty() },
        ),
{
    let updates = kept(findings, message_of());
    let clear = clear_of(published_uris(updates));
    let i = choose|i: int| 0 <= i < before.len() && before[i] == uri;
    lemma_kept_holds(before, clear, i);
    let message = PublishView { uri, diagnostics: Seq::<DiagnosticView>::empty() };
    let k = choose|k: int| 0 <= k < kept(before, clear).len() && kept(before, clear)[k] == message;
    assert(messages_of(findings, before)[updates.len() + k] == message);
}

/// What an item becomes is among what is kept.
proof fn lemma_kept_holds<T, U>(s: Seq<T>, f: spec_fn(T) -> Option<U>, i: int)
    requires
        0 <= i < s.len(),
        f(s[i]) is Some,
    ensures
        kept(s, f).contains(f(s[i])->0),
    decreases s.len(),
{
    let before = kept(s.drop_last(), f);
    if i < s.len() - 1 {
        lemma_kept_holds(s.drop_last(), f, i);
        let k = choose|k: int| 0 <= k < before.len() && before[k] == f(s[i])->0;
        assert(kept(s, f)[k] == f(s[i])->0);
    } else {
        assert(kept(s, f)[before.len() as int] == f(s[i])->0);
    }
}

/// Every file with a URI is published with all that was found in it, and no message but
/// these says that a document has findings.
pub proof fn law_every_file_is_published(
    findings: Seq<FindingsView>,
    before: Seq<Seq<char>>,
    k: int,
)
    ensures
        ({
            let messages = messages_of(findings, before);
            &&& 0 <= k < findings.len() && findings[k].uri is Some ==> messages.contains(
                PublishView { uri: findings[k].uri->0, diagnostics: findings[k].diagnostics },
            )
            &&& 0 <= k < messages.len() && messages[k].diagnostics.len() > 0 ==> exists|i: int|
                0 <= i < findings.len() && (#[trigger] findings[i]).uri == Some(messages[k].uri)
                    && findings[i].diagnostics == messages[k].diagnostics
        }),
{
    let updates = kept(findings, message_of());
    let clear = clear_of(published_uris(updates));
    let messages = messages_of(findings, before);
    if 0 <= k < findings.len() && findings[k].uri is Some {
        let j = crate::search::lemma_kept_holds(findings, message_of(), k);
        assert(messages[j] == updates[j]);
    }
    if 0 <= k < messages.len() && messages[k].diagnostics.len() > 0 {
        if k < updates.len() {
            let i = lemma_kept_from(findings, message_of(), k);
            assert(findings[i].uri == Some(messages[k].uri));
        } else {
            let i = lemma_kept_from(before, clear, k - updates.len());
        }
    }
}

} // verus!
