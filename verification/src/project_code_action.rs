//! Replacing a dependency's compat bound by its latest release.

use vstd::prelude::*;

use crate::call_hierarchy::{places, to_range};
use crate::code_action::{CodeAction, CodeActionKind, CodeActionView};
use crate::edits::{TextEdit, TextEditView};
use crate::paths::FilePath;
use crate::project_updates::{
    version_less, version_text, Target, TargetView, Version,
};
use crate::search::{first_index, kept, lemma_first_index_is, lemma_kept_step};
use crate::strings::{cat, pieces, same_text, split_on};
use crate::text::{range_at, LineIndex, PositionEncoding};

verus! {

/// The latest release of a package.
#[derive(Debug)]
pub struct LatestRelease {
    pub uuid: u128,
    pub name: String,
    pub version: Version,
}

/// The least version that a part of a bound allows, for a part that can be read.
#[derive(Debug)]
pub struct PartMinimum {
    pub part: String,
    pub min: Version,
}

/// That a release is that of a package.
pub open spec fn is_release_of(uuid: u128) -> spec_fn(LatestRelease) -> bool {
    |release: LatestRelease| release.uuid == uuid
}

/// That a minimum is that of a part.
pub open spec fn is_part(part: Seq<char>) -> spec_fn(PartMinimum) -> bool {
    |minimum: PartMinimum| minimum.part@ == part
}

/// Whether a part can be read, and allows only versions from before `version` on.
pub open spec fn starts_before(
    minima: Seq<PartMinimum>,
    part: Seq<char>,
    version: Version,
) -> bool {
    let at = first_index(minima, is_part(part));
    at < minima.len() && version_less(minima[at].min, version)
}

/// Whether every part of a bound can be read and starts before `version`.
pub open spec fn all_start_before(
    minima: Seq<PartMinimum>,
    bound: Seq<char>,
    version: Version,
) -> bool {
    let parts = pieces(bound, ',');
    forall|i: int| 0 <= i < parts.len() ==> starts_before(minima, #[trigger] parts[i], version)
}

/// The action of a target: its bound becomes the latest release, where the
/// registries have the package under its name and every part of the bound starts
/// before that release.
pub open spec fn replacement_for(
    s: Seq<char>,
    uri: Seq<char>,
    latest: Seq<LatestRelease>,
    minima: Seq<PartMinimum>,
    encoding: PositionEncoding,
) -> spec_fn(TargetView) -> Option<CodeActionView> {
    |target: TargetView|
        {
            let at = first_index(latest, is_release_of(target.uuid));
            if at < latest.len() && latest[at].name@ == target.name && all_start_before(
                minima,
                target.bound,
                latest[at].version,
            ) {
                Some(
                    CodeActionView {
                        title: "Replace `"@ + target.name + "` compat with `"@ + version_text(
                            latest[at].version,
                        ) + "` (local registry)"@,
                        kind: CodeActionKind::RefactorRewrite,
                        diagnostic: None,
                        uri,
                        edit: TextEditView {
                            range: places(s, target.span, encoding),
                            new_text: "\""@ + version_text(latest[at].version) + "\""@,
                        },
                        is_preferred: false,
                    },
                )
            } else {
                None
            }
        }
}

/// No action lowers a minimum: where a part of the bound starts at the latest
/// release or behind it, there is none.
pub proof fn law_no_minimum_is_lowered(
    s: Seq<char>,
    uri: Seq<char>,
    latest: Seq<LatestRelease>,
    minima: Seq<PartMinimum>,
    encoding: PositionEncoding,
    target: TargetView,
    part: int,
)
    requires
        0 <= part < pieces(target.bound, ',').len(),
        ({
            let at = first_index(latest, is_release_of(target.uuid));
            let min = first_index(minima, is_part(pieces(target.bound, ',')[part]));
            at < latest.len() && min < minima.len() && !version_less(
                minima[min].min,
                latest[at].version,
            )
        }),
    ensures
        replacement_for(s, uri, latest, minima, encoding)(target) is None,
{
    let at = first_index(latest, is_release_of(target.uuid));
    assert(!starts_before(minima, pieces(target.bound, ',')[part], latest[at].version));
}

fn find_part(minima: &Vec<PartMinimum>, part: &str) -> (r: usize)
    ensures
        r == first_index(minima@, is_part(part@)),
        r <= minima.len(),
{
    let ghost here = is_part(part@);
    let mut at: usize = 0;
    while at < minima.len() && !same_text(minima[at].part.as_str(), part)
        invariant
            at <= minima.len(),
            here == is_part(part@),
            forall|k: int| 0 <= k < at ==> !here(#[trigger] minima@[k]),
        decreases minima.len() - at,
    {
        at = at + 1;
    }
    proof {
        lemma_first_index_is(minima@, here, at as int);
    }
    at
}

fn may_replace(minima: &Vec<PartMinimum>, bound: &str, version: Version) -> (r: bool)
    ensures
        r == all_start_before(minima@, bound@, version),
{
    let parts = split_on(bound, ',');
    let ghost all = parts.deep_view();
    let mut i: usize = 0;
    while i < parts.len()
        invariant
            i <= parts.len(),
            all == parts.deep_view(),
            all == pieces(bound@, ','),
            forall|k: int| 0 <= k < i ==> starts_before(minima@, #[trigger] all[k], version),
        decreases parts.len() - i,
    {
        let at = find_part(minima, parts[i].as_str());
        proof {
            assert(all[i as int] == parts@[i as int]@);
        }
        if at >= minima.len() || !minima[at].min.is_before(&version) {
            proof {
                assert(!starts_before(minima@, all[i as int], version));
            }
            return false;
        }
        i = i + 1;
    }
    true
}

/// The actions that replace bounds of `targets` by the latest releases, given the
/// least versions of the bounds' parts.
pub fn actions_for(
    line_index: &LineIndex,
    targets: &Vec<Target>,
    uri: &str,
    latest: &Vec<LatestRelease>,
    minima: &Vec<PartMinimum>,
    encoding: PositionEncoding,
) -> (r: Vec<CodeAction>)
    requires
        line_index.wf(),
    ensures
        r.deep_view() == kept(
            targets.deep_view(),
            replacement_for(line_index@, uri@, latest@, minima@, encoding),
        ),
{
    let ghost pick = replacement_for(line_index@, uri@, latest@, minima@, encoding);
    let ghost all = targets.deep_view();
    let mut out: Vec<CodeAction> = Vec::new();
    let mut i: usize = 0;
    proof {
        assert(all.take(0) =~= Seq::<TargetView>::empty());
        assert(out.deep_view() =~= Seq::<CodeActionView>::empty());
    }
    while i < targets.len()
        invariant
            line_index.wf(),
            i <= targets.len(),
            all == targets.deep_view(),
            pick == replacement_for(line_index@, uri@, latest@, minima@, encoding),
            out.deep_view() == kept(all.take(i as int), pick),
        decreases targets.len() - i,
    {
        proof {
            lemma_kept_step(all, pick, i as int);
        }
        let target = &targets[i];
        i = i + 1;
        let ghost here = is_release_of(target.uuid);
        let mut at: usize = 0;
        while at < latest.len() && latest[at].uuid != target.uuid
            invariant
                at <= latest.len(),
                here == is_release_of(target.uuid),
                forall|k: int| 0 <= k < at ==> !here(#[trigger] latest@[k]),
            decreases latest.len() - at,
        {
            at = at + 1;
        }
        proof {
            lemma_first_index_is(latest@, here, at as int);
        }
        if at < latest.len() && same_text(latest[at].name.as_str(), target.name.as_str())
            && may_replace(minima, target.bound.as_str(), latest[at].version) {
            let shown = latest[at].version.text();
            let mut title = cat("Replace `", target.name.as_str());
            title.append("` compat with `");
            title.append(shown.as_str());
            title.append("` (local registry)");
            let mut new_text = cat("\"", shown.as_str());
            new_text.append("\"");
            let ghost before = out.deep_view();
            out.push(
                CodeAction {
                    title,
                    kind: CodeActionKind::RefactorRewrite,
                    diagnostic: None,
                    uri: uri.to_owned(),
                    edit: TextEdit {
                        range: to_range(target.span, line_index, encoding),
                        new_text,
                    },
                    is_preferred: false,
                },
            );
            proof {
                assert(out.deep_view() =~= before.push(out@.last().deep_view()));
            }
        }
    }
    proof {
        assert(all.take(i as int) =~= all);
    }
    out
}

/// Actions on a project's bounds, by the registries of a number of depots.
#[derive(Debug)]
pub struct ProjectActions {
    pub depots: Vec<FilePath>,
}

impl ProjectActions {
    /// Actions by the registries of `depots`.
    pub fn new(depots: Vec<FilePath>) -> (r: ProjectActions)
        ensures
            r.depots == depots,
    {
        ProjectActions { depots }
    }
}

/// A bound is replaced by the latest release wherever the registries have the package
/// under its name and every part of the bound can be read and starts before that
/// release.
pub proof fn law_older_bounds_are_replaced(
    s: Seq<char>,
    uri: Seq<char>,
    latest: Seq<LatestRelease>,
    minima: Seq<PartMinimum>,
    encoding: PositionEncoding,
    target: TargetView,
    i: int,
)
    requires
        0 <= i < latest.len() && latest[i].uuid == target.uuid,
        forall|k: int| 0 <= k < i ==> (#[trigger] latest[k]).uuid != target.uuid,
    ensures
        ({
            let version = latest[i].version;
            let parts = pieces(target.bound, ',');
            let read = |part: Seq<char>, m: int|
                0 <= m < minima.len() && minima[m].part@ == part && forall|k: int|
                    0 <= k < m ==> (#[trigger] minima[k]).part@ != part;
            let action = replacement_for(s, uri, latest, minima, encoding)(target);
            &&& latest[i].name@ == target.name && (forall|p: int|
                0 <= p < parts.len() ==> exists|m: int|
                    #![trigger minima[m]]
                    read(#[trigger] parts[p], m) && version_less(minima[m].min, version))
                ==> action is Some && action->0.edit.new_text == "\""@ + version_text(version)
                + "\""@ && action->0.edit.range == range_at(
                s,
                target.span.start as int,
                target.span.end as int,
                encoding,
            ) && action->0.uri == uri
            &&& latest[i].name@ != target.name ==> action is None
        }),
{
    let version = latest[i].version;
    let parts = pieces(target.bound, ',');
    let read = |part: Seq<char>, m: int|
        0 <= m < minima.len() && minima[m].part@ == part && forall|k: int|
            0 <= k < m ==> (#[trigger] minima[k]).part@ != part;
    assert forall|k: int| 0 <= k < i implies !is_release_of(target.uuid)(#[trigger] latest[k]) by {}
    lemma_first_index_is(latest, is_release_of(target.uuid), i);
    if forall|p: int|
        0 <= p < parts.len() ==> exists|m: int|
            #![trigger minima[m]]
            read(#[trigger] parts[p], m) && version_less(minima[m].min, version) {
        assert forall|p: int| 0 <= p < parts.len() implies starts_before(
            minima,
            #[trigger] parts[p],
            version,
        ) by {
            let m = choose|m: int|
                #![trigger minima[m]]
                read(parts[p], m) && version_less(minima[m].min, version);
            assert forall|k: int| 0 <= k < m implies !is_part(parts[p])(#[trigger] minima[k]) by {}
            lemma_first_index_is(minima, is_part(parts[p]), m);
        }
    }
}

/// One version comes before another by its first number that differs; of any two that
/// differ one comes before the other, and never both.
pub proof fn law_versions_are_in_order(a: Version, b: Version)
    ensures
        a.major < b.major ==> version_less(a, b),
        a.major == b.major && a.minor < b.minor ==> version_less(a, b),
        a.major == b.major && a.minor == b.minor && a.patch < b.patch ==> version_less(a, b),
        !(version_less(a, b) && version_less(b, a)),
        a != b ==> version_less(a, b) || version_less(b, a),
        !version_less(a, a),
{
}

} // verus!
