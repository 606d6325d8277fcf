//! The occurrences of a name across the files of a package.

use vstd::prelude::*;

use crate::calls::{files_wf, recs_wf, SourceFile};
use crate::order::{law_text_ranks, rank_text, text_less, text_rank};
use crate::references::{range_start, start_number, Location, LocationView};
use crate::search::{kept, lemma_kept_from, lemma_kept_holds, lemma_kept_step};
use crate::semantic::Access;
use crate::sorting::{
    law_sorted, law_sorting_is_stable, law_sorting_keeps_items, sort_stable, stable_sorted,
};
use crate::text::{range_at, LineIndex, PositionEncoding, Range, TextRange};

verus! {

/// An occurrence in one of the files.
#[derive(Clone, Copy, Debug, PartialEq, Eq, Structural)]
pub struct OccurrenceRec {
    pub file: usize,
    pub range: TextRange,
    pub access: Access,
    pub is_def: bool,
}

impl DeepView for OccurrenceRec {
    type V = OccurrenceRec;

    open spec fn deep_view(&self) -> OccurrenceRec {
        *self
    }
}

/// An occurrence in a document.
#[derive(Debug)]
pub struct CrossFileSite {
    pub uri: String,
    pub range: Range,
    pub access: Access,
    pub is_def: bool,
}

/// What a [`CrossFileSite`] says.
pub struct SiteView {
    pub uri: Seq<char>,
    pub range: Range,
    pub access: Access,
    pub is_def: bool,
}

impl DeepView for CrossFileSite {
    type V = SiteView;

    open spec fn deep_view(&self) -> SiteView {
        SiteView {
            uri: self.uri@,
            range: self.range,
            access: self.access,
            is_def: self.is_def,
        }
    }
}

/// The site of an occurrence, where its file has a URI.
pub open spec fn site_of(files: Seq<SourceFile>, encoding: PositionEncoding) -> spec_fn(
    OccurrenceRec,
) -> Option<SiteView> {
    |rec: OccurrenceRec|
        match files[rec.file as int].uri {
            Some(uri) => Some(
                SiteView {
                    uri: uri@,
                    range: range_at(
                        files[rec.file as int].text@,
                        rec.range.start as int,
                        rec.range.end as int,
                        encoding,
                    ),
                    access: rec.access,
                    is_def: rec.is_def,
                },
            ),
            None => None,
        }
}

/// Where a site begins in its document.
pub open spec fn site_start() -> spec_fn(SiteView) -> int {
    |site: SiteView| range_start(site.range)
}

/// The URIs of sites.
pub open spec fn uris_of(sites: Seq<SiteView>) -> Seq<Seq<char>> {
    Seq::new(sites.len(), |i: int| sites[i].uri)
}

/// How many of a number of URIs come before that of a site.
pub open spec fn site_rank(uris: Seq<Seq<char>>) -> spec_fn(SiteView) -> int {
    |site: SiteView| text_rank(uris, site.uri) as int
}

/// Sites by document, then by where they begin.
pub open spec fn sites_sorted(sites: Seq<SiteView>) -> Seq<SiteView> {
    let placed = stable_sorted(sites, site_start());
    stable_sorted(placed, site_rank(uris_of(placed)))
}

/// Every occurrence of a name, by document, then by where it begins.
pub open spec fn gathered(
    bucket: Seq<OccurrenceRec>,
    files: Seq<SourceFile>,
    encoding: PositionEncoding,
) -> Seq<SiteView> {
    sites_sorted(kept(bucket, site_of(files, encoding)))
}

/// The sites of a name lose none of its occurrences and add none.
pub proof fn law_gathering_keeps_sites(
    bucket: Seq<OccurrenceRec>,
    files: Seq<SourceFile>,
    encoding: PositionEncoding,
)
    ensures
        gathered(bucket, files, encoding).to_multiset() == kept(
            bucket,
            site_of(files, encoding),
        ).to_multiset(),
{
    let sites = kept(bucket, site_of(files, encoding));
    let placed = stable_sorted(sites, site_start());
    law_sorted(sites, site_start());
    law_sorted(placed, site_rank(uris_of(placed)));
}

/// The sites of a name come document by document, in the order of the documents'
/// URIs.
pub proof fn law_sites_grouped_by_document(sites: Seq<SiteView>, i: int, j: int)
    requires
        0 <= i < j < sites_sorted(sites).len(),
    ensures
        sites_sorted(sites)[i].uri == sites_sorted(sites)[j].uri || text_less(
            sites_sorted(sites)[i].uri,
            sites_sorted(sites)[j].uri,
        ),
{
    let placed = stable_sorted(sites, site_start());
    let key = site_rank(uris_of(placed));
    let all = sites_sorted(sites);
    law_sorted(placed, key);
    assert(key(all[i]) <= key(all[j]));
    lemma_uri_listed(placed, all, i);
    lemma_uri_listed(placed, all, j);
    law_text_ranks(uris_of(placed), all[i].uri, all[j].uri);
}

proof fn lemma_uri_listed(placed: Seq<SiteView>, all: Seq<SiteView>, i: int)
    requires
        all.to_multiset() == placed.to_multiset(),
        0 <= i < all.len(),
    ensures
        uris_of(placed).contains(all[i].uri),
{
    vstd::seq_lib::to_multiset_contains(all, all[i]);
    vstd::seq_lib::to_multiset_contains(placed, all[i]);
    let k = choose|k: int| 0 <= k < placed.len() && placed[k] == all[i];
    assert(uris_of(placed)[k] == all[i].uri);
}

/// Sorts sites by document, then by where they begin.
pub fn sort_sites(sites: Vec<CrossFileSite>) -> (r: Vec<CrossFileSite>)
    ensures
        r.deep_view() == sites_sorted(sites.deep_view()),
{
    let mut keys: Vec<u64> = Vec::new();
    let mut i: usize = 0;
    while i < sites.len()
        invariant
            i <= sites.len(),
            keys.len() == i,
            forall|k: int|
                0 <= k < i ==> #[trigger] keys@[k] == site_start()(sites.deep_view()[k]),
        decreases sites.len() - i,
    {
        keys.push(start_number(sites[i].range));
        i = i + 1;
    }
    let placed = sort_stable(sites, keys, Ghost(site_start()));
    let ghost uris = uris_of(placed.deep_view());
    let mut ranks: Vec<u64> = Vec::new();
    let mut listed: Vec<&str> = Vec::new();
    let mut j: usize = 0;
    while j < placed.len()
        invariant
            j <= placed.len(),
            listed.len() == j,
            forall|k: int| 0 <= k < j ==> (#[trigger] listed@[k])@ == placed@[k].uri@,
        decreases placed.len() - j,
    {
        listed.push(placed[j].uri.as_str());
        j = j + 1;
    }
    let mut k: usize = 0;
    proof {
        assert(Seq::new(listed.len() as nat, |i: int| listed@[i]@) =~= uris);
    }
    while k < placed.len()
        invariant
            k <= placed.len(),
            uris == uris_of(placed.deep_view()),
            uris == Seq::new(listed.len() as nat, |i: int| listed@[i]@),
            ranks.len() == k,
            forall|m: int|
                0 <= m < k ==> #[trigger] ranks@[m] == site_rank(uris)(placed.deep_view()[m]),
        decreases placed.len() - k,
    {
        ranks.push(rank_text(&listed, placed[k].uri.as_str()));
        k = k + 1;
    }
    sort_stable(placed, ranks, Ghost(site_rank(uris)))
}

/// Every occurrence of a name, given those that the index holds of it.
pub fn gather_sites(
    bucket: &Vec<OccurrenceRec>,
    files: &Vec<SourceFile>,
    encoding: PositionEncoding,
) -> (r: Vec<CrossFileSite>)
    requires
        recs_wf(bucket@, files@),
        files_wf(files@),
    ensures
        r.deep_view() == gathered(bucket@, files@, encoding),
{
    let mut indexes: Vec<LineIndex> = Vec::new();
    let mut f: usize = 0;
    while f < files.len()
        invariant
            files_wf(files@),
            f <= files.len(),
            indexes.len() == f,
            forall|k: int|
                0 <= k < f ==> (#[trigger] indexes@[k]).wf() && indexes@[k]@ == files@[k].text@,
        decreases files.len() - f,
    {
        proof {
            assert(files@[f as int].wf());
        }
        indexes.push(LineIndex::new(files[f].text.as_str()));
        f = f + 1;
    }
    let ghost pick = site_of(files@, encoding);
    let mut out: Vec<CrossFileSite> = Vec::new();
    let mut i: usize = 0;
    proof {
        assert(bucket@.take(0) =~= Seq::<OccurrenceRec>::empty());
        assert(out.deep_view() =~= Seq::<SiteView>::empty());
    }
    while i < bucket.len()
        invariant
            recs_wf(bucket@, files@),
            indexes.len() == files.len(),
            forall|k: int|
                0 <= k < files.len() ==> (#[trigger] indexes@[k]).wf() && indexes@[k]@
                    == files@[k].text@,
            i <= bucket.len(),
            pick == site_of(files@, encoding),
            out.deep_view() == kept(bucket@.take(i as int), pick),
        decreases bucket.len() - i,
    {
        proof {
            lemma_kept_step(bucket@, pick, i as int);
        }
        let rec = bucket[i];
        i = i + 1;
        if let Some(uri) = &files[rec.file].uri {
            let ghost before = out.deep_view();
            out.push(
                CrossFileSite {
                    uri: uri.clone(),
                    range: indexes[rec.file].range(
                        rec.range.start as usize,
                        rec.range.end as usize,
                        encoding,
                    ),
                    access: rec.access,
                    is_def: rec.is_def,
                },
            );
            proof {
                assert(out.deep_view() =~= before.push(out@.last().deep_view()));
            }
        }
    }
    proof {
        assert(bucket@.take(i as int) =~= bucket@);
    }
    sort_sites(out)
}

/// The sites of the name of the workspace under the cursor, given its occurrences;
/// none where there is no such name.
pub open spec fn sites_of(
    recs: Option<Vec<OccurrenceRec>>,
    files: Seq<SourceFile>,
    encoding: PositionEncoding,
) -> Seq<SiteView> {
    match recs {
        Some(recs) => gathered(recs@, files, encoding),
        None => Seq::empty(),
    }
}

/// The sites of the name of the workspace under the cursor, given its occurrences.
pub fn symbol_sites(
    recs: &Option<Vec<OccurrenceRec>>,
    files: &Vec<SourceFile>,
    encoding: PositionEncoding,
) -> (r: Vec<CrossFileSite>)
    requires
        recs is Some ==> recs_wf(recs->0@, files@),
        files_wf(files@),
    ensures
        r.deep_view() == sites_of(*recs, files@, encoding),
{
    match recs {
        Some(recs) => gather_sites(recs, files, encoding),
        None => {
            let none: Vec<CrossFileSite> = Vec::new();
            proof {
                assert(none.deep_view() =~= Seq::<SiteView>::empty());
            }
            none
        },
    }
}

/// The location of a site, where it is asked for.
pub open spec fn site_location(include_declaration: bool) -> spec_fn(SiteView) -> Option<
    LocationView,
> {
    |site: SiteView|
        if include_declaration || !site.is_def {
            Some(LocationView { uri: site.uri, range: site.range })
        } else {
            None
        }
}

/// The location of a site that defines the name: the definition of a file, or
/// another method of a function, which writes it.
pub open spec fn definition_location() -> spec_fn(SiteView) -> Option<LocationView> {
    |site: SiteView|
        if site.is_def || site.access == Access::Write {
            Some(LocationView { uri: site.uri, range: site.range })
        } else {
            None
        }
}

/// The references among sites.
pub fn cross_file_references(sites: &Vec<CrossFileSite>, include_declaration: bool) -> (r: Vec<
    Location,
>)
    ensures
        r.deep_view() == kept(sites.deep_view(), site_location(include_declaration)),
{
    let ghost pick = site_location(include_declaration);
    let ghost all = sites.deep_view();
    let mut out: Vec<Location> = Vec::new();
    let mut i: usize = 0;
    proof {
        assert(all.take(0) =~= Seq::<SiteView>::empty());
        assert(out.deep_view() =~= Seq::<LocationView>::empty());
    }
    while i < sites.len()
        invariant
            i <= sites.len(),
            all == sites.deep_view(),
            pick == site_location(include_declaration),
            out.deep_view() == kept(all.take(i as int), pick),
        decreases sites.len() - i,
    {
        proof {
            lemma_kept_step(all, pick, i as int);
        }
        let site = &sites[i];
        i = i + 1;
        if include_declaration || !site.is_def {
            let ghost before = out.deep_view();
            out.push(Location { uri: site.uri.clone(), range: site.range });
            proof {
                assert(out.deep_view() =~= before.push(out@.last().deep_view()));
            }
        }
    }
    proof {
        assert(all.take(i as int) =~= all);
    }
    out
}

/// The definitions among sites.
pub fn cross_file_definitions(sites: &Vec<CrossFileSite>) -> (r: Vec<Location>)
    ensures
        r.deep_view() == kept(sites.deep_view(), definition_location()),
{
    let ghost pick = definition_location();
    let ghost all = sites.deep_view();
    let mut out: Vec<Location> = Vec::new();
    let mut i: usize = 0;
    proof {
        assert(all.take(0) =~= Seq::<SiteView>::empty());
        assert(out.deep_view() =~= Seq::<LocationView>::empty());
    }
    while i < sites.len()
        invariant
            i <= sites.len(),
            all == sites.deep_view(),
            pick == definition_location(),
            out.deep_view() == kept(all.take(i as int), pick),
        decreases sites.len() - i,
    {
        proof {
            lemma_kept_step(all, pick, i as int);
        }
        let site = &sites[i];
        i = i + 1;
        let writes = match site.access {
            Access::Write => true,
            _ => false,
        };
        if site.is_def || writes {
            let ghost before = out.deep_view();
            out.push(Location { uri: site.uri.clone(), range: site.range });
            proof {
                assert(out.deep_view() =~= before.push(out@.last().deep_view()));
            }
        }
    }
    proof {
        assert(all.take(i as int) =~= all);
    }
    out
}

/// Every occurrence of a name in a file that has a URI is among its sites, with the
/// URI, the place, the access and whether it defines the name; and every site is one of
/// them.
pub proof fn law_every_occurrence_has_a_site(
    bucket: Seq<OccurrenceRec>,
    files: Seq<SourceFile>,
    encoding: PositionEncoding,
    k: int,
)
    ensures
        ({
            let sites = gathered(bucket, files, encoding);
            let site = |rec: OccurrenceRec|
                SiteView {
                    uri: files[rec.file as int].uri->0@,
                    range: range_at(
                        files[rec.file as int].text@,
                        rec.range.start as int,
                        rec.range.end as int,
                        encoding,
                    ),
                    access: rec.access,
                    is_def: rec.is_def,
                };
            &&& 0 <= k < bucket.len() && files[bucket[k].file as int].uri is Some
                ==> sites.contains(site(bucket[k]))
            &&& 0 <= k < sites.len() ==> exists|i: int|
                0 <= i < bucket.len() && files[(#[trigger] bucket[i]).file as int].uri is Some
                    && sites[k] == site(bucket[i])
        }),
{
    let f = site_of(files, encoding);
    let found = kept(bucket, f);
    let sites = gathered(bucket, files, encoding);
    if 0 <= k < bucket.len() && files[bucket[k].file as int].uri is Some {
        let j = lemma_kept_holds(bucket, f, k);
        assert(found.contains(found[j]));
        lemma_sites_keep(found, found[j]);
    }
    if 0 <= k < sites.len() {
        assert(sites.contains(sites[k]));
        lemma_sites_keep(found, sites[k]);
        let j = choose|j: int| 0 <= j < found.len() && found[j] == sites[k];
        let i = lemma_kept_from(bucket, f, j);
        assert(files[bucket[i].file as int].uri is Some);
    }
}

proof fn lemma_sites_keep(sites: Seq<SiteView>, site: SiteView)
    ensures
        sites_sorted(sites).contains(site) <==> sites.contains(site),
{
    let placed = stable_sorted(sites, site_start());
    law_sorting_keeps_items(sites, site_start(), site);
    law_sorting_keeps_items(placed, site_rank(uris_of(placed)), site);
}

/// The references among sites are those of all sites, less the definition where it is
/// not asked for; the definitions are those of all sites that define or write the name.
pub proof fn law_sites_are_references_and_definitions(
    sites: Seq<SiteView>,
    include_declaration: bool,
    k: int,
)
    requires
        0 <= k < sites.len(),
    ensures
        ({
            let at = LocationView { uri: sites[k].uri, range: sites[k].range };
            let references = kept(sites, site_location(include_declaration));
            let definitions = kept(sites, definition_location());
            &&& !sites[k].is_def || include_declaration ==> references.contains(at)
            &&& sites[k].is_def || sites[k].access == Access::Write ==> definitions.contains(at)
        }),
{
    if !sites[k].is_def || include_declaration {
        let j = lemma_kept_holds(sites, site_location(include_declaration), k);
    }
    if sites[k].is_def || sites[k].access == Access::Write {
        let j = lemma_kept_holds(sites, definition_location(), k);
    }
}

/// A reference among sites is at a site that is asked for, and a definition at one that
/// defines or writes the name.
pub proof fn law_references_and_definitions_are_sites(
    sites: Seq<SiteView>,
    include_declaration: bool,
    k: int,
)
    ensures
        0 <= k < kept(sites, site_location(include_declaration)).len() ==> exists|i: int|
            0 <= i < sites.len() && (include_declaration || !(#[trigger] sites[i]).is_def) && kept(
                sites,
                site_location(include_declaration),
            )[k] == (LocationView { uri: sites[i].uri, range: sites[i].range }),
        0 <= k < kept(sites, definition_location()).len() ==> exists|i: int|
            0 <= i < sites.len() && ((#[trigger] sites[i]).is_def || sites[i].access
                == Access::Write) && kept(sites, definition_location())[k] == (LocationView {
                uri: sites[i].uri,
                range: sites[i].range,
            }),
{
    if 0 <= k < kept(sites, site_location(include_declaration)).len() {
        let i = lemma_kept_from(sites, site_location(include_declaration), k);
        assert(include_declaration || !sites[i].is_def);
    }
    if 0 <= k < kept(sites, definition_location()).len() {
        let i = lemma_kept_from(sites, definition_location(), k);
        assert(sites[i].is_def || sites[i].access == Access::Write);
    }
}

/// The sites of a name in one document come in the order of the document, line before
/// column.
pub proof fn law_sites_of_a_document_are_in_order(sites: Seq<SiteView>, i: int, j: int)
    requires
        0 <= i < j < sites_sorted(sites).len(),
        sites_sorted(sites)[i].uri == sites_sorted(sites)[j].uri,
    ensures
        ({
            let a = sites_sorted(sites)[i].range.start;
            let b = sites_sorted(sites)[j].range.start;
            a.line < b.line || (a.line == b.line && a.character <= b.character)
        }),
{
    let placed = stable_sorted(sites, site_start());
    let all = sites_sorted(sites);
    let key = site_rank(uris_of(placed));
    law_sorted(sites, site_start());
    law_sorting_is_stable(placed, key, site_start());
    assert(key(all[i]) == key(all[j]));
    assert(site_start()(all[i]) <= site_start()(all[j]));
}

} // verus!
