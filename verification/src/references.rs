//! References to the name under the cursor, and its highlights.

use vstd::prelude::*;

use crate::search::{kept, lemma_kept_from, lemma_kept_holds, lemma_kept_step};
use crate::semantic::{
    binding_under, law_occurrences_are_all_that_stands_for_a_binding, occurrences_of, Access,
    Occurrence, SemanticModel,
};
use crate::sorting::{ascending, law_sorted, law_sorting_keeps_items, sort_stable, stable_sorted};
use crate::text::{
    fits, lemma_offset_bounded, offset_at, range_at, LineIndex, Position, PositionEncoding, Range,
    TextRange,
};

verus! {

/// A range in a document.
#[derive(Debug)]
pub struct Location {
    pub uri: String,
    pub range: Range,
}

/// What a [`Location`] says.
pub struct LocationView {
    pub uri: Seq<char>,
    pub range: Range,
}

impl DeepView for Location {
    type V = LocationView;

    open spec fn deep_view(&self) -> LocationView {
        LocationView { uri: self.uri@, range: self.range }
    }
}

/// How a highlighted name is used.
#[derive(Clone, Copy, Debug, PartialEq, Eq, Structural)]
pub enum DocumentHighlightKind {
    Read,
    Write,
}

/// A highlighted name.
#[derive(Clone, Copy, Debug, PartialEq, Eq, Structural)]
pub struct DocumentHighlight {
    pub range: Range,
    pub kind: DocumentHighlightKind,
}

impl DeepView for DocumentHighlight {
    type V = DocumentHighlight;

    open spec fn deep_view(&self) -> DocumentHighlight {
        *self
    }
}

/// Where a range begins, as one number: line before column.
pub open spec fn range_start(range: Range) -> int {
    range.start.line * 0x1_0000_0000 + range.start.character
}

/// Where a range begins, as one number.
pub fn start_number(range: Range) -> (r: u64)
    ensures
        r == range_start(range),
{
    range.start.line as u64 * 0x1_0000_0000 + range.start.character as u64
}

/// Where a location begins.
pub open spec fn location_key() -> spec_fn(LocationView) -> int {
    |location: LocationView| range_start(location.range)
}

/// Where a highlight begins.
pub open spec fn highlight_key() -> spec_fn(DocumentHighlight) -> int {
    |highlight: DocumentHighlight| range_start(highlight.range)
}

/// The location of an occurrence; the definition counts only where it is asked
/// for.
pub open spec fn occurrence_location(
    s: Seq<char>,
    uri: Seq<char>,
    include_declaration: bool,
    encoding: PositionEncoding,
) -> spec_fn(Occurrence) -> Option<LocationView> {
    |o: Occurrence|
        if include_declaration || !o.is_def {
            Some(
                LocationView {
                    uri,
                    range: range_at(s, o.range.start as int, o.range.end as int, encoding),
                },
            )
        } else {
            None
        }
}

/// The references to a binding, in the order of the document.
pub open spec fn references_to(
    s: Seq<char>,
    model: SemanticModel,
    uri: Seq<char>,
    id: usize,
    include_declaration: bool,
    encoding: PositionEncoding,
) -> Seq<LocationView> {
    stable_sorted(
        kept(
            occurrences_of(model, id),
            occurrence_location(s, uri, include_declaration, encoding),
        ),
        location_key(),
    )
}

/// References come in the order of the document, and they are those of the
/// occurrences that are asked for.
pub proof fn law_references_in_order(
    s: Seq<char>,
    model: SemanticModel,
    uri: Seq<char>,
    id: usize,
    include_declaration: bool,
    encoding: PositionEncoding,
)
    ensures
        ascending(
            references_to(s, model, uri, id, include_declaration, encoding),
            location_key(),
        ),
        references_to(s, model, uri, id, include_declaration, encoding).to_multiset() == kept(
            occurrences_of(model, id),
            occurrence_location(s, uri, include_declaration, encoding),
        ).to_multiset(),
{
    law_sorted(
        kept(
            occurrences_of(model, id),
            occurrence_location(s, uri, include_declaration, encoding),
        ),
        location_key(),
    );
}

/// How an access shows: one that writes shows as a write, though it reads too.
pub open spec fn access_kind(access: Access) -> DocumentHighlightKind {
    match access {
        Access::Read => DocumentHighlightKind::Read,
        Access::Write | Access::ReadWrite => DocumentHighlightKind::Write,
    }
}

/// How an access shows.
pub fn highlight_kind(access: Access) -> (r: DocumentHighlightKind)
    ensures
        r == access_kind(access),
{
    match access {
        Access::Read => DocumentHighlightKind::Read,
        Access::Write | Access::ReadWrite => DocumentHighlightKind::Write,
    }
}

/// The highlights of a binding, in the order of the document.
pub open spec fn highlights_of(
    s: Seq<char>,
    model: SemanticModel,
    id: usize,
    encoding: PositionEncoding,
) -> Seq<DocumentHighlight> {
    let all = occurrences_of(model, id);
    stable_sorted(
        Seq::new(
            all.len(),
            |i: int|
                DocumentHighlight {
                    range: range_at(
                        s,
                        all[i].range.start as int,
                        all[i].range.end as int,
                        encoding,
                    ),
                    kind: access_kind(all[i].access),
                },
        ),
        highlight_key(),
    )
}

/// Sorts locations of one document by where they begin.
pub fn sort_locations(locations: Vec<Location>) -> (r: Vec<Location>)
    ensures
        r.deep_view() == stable_sorted(locations.deep_view(), location_key()),
{
    let mut keys: Vec<u64> = Vec::new();
    let mut i: usize = 0;
    while i < locations.len()
        invariant
            i <= locations.len(),
            keys.len() == i,
            forall|k: int|
                0 <= k < i ==> #[trigger] keys@[k] == location_key()(locations.deep_view()[k]),
        decreases locations.len() - i,
    {
        keys.push(start_number(locations[i].range));
        i = i + 1;
    }
    sort_stable(locations, keys, Ghost(location_key()))
}

/// The references to the name at `offset`, or `None` where the file does not bind
/// it.
pub fn references_for(
    model: &SemanticModel,
    uri: &str,
    line_index: &LineIndex,
    offset: u32,
    encoding: PositionEncoding,
    include_declaration: bool,
) -> (r: Option<Vec<Location>>)
    requires
        model.wf(),
        line_index.wf(),
    ensures
        r.deep_view() == match binding_under(*model, offset) {
            Some(id) => Some(
                references_to(
                    line_index@,
                    *model,
                    uri@,
                    id,
                    include_declaration,
                    encoding,
                ),
            ),
            None => None,
        },
{
    let id = match model.binding_at_cursor(offset) {
        Some(id) => id,
        None => {
            return None;
        },
    };
    let all = model.occurrences(id);
    let ghost pick = occurrence_location(line_index@, uri@, include_declaration, encoding);
    let mut locations: Vec<Location> = Vec::new();
    let mut i: usize = 0;
    proof {
        assert(all@.take(0) =~= Seq::<Occurrence>::empty());
        assert(locations.deep_view() =~= Seq::<LocationView>::empty());
    }
    while i < all.len()
        invariant
            line_index.wf(),
            i <= all.len(),
            pick == occurrence_location(line_index@, uri@, include_declaration, encoding),
            locations.deep_view() == kept(all@.take(i as int), pick),
        decreases all.len() - i,
    {
        proof {
            lemma_kept_step(all@, pick, i as int);
        }
        let o = all[i];
        i = i + 1;
        if include_declaration || !o.is_def {
            let ghost before = locations.deep_view();
            locations.push(
                Location {
                    uri: uri.to_owned(),
                    range: line_index.range(
                        o.range.start as usize,
                        o.range.end as usize,
                        encoding,
                    ),
                },
            );
            proof {
                assert(locations.deep_view() =~= before.push(locations@.last().deep_view()));
            }
        }
    }
    proof {
        assert(all@.take(i as int) =~= all@);
    }
    Some(sort_locations(locations))
}

/// The highlights of the name at `offset`, or `None` where the file does not bind
/// it.
pub fn highlights_for(
    model: &SemanticModel,
    line_index: &LineIndex,
    offset: u32,
    encoding: PositionEncoding,
) -> (r: Option<Vec<DocumentHighlight>>)
    requires
        model.wf(),
        line_index.wf(),
    ensures
        match binding_under(*model, offset) {
            Some(id) => r is Some && r->0@ == highlights_of(line_index@, *model, id, encoding),
            None => r is None,
        },
{
    let id = match model.binding_at_cursor(offset) {
        Some(id) => id,
        None => {
            return None;
        },
    };
    let all = model.occurrences(id);
    let mut highlights: Vec<DocumentHighlight> = Vec::new();
    let mut keys: Vec<u64> = Vec::new();
    let mut i: usize = 0;
    while i < all.len()
        invariant
            line_index.wf(),
            i <= all.len(),
            highlights.len() == i,
            keys.len() == i,
            forall|k: int|
                0 <= k < i ==> #[trigger] highlights@[k] == (DocumentHighlight {
                    range: range_at(
                        line_index@,
                        all@[k].range.start as int,
                        all@[k].range.end as int,
                        encoding,
                    ),
                    kind: access_kind(all@[k].access),
                }),
            forall|k: int|
                0 <= k < i ==> #[trigger] keys@[k] == highlight_key()(highlights.deep_view()[k]),
        decreases all.len() - i,
    {
        let o = all[i];
        let range = line_index.range(o.range.start as usize, o.range.end as usize, encoding);
        let ghost before = highlights.deep_view();
        keys.push(start_number(range));
        highlights.push(DocumentHighlight { range, kind: highlight_kind(o.access) });
        proof {
            assert(highlights.deep_view() =~= before.push(highlights@.last()));
        }
        i = i + 1;
    }
    proof {
        assert(highlights.deep_view() =~= Seq::new(
            all@.len(),
            |i: int|
                DocumentHighlight {
                    range: range_at(
                        line_index@,
                        all@[i].range.start as int,
                        all@[i].range.end as int,
                        encoding,
                    ),
                    kind: access_kind(all@[i].access),
                },
        ));
    }
    let sorted = sort_stable(highlights, keys, Ghost(highlight_key()));
    proof {
        assert(sorted.deep_view() =~= sorted@);
    }
    Some(sorted)
}

/// The references to the name at `position` of `text`.
pub fn compute_references(
    uri: &str,
    text: &str,
    position: Position,
    model: &SemanticModel,
    encoding: PositionEncoding,
    include_declaration: bool,
) -> (r: Option<Vec<Location>>)
    requires
        model.wf(),
        fits(text@),
    ensures
        r.deep_view() == match binding_under(
            *model,
            offset_at(text@, position, encoding) as u32,
        ) {
            Some(id) => Some(
                references_to(text@, *model, uri@, id, include_declaration, encoding),
            ),
            None => None,
        },
{
    let line_index = LineIndex::new(text);
    proof {
        lemma_offset_bounded(text@, position, encoding);
    }
    let offset = line_index.position_to_byte(position, encoding) as u32;
    references_for(model, uri, &line_index, offset, encoding, include_declaration)
}

/// The highlights of the name at `position` of `text`.
pub fn compute_document_highlights(
    text: &str,
    position: Position,
    model: &SemanticModel,
    encoding: PositionEncoding,
) -> (r: Option<Vec<DocumentHighlight>>)
    requires
        model.wf(),
        fits(text@),
    ensures
        match binding_under(*model, offset_at(text@, position, encoding) as u32) {
            Some(id) => r is Some && r->0@ == highlights_of(text@, *model, id, encoding),
            None => r is None,
        },
{
    let line_index = LineIndex::new(text);
    proof {
        lemma_offset_bounded(text@, position, encoding);
    }
    let offset = line_index.position_to_byte(position, encoding) as u32;
    highlights_for(model, &line_index, offset, encoding)
}

/// Wherever a binding occurs there is a reference to it, in its document and over the
/// whole name; the definition is one only where it is asked for.
pub proof fn law_every_occurrence_is_a_reference(
    s: Seq<char>,
    model: SemanticModel,
    uri: Seq<char>,
    id: usize,
    include_declaration: bool,
    encoding: PositionEncoding,
    k: int,
)
    ensures
        ({
            let references = references_to(s, model, uri, id, include_declaration, encoding);
            let at = |range: TextRange|
                LocationView {
                    uri,
                    range: range_at(s, range.start as int, range.end as int, encoding),
                };
            &&& include_declaration ==> references.contains(at(model.bindings@[id as int].def_range))
            &&& 0 <= k < model.idents.len() && model.idents@[k].binding == Some(id)
                ==> references.contains(at(model.idents@[k].range))
            &&& 0 <= k < references.len() ==> (include_declaration && references[k] == at(
                model.bindings@[id as int].def_range,
            )) || exists|i: int|
                0 <= i < model.idents.len() && (#[trigger] model.idents@[i]).binding == Some(id)
                    && references[k] == at(model.idents@[i].range)
        }),
{
    let all = occurrences_of(model, id);
    let f = occurrence_location(s, uri, include_declaration, encoding);
    let places = kept(all, f);
    let references = references_to(s, model, uri, id, include_declaration, encoding);
    let at = |range: TextRange|
        LocationView { uri, range: range_at(s, range.start as int, range.end as int, encoding) };
    law_occurrences_are_all_that_stands_for_a_binding(model, id, k);
    if include_declaration {
        let j = lemma_kept_holds(all, f, 0);
        assert(places.contains(places[j]));
        law_sorting_keeps_items(places, location_key(), places[j]);
    }
    if 0 <= k < model.idents.len() && model.idents@[k].binding == Some(id) {
        let o = choose|o: int|
            0 < o < all.len() && (#[trigger] all[o]).range == model.idents@[k].range
                && all[o].access == model.idents@[k].access;
        law_occurrences_are_all_that_stands_for_a_binding(model, id, o);
        let j = lemma_kept_holds(all, f, o);
        assert(places.contains(places[j]));
        law_sorting_keeps_items(places, location_key(), places[j]);
    }
    if 0 <= k < references.len() {
        assert(references.contains(references[k]));
        law_sorting_keeps_items(places, location_key(), references[k]);
        let j = choose|j: int| 0 <= j < places.len() && places[j] == references[k];
        let o = lemma_kept_from(all, f, j);
        law_occurrences_are_all_that_stands_for_a_binding(model, id, o);
        if o > 0 {
            let i = choose|i: int|
                0 <= i < model.idents.len() && (#[trigger] model.idents@[i]).binding == Some(id)
                    && model.idents@[i].range == all[o].range && model.idents@[i].access
                    == all[o].access;
            assert(references[k] == at(model.idents@[i].range));
        }
    }
}

/// Wherever a binding occurs it is highlighted: its definition and whatever writes it
/// as a write, what only reads it as a read.
pub proof fn law_every_occurrence_is_highlighted(
    s: Seq<char>,
    model: SemanticModel,
    id: usize,
    encoding: PositionEncoding,
    k: int,
)
    ensures
        ({
            let highlights = highlights_of(s, model, id, encoding);
            let at = |range: TextRange, kind: DocumentHighlightKind|
                DocumentHighlight {
                    range: range_at(s, range.start as int, range.end as int, encoding),
                    kind,
                };
            &&& highlights.contains(
                at(model.bindings@[id as int].def_range, DocumentHighlightKind::Write),
            )
            &&& 0 <= k < model.idents.len() && model.idents@[k].binding == Some(id)
                ==> highlights.contains(
                at(
                    model.idents@[k].range,
                    if model.idents@[k].access == Access::Read {
                        DocumentHighlightKind::Read
                    } else {
                        DocumentHighlightKind::Write
                    },
                ),
            )
            &&& 0 < k < highlights.len() ==> range_start(highlights[k - 1].range) <= range_start(
                highlights[k].range,
            )
            &&& highlights.len() == occurrences_of(model, id).len()
        }),
{
    let all = occurrences_of(model, id);
    let marks = Seq::new(
        all.len(),
        |i: int|
            DocumentHighlight {
                range: range_at(s, all[i].range.start as int, all[i].range.end as int, encoding),
                kind: access_kind(all[i].access),
            },
    );
    law_occurrences_are_all_that_stands_for_a_binding(model, id, k);
    law_sorted(marks, highlight_key());
    let highlights = highlights_of(s, model, id, encoding);
    assert(highlights == stable_sorted(marks, highlight_key()));
    assert(marks.contains(marks[0]));
    law_sorting_keeps_items(marks, highlight_key(), marks[0]);
    if 0 <= k < model.idents.len() && model.idents@[k].binding == Some(id) {
        let o = choose|o: int|
            0 < o < all.len() && (#[trigger] all[o]).range == model.idents@[k].range
                && all[o].access == model.idents@[k].access;
        assert(marks.contains(marks[o]));
        law_sorting_keeps_items(marks, highlight_key(), marks[o]);
    }
    if 0 < k < highlights.len() {
        assert(highlight_key()(highlights[k - 1]) <= highlight_key()(highlights[k]));
    }
}

} // verus!
