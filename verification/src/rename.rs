//! Renaming the name under the cursor.

use vstd::prelude::*;

use crate::chars::{char_is_alphabetic, char_is_alphanumeric};
use crate::cross_file::{CrossFileSite, SiteView};
use crate::edits::{TextEdit, TextEditView};
use crate::rename_files::{
    law_tidy_ascends, law_tidy_from, law_tidy_keeps, sort_edits, start_key, tidy,
};
use crate::search::{first_index, lemma_first_index, lemma_first_index_is};
use crate::semantic::{binding_under, name_under, occurrences_of, SemanticModel};
use crate::sorting::strictly_ascending;
use crate::strings::{cat, chars_of, same_text};
use crate::text::{
    fits, lemma_offset_bounded, offset_at, position_at, range_at, LineIndex, Position,
    PositionEncoding, Range,
};

verus! {

/// Whether a character can stand in a new name behind the first.
pub open spec fn is_name_char(c: char) -> bool {
    c == '_' || char_is_alphanumeric(c)
}

/// Whether a text can be a new name: a letter or an underscore, then letters,
/// digits and underscores, with exclamation marks at the end alone.
pub open spec fn valid_name(name: Seq<char>) -> bool {
    &&& name.len() > 0
    &&& name[0] == '_' || char_is_alphabetic(name[0])
    &&& exists|end: int| marks_from(name, end)
}

/// Whether exclamation marks stand in a name from `end` on and nowhere else, with
/// name characters behind the first before it.
pub open spec fn marks_from(name: Seq<char>, end: int) -> bool {
    &&& 1 <= end <= name.len()
    &&& forall|i: int| 1 <= i < end ==> is_name_char(#[trigger] name[i])
    &&& forall|i: int| end <= i < name.len() ==> #[trigger] name[i] == '!'
}

/// What is said of a text that cannot be a new name.
pub open spec fn invalid_name(name: Seq<char>) -> Seq<char> {
    "`"@ + name + "` is not a valid identifier"@
}

fn is_valid_name(name: &str) -> (r: bool)
    ensures
        r == valid_name(name@),
{
    let chars = chars_of(name);
    if chars.len() == 0 || !(chars[0] == '_' || chars[0].is_alphabetic()) {
        return false;
    }
    let mut end: usize = chars.len();
    while end > 1 && chars[end - 1] == '!'
        invariant
            chars@ == name@,
            1 <= end <= chars.len(),
            forall|k: int| end <= k < name@.len() ==> #[trigger] name@[k] == '!',
        decreases end,
    {
        end = end - 1;
    }
    let mut i: usize = 1;
    while i < end
        invariant
            chars@ == name@,
            1 <= i <= end <= chars.len(),
            end > 1 ==> name@[end - 1] != '!',
            forall|k: int| 1 <= k < i ==> is_name_char(#[trigger] name@[k]),
        decreases end - i,
    {
        let c = chars[i];
        if !(c == '_' || c.is_alphanumeric()) {
            proof {
                assert(!is_name_char(name@[i as int]));
                assert forall|e: int| !marks_from(name@, e) by {
                    if marks_from(name@, e) {
                        if i < e {
                            assert(is_name_char(name@[i as int]));
                        } else {
                            assert(name@[end - 1] == '!');
                        }
                    }
                }
            }
            return false;
        }
        i = i + 1;
    }
    proof {
        assert(marks_from(name@, end as int));
    }
    true
}

/// Accepts `name` only if it can be a new name.
pub fn validate_new_name(name: &str) -> (r: Result<(), String>)
    ensures
        r is Ok <==> valid_name(name@),
        r is Err ==> r->Err_0@ == invalid_name(name@),
{
    if is_valid_name(name) {
        Ok(())
    } else {
        let head = cat("`", name);
        Err(cat(head.as_str(), "` is not a valid identifier"))
    }
}

/// The edits of one document.
#[derive(Debug)]
pub struct DocumentEdits {
    pub uri: String,
    pub edits: Vec<TextEdit>,
}

/// What [`DocumentEdits`] say.
pub struct DocumentEditsView {
    pub uri: Seq<char>,
    pub edits: Seq<TextEditView>,
}

impl DeepView for DocumentEdits {
    type V = DocumentEditsView;

    open spec fn deep_view(&self) -> DocumentEditsView {
        DocumentEditsView { uri: self.uri@, edits: self.edits.deep_view() }
    }
}

/// One edit for each occurrence of a binding, the definition first.
pub open spec fn occurrence_edits(
    s: Seq<char>,
    model: SemanticModel,
    id: usize,
    new_name: Seq<char>,
    encoding: PositionEncoding,
) -> Seq<TextEditView> {
    let all = occurrences_of(model, id);
    Seq::new(
        all.len(),
        |i: int|
            TextEditView {
                range: range_at(s, all[i].range.start as int, all[i].range.end as int, encoding),
                new_text: new_name,
            },
    )
}

/// The edits that rename a binding: one for each place it is named, in the order
/// of the document.
pub open spec fn rename_edits(
    s: Seq<char>,
    model: SemanticModel,
    id: usize,
    new_name: Seq<char>,
    encoding: PositionEncoding,
) -> Seq<TextEditView> {
    tidy(occurrence_edits(s, model, id, new_name, encoding))
}

/// Renaming a binding reaches each of its occurrences: an edit begins where the
/// occurrence does, and writes the new name.
pub proof fn law_rename_reaches_every_occurrence(
    s: Seq<char>,
    model: SemanticModel,
    id: usize,
    new_name: Seq<char>,
    encoding: PositionEncoding,
    k: int,
) -> (j: int)
    requires
        0 <= k < occurrences_of(model, id).len(),
    ensures
        ({
            let edits = rename_edits(s, model, id, new_name, encoding);
            let at = occurrences_of(model, id)[k].range;
            &&& 0 <= j < edits.len()
            &&& edits[j].range.start == position_at(s, at.start as int, encoding)
            &&& edits[j].new_text == new_name
        }),
{
    let edits = occurrence_edits(s, model, id, new_name, encoding);
    let j = law_tidy_keeps(edits, k);
    let i = law_tidy_from(edits, j);
    j
}

/// Renaming a binding touches nothing but its occurrences, and no place twice:
/// each edit replaces one occurrence whole, and the edits begin at ascending
/// places.
pub proof fn law_rename_touches_only_occurrences(
    s: Seq<char>,
    model: SemanticModel,
    id: usize,
    new_name: Seq<char>,
    encoding: PositionEncoding,
    j: int,
) -> (k: int)
    requires
        0 <= j < rename_edits(s, model, id, new_name, encoding).len(),
    ensures
        ({
            let edits = rename_edits(s, model, id, new_name, encoding);
            let at = occurrences_of(model, id)[k].range;
            &&& 0 <= k < occurrences_of(model, id).len()
            &&& edits[j].range == range_at(s, at.start as int, at.end as int, encoding)
            &&& edits[j].new_text == new_name
            &&& strictly_ascending(edits, start_key())
        }),
{
    let edits = occurrence_edits(s, model, id, new_name, encoding);
    law_tidy_ascends(edits);
    law_tidy_from(edits, j)
}

/// The range to offer for renaming at `offset`: the name there, where the file
/// binds it or the workspace does.
pub fn prepare_for(
    model: &SemanticModel,
    line_index: &LineIndex,
    offset: u32,
    workspace_symbol: bool,
    encoding: PositionEncoding,
) -> (r: Option<Range>)
    requires
        model.wf(),
        line_index.wf(),
    ensures
        r == (if workspace_symbol || binding_under(*model, offset) is Some {
            match name_under(*model, offset) {
                Some(range) => Some(
                    range_at(line_index@, range.start as int, range.end as int, encoding),
                ),
                None => None,
            }
        } else {
            None
        }),
{
    if !workspace_symbol && model.binding_at_cursor(offset).is_none() {
        return None;
    }
    match model.identifier_range_at(offset) {
        Some(range) => Some(
            line_index.range(range.start as usize, range.end as usize, encoding),
        ),
        None => None,
    }
}

/// The range to offer for renaming at `position` of `text`.
pub fn compute_prepare_rename(
    text: &str,
    position: Position,
    model: &SemanticModel,
    workspace_symbol: bool,
    encoding: PositionEncoding,
) -> (r: Option<Range>)
    requires
        model.wf(),
        fits(text@),
    ensures
        ({
            let offset = offset_at(text@, position, encoding) as u32;
            r == (if workspace_symbol || binding_under(*model, offset) is Some {
                match name_under(*model, offset) {
                    Some(range) => Some(
                        range_at(text@, range.start as int, range.end as int, encoding),
                    ),
                    None => None,
                }
            } else {
                None
            })
        }),
{
    let line_index = LineIndex::new(text);
    proof {
        lemma_offset_bounded(text@, position, encoding);
    }
    let offset = line_index.position_to_byte(position, encoding) as u32;
    prepare_for(model, &line_index, offset, workspace_symbol, encoding)
}

/// The edits that rename the name at `offset`, or `None` where the file does not
/// bind it.
pub fn rename_for(
    model: &SemanticModel,
    uri: &str,
    line_index: &LineIndex,
    offset: u32,
    new_name: &str,
    encoding: PositionEncoding,
) -> (r: Option<DocumentEdits>)
    requires
        model.wf(),
        line_index.wf(),
    ensures
        r.deep_view() == match binding_under(*model, offset) {
            Some(id) => Some(
                DocumentEditsView {
                    uri: uri@,
                    edits: rename_edits(line_index@, *model, id, new_name@, encoding),
                },
            ),
            None => None,
        },
{
    let id = match model.binding_at_cursor(offset) {
        Some(id) => id,
        None => {
            return None;
        },
    };
    let all = model.occurrences(id);
    let mut edits: Vec<TextEdit> = Vec::new();
    let mut i: usize = 0;
    while i < all.len()
        invariant
            line_index.wf(),
            i <= all.len(),
            edits.len() == i,
            forall|k: int|
                0 <= k < i ==> #[trigger] edits@[k].deep_view() == (TextEditView {
                    range: range_at(
                        line_index@,
                        all@[k].range.start as int,
                        all@[k].range.end as int,
                        encoding,
                    ),
                    new_text: new_name@,
                }),
        decreases all.len() - i,
    {
        let o = all[i];
        edits.push(
            TextEdit {
                range: line_index.range(o.range.start as usize, o.range.end as usize, encoding),
                new_text: new_name.to_owned(),
            },
        );
        i = i + 1;
    }
    proof {
        assert(edits.deep_view() =~= occurrence_edits(
            line_index@,
            *model,
            id,
            new_name@,
            encoding,
        ));
    }
    Some(DocumentEdits { uri: uri.to_owned(), edits: sort_edits(edits) })
}

/// That changes are those of one document.
pub open spec fn is_document(uri: Seq<char>) -> spec_fn(DocumentEditsView) -> bool {
    |changes: DocumentEditsView| changes.uri == uri
}

/// Changes with one more edit of a document.
pub open spec fn with_edit(
    changes: Seq<DocumentEditsView>,
    uri: Seq<char>,
    edit: TextEditView,
) -> Seq<DocumentEditsView> {
    let at = first_index(changes, is_document(uri));
    if at < changes.len() {
        changes.update(at, DocumentEditsView { uri, edits: changes[at].edits.push(edit) })
    } else {
        changes.push(DocumentEditsView { uri, edits: seq![edit] })
    }
}

/// The edits that rename sites, document by document.
pub open spec fn site_edits(sites: Seq<SiteView>, new_name: Seq<char>) -> Seq<DocumentEditsView>
    decreases sites.len(),
{
    if sites.len() == 0 {
        Seq::empty()
    } else {
        with_edit(
            site_edits(sites.drop_last(), new_name),
            sites.last().uri,
            TextEditView { range: sites.last().range, new_text: new_name },
        )
    }
}

/// The edits that rename a name across documents, those of each in order.
pub open spec fn cross_file_edits(sites: Seq<SiteView>, new_name: Seq<char>) -> Seq<
    DocumentEditsView,
> {
    let all = site_edits(sites, new_name);
    Seq::new(
        all.len(),
        |i: int| DocumentEditsView { uri: all[i].uri, edits: tidy(all[i].edits) },
    )
}

/// The edit of site `k` is filed under its document.
proof fn lemma_site_filed(sites: Seq<SiteView>, new_name: Seq<char>, k: int) -> (at: (int, int))
    requires
        0 <= k < sites.len(),
    ensures
        ({
            let all = site_edits(sites, new_name);
            &&& 0 <= at.0 < all.len()
            &&& all[at.0].uri == sites[k].uri
            &&& 0 <= at.1 < all[at.0].edits.len()
            &&& all[at.0].edits[at.1] == (TextEditView { range: sites[k].range, new_text: new_name })
        }),
    decreases sites.len(),
{
    let before = site_edits(sites.drop_last(), new_name);
    let uri = sites.last().uri;
    let d = first_index(before, is_document(uri));
    lemma_first_index(before, is_document(uri));
    if k == sites.len() - 1 {
        if d < before.len() {
            (d, before[d].edits.len() as int)
        } else {
            (before.len() as int, 0)
        }
    } else {
        lemma_site_filed(sites.drop_last(), new_name, k)
    }
}

/// Each filed edit is that of a site in its document.
proof fn lemma_filed_site(sites: Seq<SiteView>, new_name: Seq<char>, d: int, j: int) -> (k: int)
    requires
        0 <= d < site_edits(sites, new_name).len(),
        0 <= j < site_edits(sites, new_name)[d].edits.len(),
    ensures
        ({
            let all = site_edits(sites, new_name);
            &&& 0 <= k < sites.len()
            &&& all[d].uri == sites[k].uri
            &&& all[d].edits[j] == (TextEditView { range: sites[k].range, new_text: new_name })
        }),
    decreases sites.len(),
{
    let before = site_edits(sites.drop_last(), new_name);
    let uri = sites.last().uri;
    let at = first_index(before, is_document(uri));
    lemma_first_index(before, is_document(uri));
    if d < before.len() && j < before[d].edits.len() {
        lemma_filed_site(sites.drop_last(), new_name, d, j)
    } else {
        sites.len() - 1
    }
}

/// No two groups of filed edits are of one document.
proof fn lemma_documents_differ(sites: Seq<SiteView>, new_name: Seq<char>, a: int, b: int)
    requires
        0 <= a < b < site_edits(sites, new_name).len(),
    ensures
        site_edits(sites, new_name)[a].uri != site_edits(sites, new_name)[b].uri,
    decreases sites.len(),
{
    let before = site_edits(sites.drop_last(), new_name);
    let uri = sites.last().uri;
    lemma_first_index(before, is_document(uri));
    if b < before.len() {
        lemma_documents_differ(sites.drop_last(), new_name, a, b);
    } else {
        assert(!is_document(uri)(before[a]));
    }
}

/// Renaming across documents reaches every site: among the edits of its document
/// one begins where the site does, and writes the new name.
pub proof fn law_rename_reaches_every_site(
    sites: Seq<SiteView>,
    new_name: Seq<char>,
    k: int,
) -> (at: (int, int))
    requires
        0 <= k < sites.len(),
    ensures
        ({
            let all = cross_file_edits(sites, new_name);
            &&& 0 <= at.0 < all.len()
            &&& all[at.0].uri == sites[k].uri
            &&& 0 <= at.1 < all[at.0].edits.len()
            &&& all[at.0].edits[at.1].range.start == sites[k].range.start
            &&& all[at.0].edits[at.1].new_text == new_name
        }),
{
    let (d, i) = lemma_site_filed(sites, new_name, k);
    let edits = site_edits(sites, new_name)[d].edits;
    let j = law_tidy_keeps(edits, i);
    let from = law_tidy_from(edits, j);
    let site = lemma_filed_site(sites, new_name, d, from);
    (d, j)
}

/// Renaming across documents touches nothing but the sites, and no place twice:
/// each edit replaces a site of its document whole, and the edits of a document
/// begin at ascending places.
pub proof fn law_rename_touches_only_sites(
    sites: Seq<SiteView>,
    new_name: Seq<char>,
    d: int,
    j: int,
) -> (k: int)
    requires
        0 <= d < cross_file_edits(sites, new_name).len(),
        0 <= j < cross_file_edits(sites, new_name)[d].edits.len(),
    ensures
        ({
            let all = cross_file_edits(sites, new_name);
            &&& 0 <= k < sites.len()
            &&& all[d].uri == sites[k].uri
            &&& all[d].edits[j] == (TextEditView { range: sites[k].range, new_text: new_name })
            &&& strictly_ascending(all[d].edits, start_key())
        }),
{
    law_tidy_ascends(site_edits(sites, new_name)[d].edits);
    let from = law_tidy_from(site_edits(sites, new_name)[d].edits, j);
    lemma_filed_site(sites, new_name, d, from)
}

/// Renaming across documents names each document once.
pub proof fn law_rename_names_documents_once(
    sites: Seq<SiteView>,
    new_name: Seq<char>,
    a: int,
    b: int,
)
    requires
        0 <= a < b < cross_file_edits(sites, new_name).len(),
    ensures
        cross_file_edits(sites, new_name)[a].uri != cross_file_edits(sites, new_name)[b].uri,
{
    lemma_documents_differ(sites, new_name, a, b);
}

fn push_edit(changes: &mut Vec<DocumentEdits>, uri: &str, edit: TextEdit)
    ensures
        final(changes).deep_view() == with_edit(
            old(changes).deep_view(),
            uri@,
            edit.deep_view(),
        ),
{
    let ghost before = changes.deep_view();
    let ghost here = is_document(uri@);
    let ghost added = edit.deep_view();
    let mut at: usize = 0;
    while at < changes.len() && !same_text(changes[at].uri.as_str(), uri)
        invariant
            at <= changes.len(),
            changes.deep_view() == before,
            here == is_document(uri@),
            forall|k: int| 0 <= k < at ==> !here(#[trigger] before[k]),
        decreases changes.len() - at,
    {
        at = at + 1;
    }
    proof {
        lemma_first_index_is(before, here, at as int);
    }
    if at < changes.len() {
        let ghost held = before[at as int].edits;
        changes[at].edits.push(edit);
        proof {
            assert(changes@[at as int].edits.deep_view() =~= held.push(added));
            assert(changes.deep_view() =~= before.update(
                at as int,
                DocumentEditsView { uri: uri@, edits: held.push(added) },
            ));
        }
    } else {
        changes.push(DocumentEdits { uri: uri.to_owned(), edits: vec![edit] });
        proof {
            let last = changes@.last();
            assert(last.edits.deep_view() =~= seq![added]);
            assert(changes.deep_view() =~= before.push(
                DocumentEditsView { uri: uri@, edits: seq![added] },
            ));
        }
    }
}

/// The edits that rename a name across documents.
pub fn cross_file_rename(sites: &Vec<CrossFileSite>, new_name: &str) -> (r: Vec<DocumentEdits>)
    ensures
        r.deep_view() == cross_file_edits(sites.deep_view(), new_name@),
{
    let ghost all = sites.deep_view();
    let mut changes: Vec<DocumentEdits> = Vec::new();
    let mut i: usize = 0;
    proof {
        assert(all.take(0) =~= Seq::<SiteView>::empty());
        assert(changes.deep_view() =~= Seq::<DocumentEditsView>::empty());
    }
    while i < sites.len()
        invariant
            i <= sites.len(),
            all == sites.deep_view(),
            changes.deep_view() == site_edits(all.take(i as int), new_name@),
        decreases sites.len() - i,
    {
        proof {
            assert(all.take(i + 1).drop_last() =~= all.take(i as int));
        }
        let site = &sites[i];
        push_edit(
            &mut changes,
            site.uri.as_str(),
            TextEdit { range: site.range, new_text: new_name.to_owned() },
        );
        i = i + 1;
    }
    proof {
        assert(all.take(i as int) =~= all);
    }
    let ghost untidy = changes.deep_view();
    let ghost goal = cross_file_edits(all, new_name@);
    let n = changes.len();
    let mut out: Vec<DocumentEdits> = Vec::new();
    let mut j: usize = 0;
    while j < n
        invariant
            j <= n == untidy.len(),
            changes.len() == n - j,
            changes.deep_view() == untidy.skip(j as int),
            untidy == site_edits(all, new_name@),
            goal == cross_file_edits(all, new_name@),
            out.len() == j,
            forall|k: int| 0 <= k < j ==> #[trigger] out@[k].deep_view() == goal[k],
        decreases n - j,
    {
        let ghost rest = changes.deep_view();
        let document = changes.remove(0);
        proof {
            assert(rest[0] == untidy[j as int]);
            assert(changes.deep_view() =~= rest.drop_first());
            assert(rest.drop_first() =~= untidy.skip(j + 1));
        }
        out.push(DocumentEdits { uri: document.uri, edits: sort_edits(document.edits) });
        j = j + 1;
    }
    proof {
        assert(out.deep_view() =~= goal);
    }
    out
}

/// The edits that rename a name: those across documents where the workspace
/// defines it and any of its sites is known, those of the file otherwise.
pub open spec fn renaming(
    s: Seq<char>,
    model: SemanticModel,
    uri: Seq<char>,
    offset: u32,
    sites: Seq<SiteView>,
    new_name: Seq<char>,
    encoding: PositionEncoding,
) -> Option<Seq<DocumentEditsView>> {
    let across = cross_file_edits(sites, new_name);
    if across.len() > 0 {
        Some(across)
    } else {
        match binding_under(model, offset) {
            Some(id) => Some(
                seq![
                    DocumentEditsView {
                        uri,
                        edits: rename_edits(s, model, id, new_name, encoding),
                    },
                ],
            ),
            None => None,
        }
    }
}

/// The edits that rename the name at `position` of `text` to `new_name`. `sites`
/// are those of the name across the workspace, where the workspace defines it. An
/// invalid new name is an error; `Ok(None)` is a cursor on nothing to rename.
pub fn compute_rename(
    uri: &str,
    text: &str,
    position: Position,
    new_name: &str,
    model: &SemanticModel,
    sites: &Vec<CrossFileSite>,
    encoding: PositionEncoding,
) -> (r: Result<Option<Vec<DocumentEdits>>, String>)
    requires
        model.wf(),
        fits(text@),
    ensures
        r is Ok <==> valid_name(new_name@),
        r is Err ==> r->Err_0@ == invalid_name(new_name@),
        r is Ok ==> r->Ok_0.deep_view() == renaming(
            text@,
            *model,
            uri@,
            offset_at(text@, position, encoding) as u32,
            sites.deep_view(),
            new_name@,
            encoding,
        ),
{
    match validate_new_name(new_name) {
        Ok(()) => {},
        Err(message) => {
            return Err(message);
        },
    }
    let across = cross_file_rename(sites, new_name);
    if across.len() > 0 {
        return Ok(Some(across));
    }
    let line_index = LineIndex::new(text);
    proof {
        lemma_offset_bounded(text@, position, encoding);
    }
    let offset = line_index.position_to_byte(position, encoding) as u32;
    match rename_for(model, uri, &line_index, offset, new_name, encoding) {
        Some(edits) => {
            let ghost view = edits.deep_view();
            let all = vec![edits];
            proof {
                assert(all.deep_view() =~= seq![view]);
            }
            Ok(Some(all))
        },
        None => Ok(None),
    }
}

/// A letter or an underscore, then any letters, digits and underscores, then any
/// exclamation marks make a name; nothing is none, and neither is what begins otherwise
/// or has another character behind the first.
pub proof fn law_names_are_letters_digits_and_marks(
    first: char,
    middle: Seq<char>,
    marks: Seq<char>,
    name: Seq<char>,
    i: int,
)
    requires
        forall|k: int|
            0 <= k < middle.len() ==> (#[trigger] middle[k]) == '_' || char_is_alphanumeric(
                middle[k],
            ),
        forall|k: int| 0 <= k < marks.len() ==> (#[trigger] marks[k]) == '!',
    ensures
        first == '_' || char_is_alphabetic(first) ==> valid_name(seq![first] + middle + marks),
        first != '_' && !char_is_alphabetic(first) ==> !valid_name(seq![first] + name),
        !valid_name(Seq::empty()),
        0 < i < name.len() && name[i] != '_' && name[i] != '!' && !char_is_alphanumeric(name[i])
            ==> !valid_name(name),
        0 < i < name.len() - 1 && name[i] == '!' && name[i + 1] != '!' && !char_is_alphanumeric('!')
            ==> !valid_name(name),
{
    let whole = seq![first] + middle + marks;
    let end = 1 + middle.len();
    assert forall|k: int| 1 <= k < end implies is_name_char(#[trigger] whole[k]) by {
        assert(whole[k] == middle[k - 1]);
    }
    assert forall|k: int| end <= k < whole.len() implies #[trigger] whole[k] == '!' by {
        assert(whole[k] == marks[k - end]);
    }
    assert(marks_from(whole, end as int));
    assert((seq![first] + name)[0] == first);
    if 0 < i < name.len() && valid_name(name) {
        let stop = choose|stop: int| marks_from(name, stop);
        assert(i < stop ==> is_name_char(name[i]));
        assert(i >= stop ==> name[i] == '!');
        if i + 1 < name.len() {
            assert(i + 1 >= stop ==> name[i + 1] == '!');
        }
    }
}

/// A name of the workspace is renamed at all its sites, whatever the file alone binds; a
/// name that only the file binds is renamed there, and what neither binds is not.
pub proof fn law_workspace_names_are_renamed_everywhere(
    s: Seq<char>,
    model: SemanticModel,
    uri: Seq<char>,
    offset: u32,
    sites: Seq<SiteView>,
    new_name: Seq<char>,
    encoding: PositionEncoding,
)
    ensures
        ({
            let edits = renaming(s, model, uri, offset, sites, new_name, encoding);
            &&& sites.len() > 0 ==> edits == Some(cross_file_edits(sites, new_name))
            &&& sites.len() == 0 && binding_under(model, offset) is None ==> edits is None
            &&& sites.len() == 0 && binding_under(model, offset) is Some ==> edits is Some
                && edits->0.len() == 1 && edits->0[0].uri == uri && edits->0[0].edits
                == rename_edits(
                s,
                model,
                binding_under(model, offset)->0,
                new_name,
                encoding,
            )
        }),
{
    if sites.len() > 0 {
        let at = law_rename_reaches_every_site(sites, new_name, 0);
    }
}

} // verus!
