//! The calls of the hierarchy: who calls a function, and what it calls, one entry
//! for each caller or callee with all its call sites.

use vstd::prelude::*;

use crate::call_hierarchy::{
    around, binding_item, compute_prepare_call_hierarchy, prepared, callable_at, callable_def, callable_found, callable_item, callable_of,
    calls, container_at, container_item, container_of, enclosing_container, is_call_site, is_called,
    is_definition_signature, item_for, item_of_binding, item_of_container, nodes_around, places, signs, to_range,
    CallHierarchyItem, Callable, Container, ContainerView, ItemKind, ItemView,
};
use crate::cross_file::OccurrenceRec;
use crate::definition::{
    library_def_site, library_sites, text_start, using_def_site, using_sites, DefSite, DefSiteView,
};
use crate::index::{package_of, Library};
use crate::order::{law_text_ranks, path_rank, rank_path, rank_text, text_less, text_rank};
use crate::paths::FilePath;
use crate::references::{range_start, start_number};
use crate::search::{
    first_found, first_index, kept, law_first_found_is_first, lemma_first_found_from, lemma_first_found_stays,
    lemma_first_found_step, lemma_first_index, lemma_first_index_is, lemma_kept_from,
    lemma_kept_holds, lemma_kept_step,
};
use crate::selection::start_token;
use crate::semantic::{
    at_name, binding_under, bound_to, ident_spans, law_occurrences_are_all_that_stands_for_a_binding,
    occurrences_of, BindingKind, Occurrence, Resolution, SemanticModel,
};
use crate::sorting::{
    law_sorted, law_sorting_is_stable, law_sorting_keeps_items, sort_stable, stable_sorted,
};
use crate::strings::{same_text, same_texts};
use crate::symbols::{
    child_node_from, first_child, first_child_node, head_name, head_name_of, node_text,
    NamedRange, NamedRangeView,
};
use crate::text::{
    fits, lemma_offset_bounded, offset_at, range_at, LineIndex, Position, PositionEncoding, Range,
    TextRange,
};
use crate::tree::{
    ancestors, is_tree, lemma_ends_bounded, well_placed, Element, SyntaxKind, SyntaxTree,
};

verus! {

/// The calls of one caller or callee: what tells it apart within its document, its
/// item and the places of the calls.
#[derive(Debug)]
pub struct CallGroup {
    pub key: u64,
    pub item: CallHierarchyItem,
    pub from_ranges: Vec<Range>,
}

/// What a [`CallGroup`] says.
pub struct GroupView {
    pub key: u64,
    pub item: ItemView,
    pub from_ranges: Seq<Range>,
}

impl DeepView for CallGroup {
    type V = GroupView;

    open spec fn deep_view(&self) -> GroupView {
        GroupView { key: self.key, item: self.item.deep_view(), from_ranges: self.from_ranges@ }
    }
}

/// One call, with the caller or callee that it counts for.
pub struct CallView {
    pub key: u64,
    pub item: ItemView,
    pub range: Range,
}

/// That a group is that of a caller or callee.
pub open spec fn is_group(uri: Seq<char>, key: u64) -> spec_fn(GroupView) -> bool {
    |group: GroupView| group.item.uri == uri && group.key == key
}

/// Groups with one more call.
pub open spec fn with_call(groups: Seq<GroupView>, call: CallView) -> Seq<GroupView> {
    let at = first_index(groups, is_group(call.item.uri, call.key));
    if at < groups.len() {
        groups.update(
            at,
            GroupView {
                key: groups[at].key,
                item: groups[at].item,
                from_ranges: groups[at].from_ranges.push(call.range),
            },
        )
    } else {
        groups.push(GroupView { key: call.key, item: call.item, from_ranges: seq![call.range] })
    }
}

/// Calls by what they count for, in the order in which each was first met.
pub open spec fn grouped(calls: Seq<CallView>) -> Seq<GroupView>
    decreases calls.len(),
{
    if calls.len() == 0 {
        Seq::empty()
    } else {
        with_call(grouped(calls.drop_last()), calls.last())
    }
}

/// No caller or callee has two groups.
pub proof fn law_groups_differ(calls: Seq<CallView>, i: int, j: int)
    requires
        0 <= i < j < grouped(calls).len(),
    ensures
        grouped(calls)[i].item.uri != grouped(calls)[j].item.uri || grouped(calls)[i].key
            != grouped(calls)[j].key,
    decreases calls.len(),
{
    let before = grouped(calls.drop_last());
    let call = calls.last();
    lemma_first_index(before, is_group(call.item.uri, call.key));
    if j < before.len() {
        law_groups_differ(calls.drop_last(), i, j);
    }
}

/// Every call is in the group of what it counts for.
pub proof fn law_every_call_is_grouped(calls: Seq<CallView>, i: int) -> (g: int)
    requires
        0 <= i < calls.len(),
    ensures
        0 <= g < grouped(calls).len(),
        grouped(calls)[g].item.uri == calls[i].item.uri,
        grouped(calls)[g].key == calls[i].key,
        grouped(calls)[g].from_ranges.contains(calls[i].range),
    decreases calls.len(),
{
    let before = grouped(calls.drop_last());
    let call = calls.last();
    let at = first_index(before, is_group(call.item.uri, call.key));
    lemma_first_index(before, is_group(call.item.uri, call.key));
    if i < calls.len() - 1 {
        let g = law_every_call_is_grouped(calls.drop_last(), i);
        let k = choose|k: int|
            0 <= k < before[g].from_ranges.len() && before[g].from_ranges[k] == calls[i].range;
        assert(grouped(calls)[g].from_ranges[k] == calls[i].range);
        g
    } else if at < before.len() {
        let ranges = grouped(calls)[at].from_ranges;
        assert(ranges[ranges.len() - 1] == call.range);
        at
    } else {
        let g = before.len() as int;
        assert(grouped(calls)[g].from_ranges[0] == call.range);
        g
    }
}

/// Every place in a group is that of a call that counts for the group's item.
pub proof fn law_groups_hold_calls(calls: Seq<CallView>, g: int, k: int) -> (i: int)
    requires
        0 <= g < grouped(calls).len(),
        0 <= k < grouped(calls)[g].from_ranges.len(),
    ensures
        0 <= i < calls.len(),
        calls[i].range == grouped(calls)[g].from_ranges[k],
        calls[i].key == grouped(calls)[g].key,
        calls[i].item.uri == grouped(calls)[g].item.uri,
    decreases calls.len(),
{
    let before = grouped(calls.drop_last());
    let call = calls.last();
    let at = first_index(before, is_group(call.item.uri, call.key));
    lemma_first_index(before, is_group(call.item.uri, call.key));
    if g < before.len() && k < before[g].from_ranges.len() {
        law_groups_hold_calls(calls.drop_last(), g, k)
    } else {
        calls.len() - 1
    }
}

fn add_call(groups: &mut Vec<CallGroup>, key: u64, item: CallHierarchyItem, range: Range)
    ensures
        final(groups).deep_view() == with_call(
            old(groups).deep_view(),
            CallView { key, item: item.deep_view(), range },
        ),
{
    let ghost before = groups.deep_view();
    let ghost here = is_group(item.uri@, key);
    let mut at: usize = 0;
    while at < groups.len() && !(groups[at].key == key && same_text(
        groups[at].item.uri.as_str(),
        item.uri.as_str(),
    ))
        invariant
            before == groups.deep_view(),
            at <= groups.len(),
            here == is_group(item.uri@, key),
            forall|k: int| 0 <= k < at ==> !here(#[trigger] before[k]),
        decreases groups.len() - at,
    {
        proof {
            assert(before[at as int] == groups@[at as int].deep_view());
        }
        at = at + 1;
    }
    proof {
        if at < groups.len() {
            assert(before[at as int] == groups@[at as int].deep_view());
        }
        lemma_first_index_is(before, here, at as int);
    }
    if at < groups.len() {
        let mut group = groups.remove(at);
        group.from_ranges.push(range);
        groups.insert(at, group);
        proof {
            assert(groups.deep_view() =~= with_call(
                before,
                CallView { key, item: item.deep_view(), range },
            ));
        }
    } else {
        groups.push(CallGroup { key, item, from_ranges: vec![range] });
        proof {
            assert(groups@.last().from_ranges@ =~= seq![range]);
            assert(groups.deep_view() =~= with_call(
                before,
                CallView { key, item: item.deep_view(), range },
            ));
        }
    }
}

/// What tells a group apart within its document.
pub open spec fn group_key() -> spec_fn(GroupView) -> int {
    |group: GroupView| group.key as int
}

fn sort_groups(groups: Vec<CallGroup>) -> (r: Vec<CallGroup>)
    ensures
        r.deep_view() == stable_sorted(groups.deep_view(), group_key()),
{
    let mut keys: Vec<u64> = Vec::new();
    let mut i: usize = 0;
    while i < groups.len()
        invariant
            i <= groups.len(),
            keys.len() == i,
            forall|k: int|
                0 <= k < i ==> #[trigger] keys@[k] == group_key()(groups.deep_view()[k]),
        decreases groups.len() - i,
    {
        keys.push(groups[i].key);
        i = i + 1;
    }
    sort_stable(groups, keys, Ghost(group_key()))
}

/// The documents of groups.
pub open spec fn group_uris(groups: Seq<GroupView>) -> Seq<Seq<char>> {
    Seq::new(groups.len(), |i: int| groups[i].item.uri)
}

/// How many of a number of documents come before that of a group.
pub open spec fn group_rank(uris: Seq<Seq<char>>) -> spec_fn(GroupView) -> int {
    |group: GroupView| text_rank(uris, group.item.uri) as int
}

/// Groups by document, then by what tells them apart within it.
pub open spec fn groups_in_order(groups: Seq<GroupView>) -> Seq<GroupView> {
    let placed = stable_sorted(groups, group_key());
    stable_sorted(placed, group_rank(group_uris(placed)))
}

fn order_groups(groups: Vec<CallGroup>) -> (r: Vec<CallGroup>)
    ensures
        r.deep_view() == groups_in_order(groups.deep_view()),
{
    let placed = sort_groups(groups);
    let ghost uris = group_uris(placed.deep_view());
    let mut listed: Vec<&str> = Vec::new();
    let mut j: usize = 0;
    while j < placed.len()
        invariant
            j <= placed.len(),
            listed.len() == j,
            forall|k: int| 0 <= k < j ==> (#[trigger] listed@[k])@ == placed@[k].item.uri@,
        decreases placed.len() - j,
    {
        listed.push(placed[j].item.uri.as_str());
        j = j + 1;
    }
    proof {
        assert(Seq::new(listed.len() as nat, |i: int| listed@[i]@) =~= uris);
    }
    let mut ranks: Vec<u64> = Vec::new();
    let mut k: usize = 0;
    while k < placed.len()
        invariant
            k <= placed.len(),
            uris == group_uris(placed.deep_view()),
            uris == Seq::new(listed.len() as nat, |i: int| listed@[i]@),
            ranks.len() == k,
            forall|m: int|
                0 <= m < k ==> #[trigger] ranks@[m] == group_rank(uris)(placed.deep_view()[m]),
        decreases placed.len() - k,
    {
        ranks.push(rank_text(&listed, placed[k].item.uri.as_str()));
        k = k + 1;
    }
    sort_stable(placed, ranks, Ghost(group_rank(uris)))
}

/// What tells a container apart within its file: where its name stands.
pub open spec fn container_key(container: ContainerView) -> u64 {
    let range = match container {
        ContainerView::Callable(callable) => callable.selection,
        ContainerView::Module(name, _) => name.range,
        ContainerView::File => TextRange { start: 0, end: 0 },
    };
    (range.start * 0x1_0000_0000 + range.end) as u64
}

fn key_of(container: &Container) -> (r: u64)
    ensures
        r == container_key(container.deep_view()),
{
    let range = match container {
        Container::Callable(callable) => callable.selection,
        Container::Module(name, _) => name.range,
        Container::File => TextRange { start: 0, end: 0 },
    };
    range.start as u64 * 0x1_0000_0000 + range.end as u64
}

/// A file of the workspace or of a package, with its tree.
#[derive(Debug)]
pub struct SourceFile {
    pub path: FilePath,
    pub uri: Option<String>,
    pub text: String,
    pub tree: SyntaxTree,
}

impl SourceFile {
    /// The text fits and the tree is one.
    pub open spec fn wf(&self) -> bool {
        &&& fits(self.text@)
        &&& self.tree.wf()
    }
}

/// Whether every file is valid.
pub open spec fn files_wf(files: Seq<SourceFile>) -> bool {
    forall|i: int| 0 <= i < files.len() ==> (#[trigger] files[i]).wf()
}

/// Whether every occurrence is in one of a number of files.
pub open spec fn recs_wf(recs: Seq<OccurrenceRec>, files: Seq<SourceFile>) -> bool {
    forall|i: int| 0 <= i < recs.len() ==> (#[trigger] recs[i]).file < files.len()
}

/// The call in a range, with its caller.
pub open spec fn call_from(
    s: Seq<char>,
    t: Seq<Element>,
    uri: Seq<char>,
    path: Seq<Seq<char>>,
    encoding: PositionEncoding,
) -> spec_fn(TextRange) -> CallView {
    |range: TextRange|
        {
            let container = container_at(s, t, range.start);
            CallView {
                key: container_key(container),
                item: item_of_container(container, uri, path, t, s, encoding),
                range: places(s, range, encoding),
            }
        }
}

/// The callers of the calls in one file, in the order of their names' places.
pub open spec fn incoming_in(
    s: Seq<char>,
    t: Seq<Element>,
    uri: Seq<char>,
    path: Seq<Seq<char>>,
    sites: Seq<TextRange>,
    encoding: PositionEncoding,
) -> Seq<GroupView> {
    stable_sorted(
        grouped(sites.map_values(call_from(s, t, uri, path, encoding))),
        group_key(),
    )
}

/// The callers of the calls in one file.
pub fn group_incoming(
    tree: &SyntaxTree,
    line_index: &LineIndex,
    uri: &str,
    path: &FilePath,
    sites: &Vec<TextRange>,
    encoding: PositionEncoding,
) -> (r: Vec<CallGroup>)
    requires
        tree.wf(),
        line_index.wf(),
    ensures
        r.deep_view() == incoming_in(
            line_index@,
            tree@,
            uri@,
            path.deep_view(),
            sites@,
            encoding,
        ),
{
    let ghost make = call_from(line_index@, tree@, uri@, path.deep_view(), encoding);
    let ghost all = sites@.map_values(make);
    let mut groups: Vec<CallGroup> = Vec::new();
    let mut i: usize = 0;
    proof {
        assert(all.take(0) =~= Seq::<CallView>::empty());
        assert(groups.deep_view() =~= Seq::<GroupView>::empty());
    }
    while i < sites.len()
        invariant
            tree.wf(),
            line_index.wf(),
            i <= sites.len(),
            make == call_from(line_index@, tree@, uri@, path.deep_view(), encoding),
            all == sites@.map_values(make),
            groups.deep_view() == grouped(all.take(i as int)),
        decreases sites.len() - i,
    {
        let site = sites[i];
        let container = enclosing_container(tree, site.start, line_index);
        let key = key_of(&container);
        let item = container_item(container, uri, path, tree, line_index, encoding);
        proof {
            assert(all.take(i + 1).drop_last() =~= all.take(i as int));
            assert(all[i as int] == make(site));
        }
        add_call(&mut groups, key, item, to_range(site, line_index, encoding));
        i = i + 1;
    }
    proof {
        assert(all.take(i as int) =~= all);
    }
    sort_groups(groups)
}

/// The place of an occurrence that is a call, in the file of its binding.
pub open spec fn called_occurrence(s: Seq<char>, t: Seq<Element>) -> spec_fn(
    Occurrence,
) -> Option<TextRange> {
    |occurrence: Occurrence|
        if !occurrence.is_def && is_called(s, t, occurrence.range) {
            Some(occurrence.range)
        } else {
            None
        }
}

/// The callers of a function within its file.
pub fn local_incoming(
    tree: &SyntaxTree,
    line_index: &LineIndex,
    model: &SemanticModel,
    id: usize,
    uri: &str,
    path: &FilePath,
    encoding: PositionEncoding,
) -> (r: Vec<CallGroup>)
    requires
        tree.wf(),
        line_index.wf(),
        id < model.bindings.len(),
    ensures
        r.deep_view() == incoming_in(
            line_index@,
            tree@,
            uri@,
            path.deep_view(),
            kept(occurrences_of(*model, id), called_occurrence(line_index@, tree@)),
            encoding,
        ),
{
    let occurrences = model.occurrences(id);
    let ghost pick = called_occurrence(line_index@, tree@);
    let mut sites: Vec<TextRange> = Vec::new();
    let mut i: usize = 0;
    proof {
        assert(occurrences@.take(0) =~= Seq::<Occurrence>::empty());
    }
    while i < occurrences.len()
        invariant
            tree.wf(),
            line_index.wf(),
            i <= occurrences.len(),
            pick == called_occurrence(line_index@, tree@),
            sites@ == kept(occurrences@.take(i as int), pick),
        decreases occurrences.len() - i,
    {
        proof {
            lemma_kept_step(occurrences@, pick, i as int);
        }
        let occurrence = occurrences[i];
        if !occurrence.is_def && is_call_site(tree, occurrence.range, line_index) {
            sites.push(occurrence.range);
        }
        i = i + 1;
    }
    proof {
        assert(occurrences@.take(i as int) =~= occurrences@);
    }
    group_incoming(tree, line_index, uri, path, &sites, encoding)
}

/// The paths of files.
pub open spec fn file_paths(files: Seq<SourceFile>) -> Seq<Seq<Seq<char>>> {
    Seq::new(files.len(), |i: int| files[i].path.deep_view())
}

/// How many paths come before that of a file.
pub open spec fn file_rank(files: Seq<SourceFile>) -> spec_fn(usize) -> int {
    |file: usize| path_rank(file_paths(files), files[file as int].path.deep_view()) as int
}

/// The numbers of files, by path.
pub open spec fn files_in_order(files: Seq<SourceFile>) -> Seq<usize> {
    stable_sorted(Seq::new(files.len(), |i: int| i as usize), file_rank(files))
}

fn list_paths(files: &Vec<SourceFile>) -> (r: Vec<&FilePath>)
    ensures
        Seq::new(r.len() as nat, |i: int| r@[i].deep_view()) == file_paths(files@),
{
    let mut listed: Vec<&FilePath> = Vec::new();
    let mut j: usize = 0;
    while j < files.len()
        invariant
            j <= files.len(),
            listed.len() == j,
            forall|k: int|
                0 <= k < j ==> (#[trigger] listed@[k]).deep_view() == files@[k].path.deep_view(),
        decreases files.len() - j,
    {
        listed.push(&files[j].path);
        j = j + 1;
    }
    proof {
        assert(Seq::new(listed.len() as nat, |i: int| listed@[i].deep_view()) =~= file_paths(
            files@,
        ));
    }
    listed
}

fn order_files(files: &Vec<SourceFile>) -> (r: Vec<usize>)
    ensures
        r@ == files_in_order(files@),
        forall|k: int| 0 <= k < r.len() ==> #[trigger] r@[k] < files.len(),
{
    let listed = list_paths(files);
    let mut numbers: Vec<usize> = Vec::new();
    let mut keys: Vec<u64> = Vec::new();
    let mut i: usize = 0;
    while i < files.len()
        invariant
            i <= files.len(),
            Seq::new(listed.len() as nat, |i: int| listed@[i].deep_view()) == file_paths(files@),
            numbers.len() == i,
            keys.len() == i,
            forall|k: int| 0 <= k < i ==> #[trigger] numbers@[k] == k,
            forall|k: int| 0 <= k < i ==> #[trigger] keys@[k] == file_rank(files@)(k as usize),
        decreases files.len() - i,
    {
        numbers.push(i);
        keys.push(rank_path(&listed, &files[i].path));
        i = i + 1;
    }
    proof {
        assert(numbers.deep_view() =~= Seq::new(files.len() as nat, |i: int| i as usize));
    }
    let sorted = sort_stable(numbers, keys, Ghost(file_rank(files@)));
    proof {
        let numbered = Seq::new(files.len() as nat, |i: int| i as usize);
        law_sorted(numbered, file_rank(files@));
        assert(sorted.deep_view() =~= sorted@);
        assert forall|k: int| 0 <= k < sorted.len() implies #[trigger] sorted@[k]
            < files.len() by {
            vstd::seq_lib::to_multiset_contains(sorted@, sorted@[k]);
            vstd::seq_lib::to_multiset_contains(numbered, sorted@[k]);
        }
    }
    sorted
}

/// The place of an occurrence that is a call, where it is in a file.
pub open spec fn called_rec(files: Seq<SourceFile>, file: usize) -> spec_fn(
    OccurrenceRec,
) -> Option<TextRange> {
    |rec: OccurrenceRec|
        if rec.file == file && !rec.is_def && is_called(
            files[file as int].text@,
            files[file as int].tree@,
            rec.range,
        ) {
            Some(rec.range)
        } else {
            None
        }
}

/// The callers in one file of a name with occurrences.
pub open spec fn incoming_from(
    recs: Seq<OccurrenceRec>,
    files: Seq<SourceFile>,
    file: usize,
    encoding: PositionEncoding,
) -> Seq<GroupView> {
    let f = files[file as int];
    match f.uri {
        Some(uri) => incoming_in(
            f.text@,
            f.tree@,
            uri@,
            f.path.deep_view(),
            stable_sorted(kept(recs, called_rec(files, file)), text_start()),
            encoding,
        ),
        None => Seq::empty(),
    }
}

/// The callers of a name in a number of files, file by file.
pub open spec fn incoming_across(
    recs: Seq<OccurrenceRec>,
    files: Seq<SourceFile>,
    order: Seq<usize>,
    encoding: PositionEncoding,
) -> Seq<GroupView>
    decreases order.len(),
{
    if order.len() == 0 {
        Seq::empty()
    } else {
        incoming_across(recs, files, order.drop_last(), encoding) + incoming_from(
            recs,
            files,
            order.last(),
            encoding,
        )
    }
}

fn called_in(
    recs: &Vec<OccurrenceRec>,
    files: &Vec<SourceFile>,
    file: usize,
    line_index: &LineIndex,
) -> (r: Vec<TextRange>)
    requires
        file < files.len(),
        files@[file as int].wf(),
        line_index.wf(),
        line_index@ == files@[file as int].text@,
    ensures
        r@ == stable_sorted(kept(recs@, called_rec(files@, file)), text_start()),
{
    let ghost pick = called_rec(files@, file);
    let mut sites: Vec<TextRange> = Vec::new();
    let mut keys: Vec<u64> = Vec::new();
    let mut i: usize = 0;
    proof {
        assert(recs@.take(0) =~= Seq::<OccurrenceRec>::empty());
    }
    while i < recs.len()
        invariant
            file < files.len(),
            files@[file as int].wf(),
            line_index.wf(),
            line_index@ == files@[file as int].text@,
            i <= recs.len(),
            pick == called_rec(files@, file),
            sites@ == kept(recs@.take(i as int), pick),
            keys.len() == sites.len(),
            forall|k: int| 0 <= k < keys.len() ==> #[trigger] keys@[k] == sites@[k].start,
        decreases recs.len() - i,
    {
        proof {
            lemma_kept_step(recs@, pick, i as int);
        }
        let rec = recs[i];
        if rec.file == file && !rec.is_def && is_call_site(
            &files[file].tree,
            rec.range,
            line_index,
        ) {
            sites.push(rec.range);
            keys.push(rec.range.start as u64);
        }
        i = i + 1;
    }
    proof {
        assert(recs@.take(i as int) =~= recs@);
        assert(sites.deep_view() =~= sites@);
    }
    let sorted = sort_stable(sites, keys, Ghost(text_start()));
    proof {
        assert(sorted.deep_view() =~= sorted@);
    }
    sorted
}

/// The callers of a name of the workspace, given its occurrences, by file.
pub fn workspace_incoming(
    recs: &Vec<OccurrenceRec>,
    files: &Vec<SourceFile>,
    encoding: PositionEncoding,
) -> (r: Vec<CallGroup>)
    requires
        files_wf(files@),
    ensures
        r.deep_view() == incoming_across(recs@, files@, files_in_order(files@), encoding),
{
    let order = order_files(files);
    let mut out: Vec<CallGroup> = Vec::new();
    let mut i: usize = 0;
    proof {
        assert(order@.take(0) =~= Seq::<usize>::empty());
        assert(out.deep_view() =~= Seq::<GroupView>::empty());
    }
    while i < order.len()
        invariant
            files_wf(files@),
            i <= order.len(),
            forall|k: int| 0 <= k < order.len() ==> #[trigger] order@[k] < files.len(),
            out.deep_view() == incoming_across(recs@, files@, order@.take(i as int), encoding),
        decreases order.len() - i,
    {
        proof {
            assert(order@.take(i + 1).drop_last() =~= order@.take(i as int));
        }
        let file = &files[order[i]];
        let ghost before = out.deep_view();
        proof {
            assert(file.wf());
        }
        if let Some(uri) = &file.uri {
            let line_index = LineIndex::new(file.text.as_str());
            let sites = called_in(recs, files, order[i], &line_index);
            let mut found = group_incoming(
                &file.tree,
                &line_index,
                uri.as_str(),
                &file.path,
                &sites,
                encoding,
            );
            let ghost more = found.deep_view();
            out.append(&mut found);
            proof {
                assert(out.deep_view() =~= before + more);
            }
        } else {
            proof {
                assert(before + Seq::<GroupView>::empty() =~= before);
            }
        }
        i = i + 1;
    }
    proof {
        assert(order@.take(i as int) =~= order@);
    }
    out
}

/// Who calls an item: nobody calls a module or a file; a name of the workspace is
/// called across its files; a function of the file within it. None where the item
/// is no longer there.
pub open spec fn incoming(
    kind: ItemKind,
    position: Position,
    uri: Seq<char>,
    file: SourceFile,
    model: SemanticModel,
    recs: Option<Vec<OccurrenceRec>>,
    files: Seq<SourceFile>,
    encoding: PositionEncoding,
) -> Option<Seq<GroupView>> {
    let offset = offset_at(file.text@, position, encoding) as u32;
    if kind != ItemKind::Function {
        Some(Seq::empty())
    } else {
        match recs {
            Some(recs) => Some(
                incoming_across(recs@, files, files_in_order(files), encoding),
            ),
            None => match binding_under(model, offset) {
                Some(id) => if model.bindings@[id as int].kind == BindingKind::Function {
                    Some(
                        incoming_in(
                            file.text@,
                            file.tree@,
                            uri,
                            file.path.deep_view(),
                            kept(
                                occurrences_of(model, id),
                                called_occurrence(file.text@, file.tree@),
                            ),
                            encoding,
                        ),
                    )
                } else {
                    None
                },
                None => None,
            },
        }
    }
}

/// Who calls the item whose name stands at `position` of `file`. `recs` are the
/// occurrences of the name where it is one of the workspace.
pub fn incoming_calls(
    kind: ItemKind,
    position: Position,
    uri: &str,
    file: &SourceFile,
    model: &SemanticModel,
    recs: &Option<Vec<OccurrenceRec>>,
    files: &Vec<SourceFile>,
    encoding: PositionEncoding,
) -> (r: Option<Vec<CallGroup>>)
    requires
        file.wf(),
        model.wf(),
        files_wf(files@),
    ensures
        r.deep_view() == incoming(
            kind,
            position,
            uri@,
            *file,
            *model,
            *recs,
            files@,
            encoding,
        ),
{
    match kind {
        ItemKind::Function => {},
        _ => {
            let none: Vec<CallGroup> = Vec::new();
            proof {
                assert(none.deep_view() =~= Seq::<GroupView>::empty());
            }
            return Some(none);
        },
    }
    if let Some(recs) = recs {
        return Some(workspace_incoming(recs, files, encoding));
    }
    let line_index = LineIndex::new(file.text.as_str());
    proof {
        lemma_offset_bounded(file.text@, position, encoding);
    }
    let offset = line_index.position_to_byte(position, encoding) as u32;
    match model.binding_at_cursor(offset) {
        Some(id) => match model.bindings[id].kind {
            BindingKind::Function => Some(
                local_incoming(&file.tree, &line_index, model, id, uri, &file.path, encoding),
            ),
            _ => None,
        },
        None => None,
    }
}

/// That an occurrence defines its name.
pub open spec fn def_rec() -> spec_fn(OccurrenceRec) -> Option<OccurrenceRec> {
    |rec: OccurrenceRec|
        if rec.is_def {
            Some(rec)
        } else {
            None
        }
}

/// Where an occurrence starts in its file.
pub open spec fn rec_start() -> spec_fn(OccurrenceRec) -> int {
    |rec: OccurrenceRec| rec.range.start as int
}

/// How many paths come before that of the file of an occurrence.
pub open spec fn rec_rank(files: Seq<SourceFile>) -> spec_fn(OccurrenceRec) -> int {
    |rec: OccurrenceRec|
        path_rank(file_paths(files), files[rec.file as int].path.deep_view()) as int
}

/// The definitions among occurrences, by file, then by where they start.
pub open spec fn definitions_in_order(
    recs: Seq<OccurrenceRec>,
    files: Seq<SourceFile>,
) -> Seq<OccurrenceRec> {
    stable_sorted(stable_sorted(kept(recs, def_rec()), rec_start()), rec_rank(files))
}

/// The item of a definition of the workspace, where it is that of a function.
pub open spec fn rec_item(files: Seq<SourceFile>, encoding: PositionEncoding) -> spec_fn(
    OccurrenceRec,
) -> Option<ItemView> {
    |rec: OccurrenceRec|
        {
            let file = files[rec.file as int];
            match file.uri {
                Some(uri) => match callable_found(file.text@, file.tree@, rec.range.start) {
                    Some(found) => Some(callable_item(uri@, found.1, file.text@, encoding)),
                    None => None,
                },
                None => None,
            }
        }
}

/// The item of a name of the workspace: that of its first definition that is a
/// function.
pub open spec fn symbol_item(
    recs: Seq<OccurrenceRec>,
    files: Seq<SourceFile>,
    encoding: PositionEncoding,
) -> Option<ItemView> {
    first_found(definitions_in_order(recs, files), rec_item(files, encoding))
}

fn order_definitions(recs: &Vec<OccurrenceRec>, files: &Vec<SourceFile>) -> (r: Vec<OccurrenceRec>)
    requires
        recs_wf(recs@, files@),
    ensures
        r@ == definitions_in_order(recs@, files@),
        recs_wf(r@, files@),
{
    let ghost pick = def_rec();
    let mut defs: Vec<OccurrenceRec> = Vec::new();
    let mut starts: Vec<u64> = Vec::new();
    let mut i: usize = 0;
    proof {
        assert(recs@.take(0) =~= Seq::<OccurrenceRec>::empty());
    }
    while i < recs.len()
        invariant
            recs_wf(recs@, files@),
            recs_wf(defs@, files@),
            i <= recs.len(),
            pick == def_rec(),
            defs@ == kept(recs@.take(i as int), pick),
            starts.len() == defs.len(),
            forall|k: int| 0 <= k < starts.len() ==> #[trigger] starts@[k] == defs@[k].range.start,
        decreases recs.len() - i,
    {
        proof {
            lemma_kept_step(recs@, pick, i as int);
        }
        let rec = recs[i];
        if rec.is_def {
            defs.push(rec);
            starts.push(rec.range.start as u64);
        }
        i = i + 1;
    }
    proof {
        assert(recs@.take(i as int) =~= recs@);
        assert(defs.deep_view() =~= defs@);
    }
    let ghost first = defs@;
    let placed = sort_stable(defs, starts, Ghost(rec_start()));
    proof {
        assert(placed.deep_view() =~= placed@);
        law_sorted(first, rec_start());
        lemma_recs_wf(first, placed@, files@);
    }
    let listed = list_paths(files);
    let mut ranks: Vec<u64> = Vec::new();
    let mut k: usize = 0;
    while k < placed.len()
        invariant
            recs_wf(placed@, files@),
            k <= placed.len(),
            Seq::new(listed.len() as nat, |i: int| listed@[i].deep_view()) == file_paths(files@),
            ranks.len() == k,
            forall|m: int|
                0 <= m < k ==> #[trigger] ranks@[m] == rec_rank(files@)(placed@[m]),
        decreases placed.len() - k,
    {
        let rec = placed[k];
        ranks.push(rank_path(&listed, &files[rec.file].path));
        k = k + 1;
    }
    let ghost before = placed@;
    let sorted = sort_stable(placed, ranks, Ghost(rec_rank(files@)));
    proof {
        assert(sorted.deep_view() =~= sorted@);
        law_sorted(before, rec_rank(files@));
        lemma_recs_wf(before, sorted@, files@);
    }
    sorted
}

proof fn lemma_recs_wf(a: Seq<OccurrenceRec>, b: Seq<OccurrenceRec>, files: Seq<SourceFile>)
    requires
        recs_wf(a, files),
        a.to_multiset() == b.to_multiset(),
    ensures
        recs_wf(b, files),
{
    assert forall|i: int| 0 <= i < b.len() implies (#[trigger] b[i]).file < files.len() by {
        vstd::seq_lib::to_multiset_contains(b, b[i]);
        vstd::seq_lib::to_multiset_contains(a, b[i]);
    }
}

/// The item of a name of the workspace, given its occurrences.
pub fn workspace_item(
    recs: &Vec<OccurrenceRec>,
    files: &Vec<SourceFile>,
    encoding: PositionEncoding,
) -> (r: Option<CallHierarchyItem>)
    requires
        files_wf(files@),
        recs_wf(recs@, files@),
    ensures
        r.deep_view() == symbol_item(recs@, files@, encoding),
{
    let defs = order_definitions(recs, files);
    let ghost find = rec_item(files@, encoding);
    let mut i: usize = 0;
    proof {
        assert(defs@.take(0) =~= Seq::<OccurrenceRec>::empty());
    }
    while i < defs.len()
        invariant
            files_wf(files@),
            recs_wf(defs@, files@),
            defs@ == definitions_in_order(recs@, files@),
            find == rec_item(files@, encoding),
            i <= defs.len(),
            first_found(defs@.take(i as int), find) is None,
        decreases defs.len() - i,
    {
        proof {
            lemma_first_found_step(defs@, find, i as int);
        }
        let rec = defs[i];
        let file = &files[rec.file];
        proof {
            assert(file.wf());
        }
        if let Some(uri) = &file.uri {
            let line_index = LineIndex::new(file.text.as_str());
            if let Some((_, callable)) = callable_at(&file.tree, rec.range.start, &line_index) {
                proof {
                    lemma_first_found_stays(defs@, find, i + 1);
                }
                return Some(item_for(uri.as_str(), callable, &line_index, encoding));
            }
        }
        i = i + 1;
    }
    proof {
        assert(defs@.take(i as int) =~= defs@);
    }
    None
}

/// The function under the cursor: one of the workspace, given the occurrences of
/// its name, or else one of the file.
pub open spec fn prepared_anywhere(
    own: Option<ItemView>,
    recs: Option<Vec<OccurrenceRec>>,
    files: Seq<SourceFile>,
    encoding: PositionEncoding,
) -> Option<ItemView> {
    match recs {
        Some(recs) => match symbol_item(recs@, files, encoding) {
            Some(item) => Some(item),
            None => own,
        },
        None => own,
    }
}

/// The function at `position` of `text`: `recs` are the occurrences of the name
/// there where it is one of the workspace.
pub fn prepare_call_hierarchy(
    uri: &str,
    text: &str,
    position: Position,
    tree: &SyntaxTree,
    model: &SemanticModel,
    recs: &Option<Vec<OccurrenceRec>>,
    files: &Vec<SourceFile>,
    encoding: PositionEncoding,
) -> (r: Option<CallHierarchyItem>)
    requires
        tree.wf(),
        model.wf(),
        fits(text@),
        files_wf(files@),
        recs is Some ==> recs_wf(recs->0@, files@),
    ensures
        r.deep_view() == prepared_anywhere(
            prepared(
                text@,
                tree@,
                *model,
                uri@,
                offset_at(text@, position, encoding) as u32,
                encoding,
            ),
            *recs,
            files@,
            encoding,
        ),
{
    if let Some(recs) = recs {
        if let Some(item) = workspace_item(recs, files, encoding) {
            return Some(item);
        }
    }
    compute_prepare_call_hierarchy(uri, text, position, tree, model, encoding)
}

/// The call that a node is, by the name of what it calls: a plain name, and no
/// signature.
pub open spec fn site_at(s: Seq<char>, t: Seq<Element>, node: int) -> Option<NamedRangeView> {
    if calls(t[node].kind) && !signs(t, node) {
        match first_child(t, node) {
            Some(callee) => if t[callee].kind == SyntaxKind::NAME || t[callee].kind
                == SyntaxKind::NONSTANDARD_IDENTIFIER {
                head_name_of(s, t, callee)
            } else {
                None
            },
            None => None,
        }
    } else {
        None
    }
}

/// Whether a node owns the calls in it: a definition with a name, or a module.
pub open spec fn owns_calls(s: Seq<char>, t: Seq<Element>, node: int) -> bool {
    callable_of(s, t, node) is Some || t[node].kind == SyntaxKind::MODULE_DEF
}

/// The calls below `node` from element `i` on, less those that something within it
/// owns.
pub open spec fn own_calls(s: Seq<char>, t: Seq<Element>, node: int, i: int) -> Seq<NamedRangeView>
    decreases t[node].end - i,
{
    if i < 0 || i >= t[node].end || i >= t.len() {
        Seq::empty()
    } else if !t[i].is_token && owns_calls(s, t, i) && t[i].end > i {
        if t[i].end >= t[node].end {
            Seq::empty()
        } else {
            own_calls(s, t, node, t[i].end as int)
        }
    } else {
        let rest = own_calls(s, t, node, i + 1);
        if t[i].is_token {
            rest
        } else {
            match site_at(s, t, i) {
                Some(site) => seq![site] + rest,
                None => rest,
            }
        }
    }
}

/// Whether the stretches of nodes are nested: what lies in the stretch of a node is
/// held by that node, or by one in its stretch.
pub open spec fn is_nested(t: Seq<Element>) -> bool {
    forall|i: int, k: int|
        0 <= i < k < t.len() && k < (#[trigger] t[i]).end ==> (#[trigger] t[k]).parent >= i
}

proof fn lemma_stretch(t: Seq<Element>, outer: int, i: int)
    requires
        is_tree(t),
        is_nested(t),
        0 <= outer < i < t.len(),
        i < t[outer].end,
    ensures
        t[i].end <= t[outer].end,
    decreases i,
{
    assert(well_placed(t, i));
    let parent = t[i].parent as int;
    assert(t[i].parent >= outer);
    if parent > outer {
        lemma_stretch(t, outer, parent);
    }
}

/// Whether no node below `node` that owns its calls reaches over an element.
spec fn is_outside_owners(s: Seq<char>, t: Seq<Element>, node: int, i: int) -> bool {
    forall|a: int|
        node < a < i && a < t.len() && !t[a].is_token && #[trigger] owns_calls(s, t, a)
            ==> t[a].end <= i
}

proof fn lemma_own_call(s: Seq<char>, t: Seq<Element>, node: int, from: int, j: int) -> (i: int)
    requires
        is_tree(t),
        is_nested(t),
        0 <= node < from,
        node < t.len(),
        is_outside_owners(s, t, node, from),
        0 <= j < own_calls(s, t, node, from).len(),
    ensures
        from <= i < t[node].end,
        i < t.len(),
        !t[i].is_token,
        !owns_calls(s, t, i),
        site_at(s, t, i) == Some(own_calls(s, t, node, from)[j]),
        is_outside_owners(s, t, node, i),
    decreases t[node].end - from,
{
    lemma_ends_bounded(t, node);
    assert(well_placed(t, from));
    if !t[from].is_token && owns_calls(s, t, from) {
        let next = t[from].end as int;
        assert forall|a: int|
            node < a < next && a < t.len() && !t[a].is_token && #[trigger] owns_calls(
                s,
                t,
                a,
            ) implies t[a].end <= next by {
            if a > from {
                lemma_stretch(t, from, a);
            }
        }
        lemma_own_call(s, t, node, next, j)
    } else {
        assert(is_outside_owners(s, t, node, from + 1));
        if !t[from].is_token && site_at(s, t, from) is Some {
            if j == 0 {
                from
            } else {
                lemma_own_call(s, t, node, from + 1, j - 1)
            }
        } else {
            lemma_own_call(s, t, node, from + 1, j)
        }
    }
}

proof fn lemma_first_found_cons<T, U>(x: T, rest: Seq<T>, f: spec_fn(T) -> Option<U>)
    ensures
        first_found(seq![x] + rest, f) == match f(x) {
            Some(y) => Some(y),
            None => first_found(rest, f),
        },
    decreases rest.len(),
{
    let all = seq![x] + rest;
    if rest.len() == 0 {
        assert(all.drop_last() =~= Seq::<T>::empty());
        assert(first_found(all.drop_last(), f) is None);
    } else {
        assert(all.drop_last() =~= seq![x] + rest.drop_last());
        lemma_first_found_cons(x, rest.drop_last(), f);
    }
}

proof fn lemma_container(s: Seq<char>, t: Seq<Element>, node: usize, i: usize)
    requires
        is_tree(t),
        is_nested(t),
        node < i < t.len(),
        i < t[node as int].end,
        !owns_calls(s, t, i as int),
        is_outside_owners(s, t, node as int, i as int),
    ensures
        first_found(ancestors(t, i), container_of(s, t)) == first_found(
            ancestors(t, node),
            container_of(s, t),
        ),
    decreases i,
{
    let f = container_of(s, t);
    let parent = t[i as int].parent;
    assert(well_placed(t, i as int));
    assert(t[i as int].parent >= node);
    assert(f(i) is None);
    lemma_first_found_cons(i, ancestors(t, parent), f);
    if parent > node {
        assert(!t[parent as int].is_token);
        assert(!owns_calls(s, t, parent as int));
        assert forall|a: int|
            node < a < parent && a < t.len() && !t[a].is_token && #[trigger] owns_calls(
                s,
                t,
                a,
            ) implies t[a].end <= parent by {
            if t[a].end > parent {
                lemma_stretch(t, a, parent as int);
            }
        }
        lemma_container(s, t, node, parent);
    }
}

/// A call that a definition owns leads back to it: where the token at the place of
/// the call stands in the called name, what the place stands in is that definition.
pub proof fn law_own_calls_lead_back(
    s: Seq<char>,
    t: Seq<Element>,
    node: usize,
    j: int,
    token: usize,
) -> (i: int)
    requires
        is_tree(t),
        is_nested(t),
        t.len() <= usize::MAX,
        node < t.len(),
        callable_of(s, t, node as int) is Some,
        0 <= j < own_calls(s, t, node as int, node + 1).len(),
        start_token(t, own_calls(s, t, node as int, node + 1)[j].range.start) == Some(token),
        token < t.len(),
    ensures
        ({
            let site = own_calls(s, t, node as int, node + 1)[j];
            &&& node < i < t[node as int].end
            &&& site_at(s, t, i) == Some(site)
            &&& first_child(t, i) == Some(t[token as int].parent as int) ==> container_at(
                s,
                t,
                site.range.start,
            ) == ContainerView::Callable(callable_of(s, t, node as int)->0)
        }),
{
    let site = own_calls(s, t, node as int, node + 1)[j];
    let f = container_of(s, t);
    assert(is_outside_owners(s, t, node as int, node + 1));
    let i = lemma_own_call(s, t, node as int, node + 1, j);
    let callee = t[token as int].parent;
    if first_child(t, i) == Some(callee as int) {
        lemma_child_of(t, i, i + 1);
        lemma_container(s, t, node, i as usize);
        assert(callable_of(s, t, callee as int) is None);
        assert(f(callee) is None);
        assert(t[callee as int].parent == i);
        lemma_first_found_cons(callee, ancestors(t, i as usize), f);
        assert(ancestors(t, callee) == seq![callee] + ancestors(t, i as usize));
        if t[node as int].parent >= node {
            lemma_first_found_cons(node, Seq::<usize>::empty(), f);
            assert(seq![node] + Seq::<usize>::empty() =~= seq![node]);
        } else {
            lemma_first_found_cons(node, ancestors(t, t[node as int].parent), f);
        }
    }
    i
}

proof fn lemma_child_of(t: Seq<Element>, node: int, from: int)
    requires
        0 <= node < from,
        node < t.len(),
        child_node_from(t, node, from) is Some,
    ensures
        ({
            let child = child_node_from(t, node, from)->0;
            from <= child < t.len() && t[child].parent == node && !t[child].is_token
        }),
    decreases t[node].end - from,
{
    if !(t[from].parent == node && !t[from].is_token) {
        lemma_child_of(t, node, from + 1);
    }
}

fn call_site(tree: &SyntaxTree, node: usize, line_index: &LineIndex) -> (r: Option<NamedRange>)
    requires
        tree.wf(),
        node < tree.elements.len(),
        line_index.wf(),
    ensures
        r.deep_view() == site_at(line_index@, tree@, node as int),
{
    match tree.elements[node].kind {
        SyntaxKind::CALL_EXPR | SyntaxKind::DOT_CALL_EXPR => {},
        _ => {
            return None;
        },
    }
    if is_definition_signature(tree, node) {
        return None;
    }
    match first_child_node(tree, node) {
        Some(callee) => match tree.elements[callee].kind {
            SyntaxKind::NAME | SyntaxKind::NONSTANDARD_IDENTIFIER => head_name(
                tree,
                callee,
                line_index,
            ),
            _ => None,
        },
        None => None,
    }
}

/// The calls that `node` owns, in the order of the text.
pub fn collect_call_sites(tree: &SyntaxTree, node: usize, line_index: &LineIndex) -> (r: Vec<
    NamedRange,
>)
    requires
        tree.wf(),
        node < tree.elements.len(),
        line_index.wf(),
    ensures
        r.deep_view() == own_calls(line_index@, tree@, node as int, node + 1),
{
    let ghost s = line_index@;
    let ghost t = tree@;
    let ghost goal = own_calls(s, t, node as int, node + 1);
    proof {
        lemma_ends_bounded(t, node as int);
    }
    let end = tree.elements[node].end;
    let mut out: Vec<NamedRange> = Vec::new();
    let mut i: usize = node + 1;
    proof {
        assert(out.deep_view() + goal =~= goal);
    }
    while i < end
        invariant
            tree.wf(),
            line_index.wf(),
            s == line_index@,
            t == tree@,
            node < t.len(),
            node < i,
            end == t[node as int].end,
            end <= t.len(),
            goal == own_calls(s, t, node as int, node + 1),
            out.deep_view() + own_calls(s, t, node as int, i as int) == goal,
        decreases end - i,
    {
        let e = tree.elements[i];
        proof {
            assert(well_placed(t, i as int));
        }
        if !e.is_token {
            let module = match e.kind {
                SyntaxKind::MODULE_DEF => true,
                _ => false,
            };
            if module || callable_def(tree, i, line_index).is_some() {
                if e.end >= end {
                    proof {
                        assert(out.deep_view() + Seq::<NamedRangeView>::empty()
                            =~= out.deep_view());
                    }
                    return out;
                }
                i = e.end;
                continue ;
            }
            if let Some(site) = call_site(tree, i, line_index) {
                let ghost before = out.deep_view();
                let ghost rest = own_calls(s, t, node as int, i + 1);
                out.push(site);
                proof {
                    assert(out.deep_view() =~= before.push(site.deep_view()));
                    assert(out.deep_view() + rest =~= before + (seq![site.deep_view()] + rest));
                }
            }
        }
        i = i + 1;
    }
    proof {
        assert(out.deep_view() + Seq::<NamedRangeView>::empty() =~= out.deep_view());
    }
    out
}

/// The occurrences of a name of the workspace.
#[derive(Debug)]
pub struct SymbolSites {
    pub path: Vec<String>,
    pub name: String,
    pub recs: Vec<OccurrenceRec>,
}

/// That occurrences are those of a name.
pub open spec fn is_symbol(path: Seq<Seq<char>>, name: Seq<char>) -> spec_fn(SymbolSites) -> bool {
    |symbol: SymbolSites| symbol.path.deep_view() == path && symbol.name@ == name
}

/// What calls are resolved against: the file with its names, the packages, the
/// names of the workspace with its files, and the packages' files that could be
/// read.
#[derive(Debug)]
pub struct CallScope<'a> {
    pub uri: &'a str,
    pub file: &'a SourceFile,
    pub model: &'a SemanticModel,
    pub library: &'a Library,
    pub symbols: &'a Vec<SymbolSites>,
    pub files: &'a Vec<SourceFile>,
    pub disk: &'a Vec<SourceFile>,
    pub encoding: PositionEncoding,
}

impl<'a> CallScope<'a> {
    /// Everything in it is valid.
    pub open spec fn wf(&self) -> bool {
        &&& self.file.wf()
        &&& self.model.wf()
        &&& files_wf(self.files@)
        &&& files_wf(self.disk@)
        &&& forall|i: int|
            0 <= i < self.symbols.len() ==> recs_wf(
                (#[trigger] self.symbols@[i]).recs@,
                self.files@,
            )
    }
}

/// That a file is at a path.
pub open spec fn is_source_at(path: Seq<Seq<char>>) -> spec_fn(SourceFile) -> bool {
    |file: SourceFile| file.path.deep_view() == path
}

/// The item of a function of a package, given the files that could be read: its
/// definition, or the bare span where that has an unknown shape.
pub open spec fn disk_item(
    disk: Seq<SourceFile>,
    sites: Seq<DefSiteView>,
    name: Seq<char>,
    encoding: PositionEncoding,
) -> Option<ItemView> {
    let at = first_index(disk, is_source_at(sites[0].path));
    let span = sites[0].span;
    if sites.len() == 0 || at >= disk.len() {
        None
    } else {
        match disk[at].uri {
            Some(uri) => Some(
                match callable_found(disk[at].text@, disk[at].tree@, span.start) {
                    Some(found) => callable_item(uri@, found.1, disk[at].text@, encoding),
                    None => {
                        let range = places(
                            disk[at].text@,
                            TextRange { start: span.start, end: span.end },
                            encoding,
                        );
                        ItemView {
                            name,
                            kind: ItemKind::Function,
                            detail: None,
                            uri: uri@,
                            range,
                            selection_range: range,
                        }
                    },
                },
            ),
            None => None,
        }
    }
}

/// The item of a function of a package at `site`.
pub fn library_item(
    disk: &Vec<SourceFile>,
    site: &DefSite,
    name: &str,
    encoding: PositionEncoding,
) -> (r: Option<CallHierarchyItem>)
    requires
        files_wf(disk@),
    ensures
        r.deep_view() == disk_item(disk@, seq![site.deep_view()], name@, encoding),
{
    let ghost here = is_source_at(site.path.deep_view());
    let mut at: usize = 0;
    while at < disk.len() && !disk[at].path.same(&site.path)
        invariant
            at <= disk.len(),
            here == is_source_at(site.path.deep_view()),
            forall|k: int| 0 <= k < at ==> !here(#[trigger] disk@[k]),
        decreases disk.len() - at,
    {
        at = at + 1;
    }
    proof {
        lemma_first_index_is(disk@, here, at as int);
    }
    if at >= disk.len() {
        return None;
    }
    let file = &disk[at];
    proof {
        assert(file.wf());
    }
    match &file.uri {
        Some(uri) => {
            let line_index = LineIndex::new(file.text.as_str());
            match callable_at(&file.tree, site.span.start, &line_index) {
                Some((_, callable)) => Some(
                    item_for(uri.as_str(), callable, &line_index, encoding),
                ),
                None => {
                    let range = to_range(
                        TextRange { start: site.span.start, end: site.span.end },
                        &line_index,
                        encoding,
                    );
                    Some(
                        CallHierarchyItem {
                            name: name.to_owned(),
                            kind: ItemKind::Function,
                            detail: None,
                            uri: uri.clone(),
                            range,
                            selection_range: range,
                        },
                    )
                },
            }
        },
        None => None,
    }
}

/// The item of what is called by the name at an offset.
pub open spec fn target_at(scope: CallScope, offset: u32) -> Option<ItemView> {
    let model = *scope.model;
    let library = *scope.library;
    let at = first_index(model.idents@, ident_spans(offset));
    if at >= model.idents.len() {
        None
    } else {
        match bound_to(model.idents@[at]) {
            Some(id) => binding_item(
                scope.file.text@,
                scope.file.tree@,
                model,
                scope.uri@,
                id,
                scope.encoding,
            ),
            None => match model.idents@[at].resolution {
                Resolution::Workspace { path, name } => {
                    let symbol = first_index(
                        scope.symbols@,
                        is_symbol(path.deep_view(), name@),
                    );
                    if symbol < scope.symbols.len() {
                        symbol_item(scope.symbols@[symbol].recs@, scope.files@, scope.encoding)
                    } else {
                        None
                    }
                },
                Resolution::System { module, name } => match package_of(library, module@) {
                    Some(package) => disk_item(
                        scope.disk@,
                        library_sites(library, package.name@, package.root, name@),
                        name@,
                        scope.encoding,
                    ),
                    None => None,
                },
                Resolution::Using { module, name } => disk_item(
                    scope.disk@,
                    using_sites(model.module_loads@, library, module@, name@),
                    name@,
                    scope.encoding,
                ),
                _ => None,
            },
        }
    }
}

fn find_symbol(symbols: &Vec<SymbolSites>, path: &Vec<String>, name: &str) -> (r: usize)
    ensures
        r == first_index(symbols@, is_symbol(path.deep_view(), name@)),
        r <= symbols.len(),
{
    let ghost here = is_symbol(path.deep_view(), name@);
    let mut at: usize = 0;
    while at < symbols.len() && !(same_text(symbols[at].name.as_str(), name) && same_texts(
        &symbols[at].path,
        path,
    ))
        invariant
            at <= symbols.len(),
            here == is_symbol(path.deep_view(), name@),
            forall|k: int| 0 <= k < at ==> !here(#[trigger] symbols@[k]),
        decreases symbols.len() - at,
    {
        at = at + 1;
    }
    proof {
        lemma_first_index_is(symbols@, here, at as int);
    }
    at
}

/// The item of what is called by the name at `offset`.
pub fn call_target(scope: &CallScope, line_index: &LineIndex, offset: u32) -> (r: Option<
    CallHierarchyItem,
>)
    requires
        scope.wf(),
        line_index.wf(),
        line_index@ == scope.file.text@,
    ensures
        r.deep_view() == target_at(*scope, offset),
{
    let model = scope.model;
    let at = model.ident_at(offset);
    if at >= model.idents.len() {
        return None;
    }
    let ident = &model.idents[at];
    if let Some(id) = ident.final_binding() {
        return item_of_binding(
            &scope.file.tree,
            model,
            scope.uri,
            line_index,
            id,
            scope.encoding,
        );
    }
    match &ident.resolution {
        Resolution::Workspace { path, name } => {
            let symbol = find_symbol(scope.symbols, path, name.as_str());
            if symbol < scope.symbols.len() {
                workspace_item(&scope.symbols[symbol].recs, scope.files, scope.encoding)
            } else {
                None
            }
        },
        Resolution::System { module, name } => match scope.library.package(module.as_str()) {
            Some(package) => match library_def_site(
                scope.library,
                package,
                &package.root,
                name.as_str(),
            ) {
                Some(site) => library_item(scope.disk, &site, name.as_str(), scope.encoding),
                None => None,
            },
            None => None,
        },
        Resolution::Using { module, name } => match using_def_site(
            model,
            scope.library,
            module.as_str(),
            name.as_str(),
        ) {
            Some(site) => library_item(scope.disk, &site, name.as_str(), scope.encoding),
            None => None,
        },
        _ => None,
    }
}

/// The call at a site, with what it calls.
pub open spec fn call_to(scope: CallScope) -> spec_fn(NamedRangeView) -> Option<CallView> {
    |site: NamedRangeView|
        match target_at(scope, site.range.start) {
            Some(item) => Some(
                CallView {
                    key: range_start(item.selection_range) as u64,
                    item,
                    range: places(scope.file.text@, site.range, scope.encoding),
                },
            ),
            None => None,
        }
}

/// That a node is a module.
pub open spec fn is_module(t: Seq<Element>) -> spec_fn(usize) -> Option<usize> {
    |node: usize|
        if t[node as int].kind == SyntaxKind::MODULE_DEF {
            Some(node)
        } else {
            None
        }
}

/// The node of an item: the file's root, the module around the offset, or the
/// definition whose name is there.
pub open spec fn item_node(
    kind: ItemKind,
    s: Seq<char>,
    t: Seq<Element>,
    offset: u32,
) -> Option<usize> {
    match kind {
        ItemKind::File => Some(0),
        ItemKind::Module => first_found(around(t, offset), is_module(t)),
        ItemKind::Function => match callable_found(s, t, offset) {
            Some(found) => Some(found.0),
            None => None,
        },
    }
}

fn module_around(tree: &SyntaxTree, offset: u32) -> (r: Option<usize>)
    requires
        tree.wf(),
    ensures
        r == first_found(around(tree@, offset), is_module(tree@)),
        r is Some ==> r->0 < tree.elements.len(),
{
    let ghost t = tree@;
    let nodes = nodes_around(tree, offset);
    let ghost find = is_module(t);
    let mut i: usize = 0;
    proof {
        assert(nodes@.take(0) =~= Seq::<usize>::empty());
    }
    while i < nodes.len()
        invariant
            t == tree@,
            find == is_module(t),
            nodes@ == around(t, offset),
            i <= nodes.len(),
            forall|k: int| 0 <= k < nodes.len() ==> #[trigger] nodes@[k] < t.len(),
            first_found(nodes@.take(i as int), find) is None,
        decreases nodes.len() - i,
    {
        proof {
            lemma_first_found_step(nodes@, find, i as int);
        }
        let node = nodes[i];
        match tree.elements[node].kind {
            SyntaxKind::MODULE_DEF => {
                proof {
                    lemma_first_found_stays(nodes@, find, i + 1);
                }
                return Some(node);
            },
            _ => {},
        }
        i = i + 1;
    }
    proof {
        assert(nodes@.take(i as int) =~= nodes@);
    }
    None
}

/// What an item calls: the targets of the calls that it owns, by document, then by
/// where their names start. None where the item is no longer there.
pub open spec fn outgoing(kind: ItemKind, position: Position, scope: CallScope) -> Option<
    Seq<GroupView>,
> {
    let s = scope.file.text@;
    let t = scope.file.tree@;
    match item_node(kind, s, t, offset_at(s, position, scope.encoding) as u32) {
        Some(node) => Some(
            groups_in_order(grouped(kept(own_calls(s, t, node as int, node + 1), call_to(scope)))),
        ),
        None => None,
    }
}

/// What the item whose name stands at `position` calls.
pub fn outgoing_calls(kind: ItemKind, position: Position, scope: &CallScope) -> (r: Option<
    Vec<CallGroup>,
>)
    requires
        scope.wf(),
    ensures
        r.deep_view() == outgoing(kind, position, *scope),
{
    let tree = &scope.file.tree;
    let line_index = LineIndex::new(scope.file.text.as_str());
    proof {
        lemma_offset_bounded(scope.file.text@, position, scope.encoding);
    }
    let offset = line_index.position_to_byte(position, scope.encoding) as u32;
    let node = match kind {
        ItemKind::File => 0,
        ItemKind::Module => match module_around(tree, offset) {
            Some(node) => node,
            None => {
                return None;
            },
        },
        ItemKind::Function => match callable_at(tree, offset, &line_index) {
            Some((node, _)) => node,
            None => {
                return None;
            },
        },
    };
    let sites = collect_call_sites(tree, node, &line_index);
    let ghost all = sites.deep_view();
    let ghost pick = call_to(*scope);
    let ghost calls = kept(all, pick);
    let mut groups: Vec<CallGroup> = Vec::new();
    let mut i: usize = 0;
    proof {
        assert(all.take(0) =~= Seq::<NamedRangeView>::empty());
        assert(groups.deep_view() =~= Seq::<GroupView>::empty());
    }
    while i < sites.len()
        invariant
            scope.wf(),
            line_index.wf(),
            line_index@ == scope.file.text@,
            i <= sites.len(),
            all == sites.deep_view(),
            pick == call_to(*scope),
            groups.deep_view() == grouped(kept(all.take(i as int), pick)),
        decreases sites.len() - i,
    {
        proof {
            lemma_kept_step(all, pick, i as int);
        }
        let range = sites[i].range;
        if let Some(item) = call_target(scope, &line_index, range.start) {
            let ghost before = kept(all.take(i as int), pick);
            let key = start_number(item.selection_range);
            let place = to_range(range, &line_index, scope.encoding);
            proof {
                let call = CallView { key, item: item.deep_view(), range: place };
                assert(before.push(call).drop_last() =~= before);
                assert(pick(all[i as int]) == Some(call));
            }
            add_call(&mut groups, key, item, place);
        }
        i = i + 1;
    }
    proof {
        assert(all.take(i as int) =~= all);
    }
    Some(order_groups(groups))
}

/// Every call below a node, plain or broadcast, of a plain name that is no signature and
/// stands in no definition or module within the node is one of the node's calls.
pub proof fn law_calls_outside_inner_owners_are_own(
    s: Seq<char>,
    t: Seq<Element>,
    node: int,
    i: int,
    callee: int,
)
    requires
        0 <= node < i < t[node].end <= t.len(),
        !t[i].is_token,
        t[i].kind == SyntaxKind::CALL_EXPR || t[i].kind == SyntaxKind::DOT_CALL_EXPR,
        !signs(t, i),
        first_child(t, i) == Some(callee),
        t[callee].kind == SyntaxKind::NAME || t[callee].kind == SyntaxKind::NONSTANDARD_IDENTIFIER,
        node_text(s, t, callee) is Some,
        forall|a: int|
            node < a <= i && !(#[trigger] t[a]).is_token && (callable_of(s, t, a) is Some || t[a].kind
                == SyntaxKind::MODULE_DEF) ==> a < t[a].end <= i,
    ensures
        own_calls(s, t, node, node + 1).contains(
            NamedRangeView { name: node_text(s, t, callee)->0, range: t[callee].range },
        ),
{
    lemma_own_call_met(s, t, node, node + 1, i);
}

proof fn lemma_own_call_met(s: Seq<char>, t: Seq<Element>, node: int, from: int, i: int)
    requires
        0 <= node < from <= i < t[node].end <= t.len(),
        !t[i].is_token,
        site_at(s, t, i) is Some,
        forall|a: int|
            node < a <= i && !(#[trigger] t[a]).is_token && (callable_of(s, t, a) is Some || t[a].kind
                == SyntaxKind::MODULE_DEF) ==> a < t[a].end <= i,
    ensures
        own_calls(s, t, node, from).contains(site_at(s, t, i)->0),
    decreases i - from,
{
    let site = site_at(s, t, i)->0;
    if !t[from].is_token && owns_calls(s, t, from) && t[from].end > from {
        lemma_own_call_met(s, t, node, t[from].end as int, i);
    } else {
        let rest = own_calls(s, t, node, from + 1);
        let all = own_calls(s, t, node, from);
        if from == i {
            assert(all[0] == site);
        } else {
            lemma_own_call_met(s, t, node, from + 1, i);
            let j = choose|j: int| 0 <= j < rest.len() && rest[j] == site;
            if t[from].is_token || site_at(s, t, from) is None {
                assert(all[j] == site);
            } else {
                assert(all[j + 1] == site);
            }
        }
    }
}

/// Whether groups hold a call at a place of a document, in the group of its caller or
/// callee.
pub open spec fn groups_hold(groups: Seq<GroupView>, uri: Seq<char>, range: Range) -> bool {
    exists|g: int|
        0 <= g < groups.len() && (#[trigger] groups[g]).item.uri == uri
            && groups[g].from_ranges.contains(range)
}

proof fn lemma_calls_in_groups(
    s: Seq<char>,
    t: Seq<Element>,
    uri: Seq<char>,
    path: Seq<Seq<char>>,
    sites: Seq<TextRange>,
    encoding: PositionEncoding,
    k: int,
)
    requires
        0 <= k < sites.len(),
    ensures
        groups_hold(
            incoming_in(s, t, uri, path, sites, encoding),
            uri,
            range_at(s, sites[k].start as int, sites[k].end as int, encoding),
        ),
{
    let f = call_from(s, t, uri, path, encoding);
    let all = sites.map_values(f);
    assert(all[k] == f(sites[k]));
    assert(all[k].item.uri == uri);
    let g = law_every_call_is_grouped(all, k);
    let groups = grouped(all);
    let sorted = stable_sorted(groups, group_key());
    assert(groups.contains(groups[g]));
    law_sorting_keeps_items(groups, group_key(), groups[g]);
    let j = choose|j: int| 0 <= j < sorted.len() && sorted[j] == groups[g];
    assert(sorted[j].item.uri == uri);
}

/// Every occurrence of a function of the file that is called, and does not define it, is
/// among the calls of its callers.
pub proof fn law_every_call_in_the_file_has_a_caller(
    position: Position,
    uri: Seq<char>,
    file: SourceFile,
    model: SemanticModel,
    files: Seq<SourceFile>,
    encoding: PositionEncoding,
    id: usize,
    k: int,
)
    requires
        binding_under(model, offset_at(file.text@, position, encoding) as u32) == Some(id),
        model.bindings@[id as int].kind == BindingKind::Function,
        0 <= k < model.idents.len(),
        model.idents@[k].binding == Some(id),
        is_called(file.text@, file.tree@, model.idents@[k].range),
    ensures
        match incoming(ItemKind::Function, position, uri, file, model, None, files, encoding) {
            Some(groups) => groups_hold(
                groups,
                uri,
                range_at(
                    file.text@,
                    model.idents@[k].range.start as int,
                    model.idents@[k].range.end as int,
                    encoding,
                ),
            ),
            None => false,
        },
{
    let all = occurrences_of(model, id);
    let f = called_occurrence(file.text@, file.tree@);
    law_occurrences_are_all_that_stands_for_a_binding(model, id, k);
    let o = choose|o: int|
        0 < o < all.len() && (#[trigger] all[o]).range == model.idents@[k].range && all[o].access
            == model.idents@[k].access;
    law_occurrences_are_all_that_stands_for_a_binding(model, id, o);
    let j = lemma_kept_holds(all, f, o);
    lemma_calls_in_groups(
        file.text@,
        file.tree@,
        uri,
        file.path.deep_view(),
        kept(all, f),
        encoding,
        j,
    );
}

/// Every occurrence of a name of the workspace that is called, and does not define it,
/// is among the calls of its callers, in whichever file of a URI it stands.
pub proof fn law_every_call_in_the_workspace_has_a_caller(
    position: Position,
    uri: Seq<char>,
    file: SourceFile,
    model: SemanticModel,
    recs: Vec<OccurrenceRec>,
    files: Seq<SourceFile>,
    encoding: PositionEncoding,
    k: int,
)
    requires
        files.len() <= usize::MAX,
        0 <= k < recs.len(),
        recs@[k].file < files.len(),
        !recs@[k].is_def,
        files[recs@[k].file as int].uri is Some,
        is_called(
            files[recs@[k].file as int].text@,
            files[recs@[k].file as int].tree@,
            recs@[k].range,
        ),
    ensures
        match incoming(ItemKind::Function, position, uri, file, model, Some(recs), files, encoding) {
            Some(groups) => groups_hold(
                groups,
                files[recs@[k].file as int].uri->0@,
                range_at(
                    files[recs@[k].file as int].text@,
                    recs@[k].range.start as int,
                    recs@[k].range.end as int,
                    encoding,
                ),
            ),
            None => false,
        },
{
    let at = recs@[k].file;
    let source = files[at as int];
    let place = range_at(
        source.text@,
        recs@[k].range.start as int,
        recs@[k].range.end as int,
        encoding,
    );
    let f = called_rec(files, at);
    let found = kept(recs@, f);
    let sites = stable_sorted(found, text_start());
    let j = lemma_kept_holds(recs@, f, k);
    assert(found.contains(found[j]));
    law_sorting_keeps_items(found, text_start(), found[j]);
    let i = choose|i: int| 0 <= i < sites.len() && sites[i] == found[j];
    lemma_calls_in_groups(
        source.text@,
        source.tree@,
        source.uri->0@,
        source.path.deep_view(),
        sites,
        encoding,
        i,
    );
    let numbers = Seq::new(files.len(), |n: int| n as usize);
    assert(numbers[at as int] == at);
    law_sorting_keeps_items(numbers, file_rank(files), at);
    lemma_files_add_up(recs@, files, files_in_order(files), encoding, at, source.uri->0@, place);
}

proof fn lemma_files_add_up(
    recs: Seq<OccurrenceRec>,
    files: Seq<SourceFile>,
    order: Seq<usize>,
    encoding: PositionEncoding,
    at: usize,
    uri: Seq<char>,
    range: Range,
)
    requires
        order.contains(at),
        groups_hold(incoming_from(recs, files, at, encoding), uri, range),
    ensures
        groups_hold(incoming_across(recs, files, order, encoding), uri, range),
    decreases order.len(),
{
    let front = order.drop_last();
    let before = incoming_across(recs, files, front, encoding);
    let last = incoming_from(recs, files, order.last(), encoding);
    let all = incoming_across(recs, files, order, encoding);
    if order.last() == at {
        let g = choose|g: int|
            0 <= g < last.len() && (#[trigger] last[g]).item.uri == uri
                && last[g].from_ranges.contains(range);
        assert(all[before.len() + g] == last[g]);
    } else {
        let k = choose|k: int| 0 <= k < order.len() && order[k] == at;
        assert(front[k] == at);
        lemma_files_add_up(recs, files, front, encoding, at, uri, range);
        let g = choose|g: int|
            0 <= g < before.len() && (#[trigger] before[g]).item.uri == uri
                && before[g].from_ranges.contains(range);
        assert(all[g] == before[g]);
    }
}

/// Each call that an item owns and whose target is known is among the calls to that
/// target; modules and files are called by nobody.
pub proof fn law_every_own_call_has_a_callee(
    kind: ItemKind,
    position: Position,
    scope: CallScope,
    node: usize,
    k: int,
)
    requires
        item_node(
            kind,
            scope.file.text@,
            scope.file.tree@,
            offset_at(scope.file.text@, position, scope.encoding) as u32,
        ) == Some(node),
        0 <= k < own_calls(scope.file.text@, scope.file.tree@, node as int, node + 1).len(),
    ensures
        ({
            let site = own_calls(scope.file.text@, scope.file.tree@, node as int, node + 1)[k];
            target_at(scope, site.range.start) is Some ==> match outgoing(kind, position, scope) {
                Some(groups) => groups_hold(
                    groups,
                    target_at(scope, site.range.start)->0.uri,
                    range_at(
                        scope.file.text@,
                        site.range.start as int,
                        site.range.end as int,
                        scope.encoding,
                    ),
                ),
                None => false,
            }
        }),
{
    let s = scope.file.text@;
    let t = scope.file.tree@;
    let sites = own_calls(s, t, node as int, node + 1);
    let f = call_to(scope);
    if target_at(scope, sites[k].range.start) is Some {
        let all = kept(sites, f);
        let j = lemma_kept_holds(sites, f, k);
        let g = law_every_call_is_grouped(all, j);
        let groups = grouped(all);
        let placed = stable_sorted(groups, group_key());
        let ordered = groups_in_order(groups);
        assert(groups.contains(groups[g]));
        law_sorting_keeps_items(groups, group_key(), groups[g]);
        law_sorting_keeps_items(placed, group_rank(group_uris(placed)), groups[g]);
        let i = choose|i: int| 0 <= i < ordered.len() && ordered[i] == groups[g];
        assert(ordered[i].item.uri == all[j].item.uri);
    }
}

/// Only functions have callers: the answer for a module or a file is empty, and there is
/// none for a name that the file binds to anything else.
pub proof fn law_only_functions_are_called(
    kind: ItemKind,
    position: Position,
    uri: Seq<char>,
    file: SourceFile,
    model: SemanticModel,
    recs: Option<Vec<OccurrenceRec>>,
    files: Seq<SourceFile>,
    encoding: PositionEncoding,
)
    ensures
        ({
            let found = incoming(kind, position, uri, file, model, recs, files, encoding);
            let id = binding_under(model, offset_at(file.text@, position, encoding) as u32);
            &&& kind != ItemKind::Function ==> found == Some(Seq::<GroupView>::empty())
            &&& kind == ItemKind::Function && recs is None && (id is None
                || model.bindings@[id->0 as int].kind != BindingKind::Function) ==> found is None
        }),
{
}

/// A name of the workspace is shown by a definition of it that is a function, and by
/// what the file itself shows only where it has none.
pub proof fn law_items_are_definitions(
    own: Option<ItemView>,
    recs: Vec<OccurrenceRec>,
    files: Seq<SourceFile>,
    encoding: PositionEncoding,
)
    ensures
        ({
            let item = symbol_item(recs@, files, encoding);
            &&& item is Some ==> prepared_anywhere(own, Some(recs), files, encoding) == item
                && exists|k: int|
                0 <= k < recs.len() && (#[trigger] recs@[k]).is_def && rec_item(files, encoding)(
                    recs@[k],
                ) == item
            &&& item is None ==> prepared_anywhere(own, Some(recs), files, encoding) == own
            &&& prepared_anywhere(own, None, files, encoding) == own
        }),
{
    let f = rec_item(files, encoding);
    let item = symbol_item(recs@, files, encoding);
    if item is Some {
        let ordered = definitions_in_order(recs@, files);
        let i = lemma_first_found_from(ordered, f);
        let defs = kept(recs@, def_rec());
        let placed = stable_sorted(defs, rec_start());
        assert(ordered.contains(ordered[i]));
        law_sorting_keeps_items(placed, rec_rank(files), ordered[i]);
        law_sorting_keeps_items(defs, rec_start(), ordered[i]);
        let j = choose|j: int| 0 <= j < defs.len() && defs[j] == ordered[i];
        let k = lemma_kept_from(recs@, def_rec(), j);
        assert(recs@[k].is_def);
    }
}

/// Callees come document by document, in the order of the documents' URIs, and within
/// one in the order of where their names start.
pub proof fn law_groups_come_in_order(groups: Seq<GroupView>, i: int, j: int)
    requires
        0 <= i < j < groups_in_order(groups).len(),
    ensures
        ({
            let all = groups_in_order(groups);
            ||| text_less(all[i].item.uri, all[j].item.uri)
            ||| all[i].item.uri == all[j].item.uri && all[i].key <= all[j].key
        }),
{
    let placed = stable_sorted(groups, group_key());
    let uris = group_uris(placed);
    let key = group_rank(uris);
    let all = groups_in_order(groups);
    law_sorted(groups, group_key());
    law_sorted(placed, key);
    law_sorting_is_stable(placed, key, group_key());
    assert(key(all[i]) <= key(all[j]));
    assert(all.contains(all[i]) && all.contains(all[j]));
    law_sorting_keeps_items(placed, key, all[i]);
    law_sorting_keeps_items(placed, key, all[j]);
    let a = choose|a: int| 0 <= a < placed.len() && placed[a] == all[i];
    let b = choose|b: int| 0 <= b < placed.len() && placed[b] == all[j];
    assert(uris[a] == all[i].item.uri && uris[b] == all[j].item.uri);
    law_text_ranks(uris, all[i].item.uri, all[j].item.uri);
    if all[i].item.uri == all[j].item.uri {
        assert(key(all[i]) == key(all[j]));
        assert(group_key()(all[i]) <= group_key()(all[j]));
    }
}

/// What is called by a name is what the first occurrence there stands for: a function of
/// the file by its binding, one of the workspace by its occurrences, and one of a package
/// by its definition, be it the package of the module or one that a `using` leads to.
pub proof fn law_targets_are_what_names_stand_for(scope: CallScope, offset: u32, i: int, k: int)
    requires
        0 <= i < scope.model.idents.len(),
        at_name(scope.model.idents@[i].range, offset),
        forall|j: int|
            0 <= j < i ==> !at_name((#[trigger] scope.model.idents@[j]).range, offset),
    ensures
        ({
            let ident = scope.model.idents@[i];
            let target = target_at(scope, offset);
            let local = |id: usize|
                binding_item(
                    scope.file.text@,
                    scope.file.tree@,
                    *scope.model,
                    scope.uri@,
                    id,
                    scope.encoding,
                );
            &&& ident.binding is Some ==> target == local(ident.binding->0)
            &&& ident.binding is None ==> match ident.resolution {
                Resolution::Binding(id) => target == local(id),
                Resolution::Workspace { path, name } => {
                    let symbols = scope.symbols@;
                    let named = |j: int|
                        symbols[j].path.deep_view() == path.deep_view() && symbols[j].name@ == name@;
                    &&& 0 <= k < symbols.len() && named(k) && (forall|j: int|
                        0 <= j < k ==> !#[trigger] named(j)) ==> target == symbol_item(
                        symbols[k].recs@,
                        scope.files@,
                        scope.encoding,
                    )
                    &&& (forall|j: int| 0 <= j < symbols.len() ==> !#[trigger] named(j))
                        ==> target is None
                },
                Resolution::System { module, name } => match package_of(*scope.library, module@) {
                    Some(package) => target == disk_item(
                        scope.disk@,
                        library_sites(*scope.library, package.name@, package.root, name@),
                        name@,
                        scope.encoding,
                    ),
                    None => target is None,
                },
                Resolution::Using { module, name } => target == disk_item(
                    scope.disk@,
                    using_sites(scope.model.module_loads@, *scope.library, module@, name@),
                    name@,
                    scope.encoding,
                ),
                _ => target is None,
            }
        }),
{
    let idents = scope.model.idents@;
    let f = ident_spans(offset);
    assert forall|j: int| 0 <= j < i implies !f(#[trigger] idents[j]) by {
        assert(!at_name(idents[j].range, offset));
    }
    lemma_first_index_is(idents, f, i);
    match idents[i].resolution {
        Resolution::Workspace { path, name } => {
            let symbols = scope.symbols@;
            let g = is_symbol(path.deep_view(), name@);
            let named = |j: int|
                symbols[j].path.deep_view() == path.deep_view() && symbols[j].name@ == name@;
            lemma_first_index(symbols, g);
            let at = first_index(symbols, g);
            if at < symbols.len() {
                assert(named(at));
            }
            if 0 <= k < symbols.len() && named(k) {
                assert(g(symbols[k]));
            }
        },
        _ => {},
    }
}

/// A function of a package is shown by the file of its first site, where that could be
/// read and has a URI; one without a site is not shown.
pub proof fn law_package_functions_are_shown_where_they_are_defined(
    disk: Seq<SourceFile>,
    sites: Seq<DefSiteView>,
    name: Seq<char>,
    encoding: PositionEncoding,
    i: int,
)
    requires
        sites.len() > 0,
        0 <= i < disk.len(),
        disk[i].path.deep_view() == sites[0].path,
        disk[i].uri is Some,
        forall|k: int| 0 <= k < i ==> (#[trigger] disk[k]).path.deep_view() != sites[0].path,
    ensures
        ({
            let item = disk_item(disk, sites, name, encoding);
            let found = callable_found(disk[i].text@, disk[i].tree@, sites[0].span.start);
            &&& item is Some
            &&& item->0.uri == disk[i].uri->0@
            &&& item->0.kind == ItemKind::Function
            &&& found is None ==> item->0.name == name && item->0.range == range_at(
                disk[i].text@,
                sites[0].span.start as int,
                sites[0].span.end as int,
                encoding,
            )
            &&& match found {
                Some((_, callable)) => item->0.name == callable.name && item->0.detail
                    == callable.detail,
                None => true,
            }
        }),
        disk_item(disk, Seq::empty(), name, encoding) is None,
{
    let f = is_source_at(sites[0].path);
    assert forall|k: int| 0 <= k < i implies !f(#[trigger] disk[k]) by {}
    lemma_first_index_is(disk, f, i);
}

/// The calls of a file are those of its whole tree, those of a module those of the
/// innermost module around its name, and those of a function those of its definition.
pub proof fn law_items_own_the_calls_of_their_node(
    s: Seq<char>,
    t: Seq<Element>,
    offset: u32,
    i: int,
)
    ensures
        item_node(ItemKind::File, s, t, offset) == Some(0usize),
        0 <= i < around(t, offset).len() && t[around(t, offset)[i] as int].kind
            == SyntaxKind::MODULE_DEF && (forall|k: int|
            0 <= k < i ==> t[#[trigger] around(t, offset)[k] as int].kind != SyntaxKind::MODULE_DEF)
            ==> item_node(ItemKind::Module, s, t, offset) == Some(around(t, offset)[i]),
        match callable_found(s, t, offset) {
            Some((node, _)) => item_node(ItemKind::Function, s, t, offset) == Some(node),
            None => item_node(ItemKind::Function, s, t, offset) is None,
        },
{
    let nodes = around(t, offset);
    let f = is_module(t);
    if 0 <= i < nodes.len() && t[nodes[i] as int].kind == SyntaxKind::MODULE_DEF && (forall|k: int|
        0 <= k < i ==> t[#[trigger] nodes[k] as int].kind != SyntaxKind::MODULE_DEF) {
        assert forall|k: int| 0 <= k < i implies f(#[trigger] nodes[k]) is None by {}
        law_first_found_is_first(nodes, f, i);
    }
}

} // verus!
