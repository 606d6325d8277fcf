//! Checks of what comes from outside: whether trees, names, texts and requests are
//! valid, so that they can be answered.

use vstd::prelude::*;

use crate::calls::{files_wf, recs_wf, SourceFile};
use crate::completion::{candidates_ok, keys_ascend, Candidate, SequenceTables, Source};
use crate::cross_file::OccurrenceRec;
use crate::documentation::{docs_wf, DocText};
use crate::folding::DocSource;
use crate::hover::FenceNames;
use crate::order::{is_text_less, lemma_text_less_transitive, text_less};
use crate::read_jobs::{Document, ReadJob, RenameBatch, Snapshot};
use crate::rename_files::{handles_ok, ScanCandidate};
use crate::semantic::{Resolution, SemanticModel};
use crate::semantic_tokens::model_ranges_ok;
use crate::server::InitializeParams;
use crate::strings::{byte_len, byte_length};
use crate::text::fits;
use crate::tree::{well_placed, SyntaxTree};

verus! {

/// Whether `text` is short enough.
pub fn text_fits(text: &str) -> (r: bool)
    ensures
        r == fits(text@),
{
    byte_length(text) <= 0xffff_ffff
}

/// Whether `uri` is short enough to be read as a URI.
pub fn uri_fits(uri: &str) -> (r: bool)
    ensures
        r == (byte_len(uri@) <= i32::MAX),
{
    byte_length(uri) <= 0x7fff_ffff
}

/// Whether the elements form a tree.
pub fn tree_is_valid(tree: &SyntaxTree) -> (r: bool)
    ensures
        r == tree.wf(),
{
    let ghost t = tree@;
    let n = tree.elements.len();
    if n == 0 {
        return false;
    }
    let root = tree.elements[0];
    if root.is_token || root.parent != 0 || root.end != n || root.range.start > root.range.end {
        return false;
    }
    let mut i: usize = 1;
    while i < n
        invariant
            t == tree@,
            n == t.len(),
            1 <= i <= n,
            !t[0].is_token && t[0].parent == 0 && t[0].end == t.len(),
            forall|k: int| 0 < k < i ==> #[trigger] well_placed(t, k),
            forall|k: int| 0 <= k < i ==> (#[trigger] t[k]).range.start <= t[k].range.end,
        decreases n - i,
    {
        let e = tree.elements[i];
        if e.range.start > e.range.end {
            return false;
        }
        if e.parent >= i || e.end <= i || e.end > tree.elements[e.parent].end
            || tree.elements[e.parent].is_token || (e.is_token && e.end != i + 1)
            || tree.elements[e.parent].range.start > e.range.start
            || tree.elements[e.parent].range.end < e.range.end {
            proof {
                assert(!well_placed(t, i as int));
            }
            return false;
        }
        proof {
            assert(well_placed(t, i as int));
        }
        i = i + 1;
    }
    true
}

/// Whether every binding that is spoken of is one of the file's.
pub fn model_is_valid(model: &SemanticModel) -> (r: bool)
    ensures
        r == model.wf(),
{
    let count = model.bindings.len();
    let mut i: usize = 0;
    while i < model.idents.len()
        invariant
            count == model.bindings.len(),
            i <= model.idents.len(),
            forall|k: int|
                0 <= k < i && (#[trigger] model.idents@[k]).binding is Some
                    ==> model.idents@[k].binding->0 < count,
            forall|k: int|
                0 <= k < i && (#[trigger] model.idents@[k]).resolution is Binding
                    ==> model.idents@[k].resolution->Binding_0 < count,
        decreases model.idents.len() - i,
    {
        let ident = &model.idents[i];
        if let Some(id) = ident.binding {
            if id >= count {
                return false;
            }
        }
        if let Resolution::Binding(id) = &ident.resolution {
            if *id >= count {
                return false;
            }
        }
        i = i + 1;
    }
    let mut j: usize = 0;
    while j < model.exports.len()
        invariant
            count == model.bindings.len(),
            j <= model.exports.len(),
            forall|k: int|
                0 <= k < j && (#[trigger] model.exports@[k]).binding is Some
                    ==> model.exports@[k].binding->0 < count,
        decreases model.exports.len() - j,
    {
        if let Some(id) = model.exports[j].binding {
            if id >= count {
                return false;
            }
        }
        j = j + 1;
    }
    true
}

/// Whether no range of a name ends before it starts.
pub fn ranges_are_ordered(model: &SemanticModel) -> (r: bool)
    ensures
        r == model_ranges_ok(*model),
{
    let mut i: usize = 0;
    while i < model.bindings.len()
        invariant
            i <= model.bindings.len(),
            forall|k: int|
                0 <= k < i ==> (#[trigger] model.bindings@[k]).def_range.start
                    <= model.bindings@[k].def_range.end,
        decreases model.bindings.len() - i,
    {
        let range = model.bindings[i].def_range;
        if range.start > range.end {
            return false;
        }
        i = i + 1;
    }
    let mut j: usize = 0;
    while j < model.exports.len()
        invariant
            j <= model.exports.len(),
            forall|k: int|
                0 <= k < j ==> (#[trigger] model.exports@[k]).range.start
                    <= model.exports@[k].range.end,
        decreases model.exports.len() - j,
    {
        let range = model.exports[j].range;
        if range.start > range.end {
            return false;
        }
        j = j + 1;
    }
    let mut m: usize = 0;
    while m < model.idents.len()
        invariant
            m <= model.idents.len(),
            forall|k: int|
                0 <= k < m ==> (#[trigger] model.idents@[k]).range.start
                    <= model.idents@[k].range.end,
        decreases model.idents.len() - m,
    {
        let range = model.idents[m].range;
        if range.start > range.end {
            return false;
        }
        m = m + 1;
    }
    true
}

/// Whether everything in a document is valid.
pub fn document_is_valid(document: &Document) -> (r: bool)
    ensures
        r == document.wf(),
{
    text_fits(document.text.as_str()) && tree_is_valid(&document.tree) && model_is_valid(
        &document.model,
    ) && ranges_are_ordered(&document.model) && texts_are_valid(&document.docs)
}

fn texts_are_valid(docs: &Vec<DocText>) -> (r: bool)
    ensures
        r == docs_wf(docs@),
{
    let mut i: usize = 0;
    while i < docs.len()
        invariant
            i <= docs.len(),
            forall|k: int| 0 <= k < i ==> (#[trigger] docs@[k]).wf(),
        decreases docs.len() - i,
    {
        if !text_fits(docs[i].text.as_str()) {
            proof {
                assert(!docs@[i as int].wf());
            }
            return false;
        }
        i = i + 1;
    }
    true
}

/// Whether the text of a file fits and its tree is one.
pub fn source_is_valid(file: &SourceFile) -> (r: bool)
    ensures
        r == file.wf(),
{
    text_fits(file.text.as_str()) && tree_is_valid(&file.tree)
}

/// Whether every file is valid.
pub fn files_are_valid(files: &Vec<SourceFile>) -> (r: bool)
    ensures
        r == files_wf(files@),
{
    let mut i: usize = 0;
    while i < files.len()
        invariant
            i <= files.len(),
            forall|k: int| 0 <= k < i ==> (#[trigger] files@[k]).wf(),
        decreases files.len() - i,
    {
        if !source_is_valid(&files[i]) {
            return false;
        }
        i = i + 1;
    }
    true
}

/// Whether every occurrence is in one of the files.
pub fn recs_are_valid(recs: &Vec<OccurrenceRec>, files: &Vec<SourceFile>) -> (r: bool)
    ensures
        r == recs_wf(recs@, files@),
{
    let mut i: usize = 0;
    while i < recs.len()
        invariant
            i <= recs.len(),
            forall|k: int| 0 <= k < i ==> (#[trigger] recs@[k]).file < files.len(),
        decreases recs.len() - i,
    {
        if recs[i].file >= files.len() {
            return false;
        }
        i = i + 1;
    }
    true
}

fn candidates_are_valid(model: &SemanticModel, candidates: &Vec<Candidate>) -> (r: bool)
    ensures
        r == candidates_ok(*model, candidates@),
{
    let mut i: usize = 0;
    while i < candidates.len()
        invariant
            i <= candidates.len(),
            forall|k: int|
                0 <= k < i && (#[trigger] candidates@[k]).source is Binding
                    ==> candidates@[k].source->Binding_0 < model.bindings.len(),
        decreases candidates.len() - i,
    {
        if let Source::Binding(id) = &candidates[i].source {
            if *id >= model.bindings.len() {
                return false;
            }
        }
        i = i + 1;
    }
    true
}

fn doc_is_valid(doc: &DocSource) -> (r: bool)
    ensures
        r == doc.wf(),
{
    if !text_fits(doc.text.as_str()) {
        return false;
    }
    let mut i: usize = 0;
    while i < doc.nodes.len()
        invariant
            i <= doc.nodes.len(),
            fits(doc.text@),
            forall|k: int|
                0 <= k < i && (#[trigger] doc.nodes@[k]).fence is Some
                    ==> doc.nodes@[k].fence->0.tree.wf(),
        decreases doc.nodes.len() - i,
    {
        if let Some(fence) = &doc.nodes[i].fence {
            if !tree_is_valid(&fence.tree) {
                return false;
            }
        }
        i = i + 1;
    }
    true
}

fn docs_are_valid(docs: &Vec<DocSource>) -> (r: bool)
    ensures
        r == (forall|i: int| 0 <= i < docs.len() ==> (#[trigger] docs@[i]).wf()),
{
    let mut i: usize = 0;
    while i < docs.len()
        invariant
            i <= docs.len(),
            forall|k: int| 0 <= k < i ==> (#[trigger] docs@[k]).wf(),
        decreases docs.len() - i,
    {
        if !doc_is_valid(&docs[i]) {
            return false;
        }
        i = i + 1;
    }
    true
}

fn names_are_valid(names: &FenceNames, outside: &SemanticModel) -> (r: bool)
    ensures
        r == names.wf(*outside),
{
    if !model_is_valid(&names.model) || names.outer.len() != names.model.idents.len() {
        return false;
    }
    let mut i: usize = 0;
    while i < names.outer.len()
        invariant
            i <= names.outer.len(),
            names.model.wf(),
            names.outer.len() == names.model.idents.len(),
            forall|k: int|
                0 <= k < i && (#[trigger] names.outer@[k]) is Binding
                    ==> names.outer@[k]->Binding_0 < outside.bindings.len(),
        decreases names.outer.len() - i,
    {
        if let Resolution::Binding(id) = &names.outer[i] {
            if *id >= outside.bindings.len() {
                return false;
            }
        }
        i = i + 1;
    }
    true
}

fn handles_are_valid(candidates: &Vec<ScanCandidate>, count: usize) -> (r: bool)
    ensures
        r == handles_ok(candidates@, count as nat),
{
    let mut i: usize = 0;
    while i < candidates.len()
        invariant
            i <= candidates.len(),
            forall|k: int|
                0 <= k < i && (#[trigger] candidates@[k]).file is Some
                    ==> candidates@[k].file->0 < count,
        decreases candidates.len() - i,
    {
        if let Some(file) = candidates[i].file {
            if file >= count {
                proof {
                    assert(candidates@[i as int].file is Some);
                }
                return false;
            }
        }
        i = i + 1;
    }
    true
}

fn recs_fit(recs: &Option<Vec<OccurrenceRec>>, files: &Vec<SourceFile>) -> (r: bool)
    ensures
        r == (recs is Some ==> recs_wf(recs->0@, files@)),
{
    match recs {
        Some(recs) => recs_are_valid(recs, files),
        None => true,
    }
}

/// Whether the URIs and the texts of a rename fit, and every handle is that of a
/// source.
pub fn batch_is_valid(batch: &RenameBatch) -> (r: bool)
    ensures
        r == batch.wf(),
{
    let mut i: usize = 0;
    while i < batch.files.len()
        invariant
            i <= batch.files.len(),
            forall|k: int|
                0 <= k < i ==> byte_len((#[trigger] batch.files@[k]).old_uri@) <= i32::MAX
                    && byte_len(batch.files@[k].new_uri@) <= i32::MAX,
        decreases batch.files.len() - i,
    {
        if !uri_fits(batch.files[i].old_uri.as_str()) || !uri_fits(
            batch.files[i].new_uri.as_str(),
        ) {
            return false;
        }
        i = i + 1;
    }
    if !handles_are_valid(&batch.workspace, batch.sources.len()) || !handles_are_valid(
        &batch.open_docs,
        batch.sources.len(),
    ) {
        return false;
    }
    let mut j: usize = 0;
    while j < batch.sources.len()
        invariant
            j <= batch.sources.len(),
            forall|k: int| 0 <= k < j ==> fits((#[trigger] batch.sources@[k]).text@),
        decreases batch.sources.len() - j,
    {
        if !text_fits(batch.sources[j].text.as_str()) {
            return false;
        }
        j = j + 1;
    }
    let mut p: usize = 0;
    while p < batch.packages.len()
        invariant
            p <= batch.packages.len(),
            forall|k: int| 0 <= k < p ==> fits((#[trigger] batch.packages@[k]).project.text@),
        decreases batch.packages.len() - p,
    {
        if !text_fits(batch.packages[p].project.text.as_str()) {
            return false;
        }
        p = p + 1;
    }
    let mut m: usize = 0;
    while m < batch.members.len()
        invariant
            m <= batch.members.len(),
            forall|k: int| 0 <= k < m ==> (#[trigger] batch.members@[k]).wf(),
        decreases batch.members.len() - m,
    {
        if !text_fits(batch.members[m].text.as_str()) || !tree_is_valid(&batch.members[m].tree) {
            proof {
                assert(!batch.members@[m as int].wf());
            }
            return false;
        }
        m = m + 1;
    }
    true
}

fn table_ascends(table: &[(&str, &str)]) -> (r: bool)
    ensures
        r == keys_ascend(table@),
{
    let ghost t = table@;
    let mut i: usize = 0;
    while i < table.len()
        invariant
            t == table@,
            i <= t.len(),
            forall|a: int, b: int|
                0 <= a < b < i ==> text_less((#[trigger] t[a]).0@, (#[trigger] t[b]).0@),
        decreases t.len() - i,
    {
        if i > 0 && !is_text_less(table[i - 1].0, table[i].0) {
            proof {
                if keys_ascend(t) {
                    assert(text_less(t[i - 1].0@, t[i as int].0@));
                }
            }
            return false;
        }
        proof {
            assert forall|a: int, b: int| 0 <= a < b < i + 1 implies text_less(
                (#[trigger] t[a]).0@,
                (#[trigger] t[b]).0@,
            ) by {
                if b == i && a < i - 1 {
                    lemma_text_less_transitive(t[a].0@, t[i - 1].0@, t[i as int].0@);
                }
            }
        }
        i = i + 1;
    }
    true
}

/// Whether the tables of sequences are sorted.
pub fn tables_are_sorted(tables: &SequenceTables) -> (r: bool)
    ensures
        r == tables.wf(),
{
    table_ascends(tables.latex) && table_ascends(tables.emoji)
}

/// Whether everything in a snapshot is valid.
pub fn snapshot_is_valid(snapshot: &Snapshot) -> (r: bool)
    ensures
        r == snapshot.wf(),
{
    if !files_are_valid(snapshot.files) || !files_are_valid(snapshot.disk) || !tables_are_sorted(
        snapshot.tables,
    ) {
        return false;
    }
    let mut i: usize = 0;
    while i < snapshot.symbols.len()
        invariant
            i <= snapshot.symbols.len(),
            forall|k: int|
                0 <= k < i ==> recs_wf(
                    (#[trigger] snapshot.symbols@[k]).recs@,
                    snapshot.files@,
                ),
        decreases snapshot.symbols.len() - i,
    {
        if !recs_are_valid(&snapshot.symbols[i].recs, snapshot.files) {
            return false;
        }
        i = i + 1;
    }
    let mut j: usize = 0;
    while j < snapshot.texts.len()
        invariant
            j <= snapshot.texts.len(),
            forall|k: int| 0 <= k < j ==> fits((#[trigger] snapshot.texts@[k]).text@),
        decreases snapshot.texts.len() - j,
    {
        if !text_fits(snapshot.texts[j].text.as_str()) {
            return false;
        }
        j = j + 1;
    }
    let mut m: usize = 0;
    while m < snapshot.sources.len()
        invariant
            m <= snapshot.sources.len(),
            forall|k: int| 0 <= k < m ==> fits((#[trigger] snapshot.sources@[k]).text@),
        decreases snapshot.sources.len() - m,
    {
        if !text_fits(snapshot.sources[m].text.as_str()) {
            return false;
        }
        m = m + 1;
    }
    true
}

/// Whether a request can be answered from a snapshot: the document that it is about
/// is valid, and so is what comes with it.
pub fn job_is_valid<T>(job: &ReadJob<T>, snapshot: &Snapshot) -> (r: bool)
    ensures
        r == job.wf(*snapshot),
{
    match job {
        ReadJob::CodeAction { document, .. } => document_is_valid(document),
        ReadJob::DocumentDiagnostic { document, .. } => document_is_valid(document),
        ReadJob::DiagnosticReport { .. } => true,
        ReadJob::Format { document, .. } => document_is_valid(document),
        ReadJob::FormatRange { document, .. } => document_is_valid(document),
        ReadJob::FoldingRanges { document, docs, .. } => document_is_valid(document)
            && docs_are_valid(docs),
        ReadJob::DocumentLinks { document, .. } => document_is_valid(document),
        ReadJob::SelectionRanges { document, .. } => document_is_valid(document),
        ReadJob::SemanticTokensFull { document, .. } => document_is_valid(document),
        ReadJob::SemanticTokensReply { .. } => true,
        ReadJob::SemanticTokensDelta { .. } => true,
        ReadJob::Completion { document, visible, .. } => document_is_valid(document)
            && candidates_are_valid(&document.model, &visible.values) && candidates_are_valid(
            &document.model,
            &visible.macros,
        ),
        ReadJob::CompletionResolve { .. } => true,
        ReadJob::Hover { document, names, .. } => document_is_valid(document) && match names {
            Some(names) => names_are_valid(names, &document.model),
            None => true,
        },
        ReadJob::SignatureHelp { document, names, .. } => document_is_valid(document)
            && model_is_valid(names),
        ReadJob::Definition { document, symbol, .. } => document_is_valid(document)
            && match symbol {
            Some(symbol) => recs_are_valid(&symbol.recs, snapshot.files),
            None => true,
        },
        ReadJob::References { document, recs, .. } => document_is_valid(document) && recs_fit(
            recs,
            snapshot.files,
        ),
        ReadJob::DocumentHighlight { document, .. } => document_is_valid(document),
        ReadJob::PrepareRename { document, .. } => document_is_valid(document),
        ReadJob::Rename { document, recs, .. } => document_is_valid(document) && recs_fit(
            recs,
            snapshot.files,
        ),
        ReadJob::WillRenameFiles { batch, .. } => batch_is_valid(batch),
        ReadJob::PrepareCallHierarchy { document, recs, .. } => document_is_valid(document)
            && recs_fit(recs, snapshot.files),
        ReadJob::CallHierarchyIncoming { source, names, .. } => source_is_valid(source)
            && model_is_valid(names),
        ReadJob::CallHierarchyOutgoing { source, names, .. } => source_is_valid(source)
            && model_is_valid(names),
        ReadJob::Given { .. } => true,
    }
}

/// Whether the URIs that a session is opened with are short enough.
pub fn params_are_valid(params: &InitializeParams) -> (r: bool)
    ensures
        r == params.wf(),
{
    if let Some(root) = &params.root_uri {
        if !uri_fits(root.as_str()) {
            return false;
        }
    }
    if let Some(folders) = &params.workspace_folders {
        let mut i: usize = 0;
        while i < folders.len()
            invariant
                i <= folders.len(),
                params.workspace_folders == Some(*folders),
                forall|k: int| 0 <= k < i ==> byte_len((#[trigger] folders@[k])@) <= i32::MAX,
            decreases folders.len() - i,
        {
            if !uri_fits(folders[i].as_str()) {
                proof {
                    assert(byte_len(params.workspace_folders->0@[i as int]@) > i32::MAX);
                }
                return false;
            }
            i = i + 1;
        }
    }
    true
}

} // verus!
