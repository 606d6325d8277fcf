//! What the names of a file stand for.

use vstd::prelude::*;

use crate::search::{
    first_index, kept, lemma_first_index, lemma_first_index_is, lemma_kept_from, lemma_kept_holds,
    lemma_kept_step,
};
use crate::text::TextRange;

verus! {

/// What a binding binds.
#[derive(Clone, Copy, Debug, PartialEq, Eq, Structural)]
pub enum BindingKind {
    Global,
    Local,
    Const,
    Param,
    KeywordParam,
    ForVar,
    LetVar,
    CatchParam,
    TypeParam,
    Field,
    Function,
    Macro,
    Type,
    Module,
    Import,
}

/// A name that a file binds.
#[derive(Debug)]
pub struct Binding {
    pub name: String,
    pub kind: BindingKind,
    pub def_range: TextRange,
    /// The docstrings attached to it, those alone whose text is known.
    pub docs: Vec<String>,
}

/// How an occurrence uses its name.
#[derive(Clone, Copy, Debug, PartialEq, Eq, Structural)]
pub enum Access {
    Read,
    Write,
    ReadWrite,
}

/// What a name that the file does not bind resolves to.
#[derive(Debug)]
pub enum Resolution {
    /// A binding of the file after all.
    Binding(usize),
    /// A name of the module that the file belongs to, defined in another file.
    Workspace { path: Vec<String>, name: String },
    /// A name that another file of the module imports.
    WorkspaceImport,
    /// A name of Base or Core.
    System { module: String, name: String },
    /// A name that a `using` brings in.
    Using { module: String, name: String },
    Unresolved,
}

/// An occurrence of a name.
#[derive(Debug)]
pub struct Ident {
    pub name: String,
    pub range: TextRange,
    /// The binding that it stands for, where the file has it.
    pub binding: Option<usize>,
    pub is_macro: bool,
    pub access: Access,
    /// What it resolves to otherwise.
    pub resolution: Resolution,
}

/// The binding that an occurrence stands for in the end, where the file has it.
pub open spec fn bound_to(ident: Ident) -> Option<usize> {
    match ident.binding {
        Some(id) => Some(id),
        None => match ident.resolution {
            Resolution::Binding(id) => Some(id),
            _ => None,
        },
    }
}

impl Ident {
    /// The binding that the occurrence stands for in the end.
    pub fn final_binding(&self) -> (r: Option<usize>)
        ensures
            r == bound_to(*self),
    {
        match self.binding {
            Some(id) => Some(id),
            None => match &self.resolution {
                Resolution::Binding(id) => Some(*id),
                _ => None,
            },
        }
    }
}

/// A name in an export list.
#[derive(Debug)]
pub struct ExportEntry {
    pub range: TextRange,
    pub binding: Option<usize>,
}

/// A qualified name, such as `Base.Threads.@spawn`.
#[derive(Debug)]
pub struct QualifiedRead {
    pub path: Vec<String>,
    pub range: TextRange,
    pub is_macro: bool,
}

/// Whether a module is loaded by `using` or by `import`.
#[derive(Clone, Copy, Debug, PartialEq, Eq, Structural)]
pub enum LoadKind {
    Using,
    Import,
}

/// A module that a file loads, whole or by items.
#[derive(Debug)]
pub struct ModuleLoad {
    pub kind: LoadKind,
    pub components: Vec<String>,
    pub whole: bool,
}

/// What the names of a file stand for.
#[derive(Debug)]
pub struct SemanticModel {
    pub bindings: Vec<Binding>,
    pub idents: Vec<Ident>,
    pub exports: Vec<ExportEntry>,
    pub qualified_reads: Vec<QualifiedRead>,
    pub module_loads: Vec<ModuleLoad>,
}

/// Whether a range holds an offset, its end included.
pub open spec fn contains_inclusive(range: TextRange, offset: u32) -> bool {
    range.start <= offset <= range.end
}

/// Whether `range` holds `offset`, its end included.
pub fn range_contains(range: TextRange, offset: u32) -> (r: bool)
    ensures
        r == contains_inclusive(range, offset),
{
    range.start <= offset && offset <= range.end
}

/// That an occurrence spans an offset.
pub open spec fn ident_spans(offset: u32) -> spec_fn(Ident) -> bool {
    |ident: Ident| contains_inclusive(ident.range, offset)
}

/// That a definition spans an offset.
pub open spec fn binding_spans(offset: u32) -> spec_fn(Binding) -> bool {
    |binding: Binding| contains_inclusive(binding.def_range, offset)
}

/// That a qualified name spans an offset.
pub open spec fn read_spans(offset: u32) -> spec_fn(QualifiedRead) -> bool {
    |read: QualifiedRead| contains_inclusive(read.range, offset)
}

impl SemanticModel {
    /// Every binding that is spoken of is one of the file's.
    pub open spec fn wf(&self) -> bool {
        &&& forall|i: int|
            0 <= i < self.idents.len() && (#[trigger] self.idents@[i]).binding is Some
                ==> self.idents@[i].binding->0 < self.bindings.len()
        &&& forall|i: int|
            0 <= i < self.idents.len() && (#[trigger] self.idents@[i]).resolution is Binding
                ==> self.idents@[i].resolution->Binding_0 < self.bindings.len()
        &&& forall|i: int|
            0 <= i < self.exports.len() && (#[trigger] self.exports@[i]).binding is Some
                ==> self.exports@[i].binding->0 < self.bindings.len()
    }

    /// The first occurrence that spans `offset`, or the number of occurrences.
    pub fn ident_at(&self, offset: u32) -> (r: usize)
        ensures
            r == first_index(self.idents@, ident_spans(offset)),
            r <= self.idents.len(),
    {
        let ghost here = ident_spans(offset);
        let mut at: usize = 0;
        while at < self.idents.len() && !range_contains(self.idents[at].range, offset)
            invariant
                at <= self.idents.len(),
                here == ident_spans(offset),
                forall|k: int| 0 <= k < at ==> !here(#[trigger] self.idents@[k]),
            decreases self.idents.len() - at,
        {
            at = at + 1;
        }
        proof {
            lemma_first_index_is(self.idents@, here, at as int);
        }
        at
    }

    /// The first binding whose definition spans `offset`, or the number of
    /// bindings.
    pub fn binding_at(&self, offset: u32) -> (r: usize)
        ensures
            r == first_index(self.bindings@, binding_spans(offset)),
            r <= self.bindings.len(),
    {
        let ghost here = binding_spans(offset);
        let mut at: usize = 0;
        while at < self.bindings.len() && !range_contains(self.bindings[at].def_range, offset)
            invariant
                at <= self.bindings.len(),
                here == binding_spans(offset),
                forall|k: int| 0 <= k < at ==> !here(#[trigger] self.bindings@[k]),
            decreases self.bindings.len() - at,
        {
            at = at + 1;
        }
        proof {
            lemma_first_index_is(self.bindings@, here, at as int);
        }
        at
    }

    /// The first qualified name that spans `offset`, or the number of them.
    pub fn qualified_at(&self, offset: u32) -> (r: usize)
        ensures
            r == first_index(self.qualified_reads@, read_spans(offset)),
            r <= self.qualified_reads.len(),
    {
        let ghost here = read_spans(offset);
        let mut at: usize = 0;
        while at < self.qualified_reads.len() && !range_contains(
            self.qualified_reads[at].range,
            offset,
        )
            invariant
                at <= self.qualified_reads.len(),
                here == read_spans(offset),
                forall|k: int| 0 <= k < at ==> !here(#[trigger] self.qualified_reads@[k]),
            decreases self.qualified_reads.len() - at,
        {
            at = at + 1;
        }
        proof {
            lemma_first_index_is(self.qualified_reads@, here, at as int);
        }
        at
    }
}

/// A place where a binding is named.
#[derive(Clone, Copy, Debug, PartialEq, Eq, Structural)]
pub struct Occurrence {
    pub range: TextRange,
    pub access: Access,
    pub is_def: bool,
}

/// The occurrence that an identifier is of a binding.
pub open spec fn occurrence_of(id: usize) -> spec_fn(Ident) -> Option<Occurrence> {
    |ident: Ident|
        if ident.binding == Some(id) {
            Some(Occurrence { range: ident.range, access: ident.access, is_def: false })
        } else {
            None
        }
}

/// Where a binding is named: its definition, then its other occurrences.
pub open spec fn occurrences_of(model: SemanticModel, id: usize) -> Seq<Occurrence> {
    seq![
        Occurrence {
            range: model.bindings@[id as int].def_range,
            access: Access::Write,
            is_def: true,
        },
    ] + kept(model.idents@, occurrence_of(id))
}

/// The binding under the cursor: that of the occurrence there, or else the one
/// whose definition is there. A name that the file does not bind has none.
pub open spec fn binding_under(model: SemanticModel, offset: u32) -> Option<usize> {
    let ident = first_index(model.idents@, ident_spans(offset));
    let binding = first_index(model.bindings@, binding_spans(offset));
    if ident < model.idents.len() {
        model.idents@[ident].binding
    } else if binding < model.bindings.len() {
        Some(binding as usize)
    } else {
        None
    }
}

/// The name under the cursor: an occurrence, or else a definition.
pub open spec fn name_under(model: SemanticModel, offset: u32) -> Option<TextRange> {
    let ident = first_index(model.idents@, ident_spans(offset));
    let binding = first_index(model.bindings@, binding_spans(offset));
    if ident < model.idents.len() {
        Some(model.idents@[ident].range)
    } else if binding < model.bindings.len() {
        Some(model.bindings@[binding].def_range)
    } else {
        None
    }
}

impl SemanticModel {
    /// Where binding `id` is named.
    pub fn occurrences(&self, id: usize) -> (r: Vec<Occurrence>)
        requires
            id < self.bindings.len(),
        ensures
            r@ == occurrences_of(*self, id),
    {
        let ghost pick = occurrence_of(id);
        let ghost idents = self.idents@;
        let mut out: Vec<Occurrence> = Vec::new();
        out.push(
            Occurrence {
                range: self.bindings[id].def_range,
                access: Access::Write,
                is_def: true,
            },
        );
        let ghost start = out@;
        let mut i: usize = 0;
        proof {
            assert(idents.take(0) =~= Seq::<Ident>::empty());
            assert(start + kept(idents.take(0), pick) =~= start);
        }
        while i < self.idents.len()
            invariant
                i <= idents.len(),
                idents == self.idents@,
                pick == occurrence_of(id),
                out@ == start + kept(idents.take(i as int), pick),
            decreases idents.len() - i,
        {
            proof {
                lemma_kept_step(idents, pick, i as int);
            }
            let ident = &self.idents[i];
            i = i + 1;
            let same = match ident.binding {
                Some(other) => other == id,
                None => false,
            };
            if same {
                out.push(
                    Occurrence { range: ident.range, access: ident.access, is_def: false },
                );
                proof {
                    assert(out@ =~= start + kept(idents.take(i as int), pick));
                }
            }
        }
        proof {
            assert(idents.take(i as int) =~= idents);
            assert(out@ =~= occurrences_of(*self, id));
        }
        out
    }

    /// The binding under the cursor.
    pub fn binding_at_cursor(&self, offset: u32) -> (r: Option<usize>)
        requires
            self.wf(),
        ensures
            r == binding_under(*self, offset),
            r is Some ==> r->0 < self.bindings.len(),
    {
        let ident = self.ident_at(offset);
        if ident < self.idents.len() {
            return self.idents[ident].binding;
        }
        let binding = self.binding_at(offset);
        if binding < self.bindings.len() {
            Some(binding)
        } else {
            None
        }
    }

    /// The name under the cursor.
    pub fn identifier_range_at(&self, offset: u32) -> (r: Option<TextRange>)
        ensures
            r == name_under(*self, offset),
    {
        let ident = self.ident_at(offset);
        if ident < self.idents.len() {
            return Some(self.idents[ident].range);
        }
        let binding = self.binding_at(offset);
        if binding < self.bindings.len() {
            Some(self.bindings[binding].def_range)
        } else {
            None
        }
    }
}

/// Whether an offset is in a range, at its start or right behind it.
pub open spec fn at_name(range: TextRange, offset: u32) -> bool {
    range.start <= offset && offset <= range.end
}

/// The binding under the cursor is that of the first occurrence there, where it has
/// one; without an occurrence it is the first binding whose definition is there. The
/// range under the cursor is that of the same occurrence or definition.
pub proof fn law_cursor_means_the_first_name_there(model: SemanticModel, offset: u32, k: int)
    ensures
        ({
            let idents = model.idents@;
            let bindings = model.bindings@;
            let no_ident = forall|i: int|
                0 <= i < idents.len() ==> !at_name((#[trigger] idents[i]).range, offset);
            let no_binding = forall|i: int|
                0 <= i < bindings.len() ==> !at_name((#[trigger] bindings[i]).def_range, offset);
            &&& 0 <= k < idents.len() && at_name(idents[k].range, offset) && (forall|i: int|
                0 <= i < k ==> !at_name((#[trigger] idents[i]).range, offset)) ==> binding_under(
                model,
                offset,
            ) == idents[k].binding && name_under(model, offset) == Some(idents[k].range)
            &&& no_ident && 0 <= k < bindings.len() && at_name(bindings[k].def_range, offset) && (
            forall|i: int|
                0 <= i < k ==> !at_name((#[trigger] bindings[i]).def_range, offset))
                ==> binding_under(model, offset) == Some(k as usize) && name_under(model, offset)
                == Some(bindings[k].def_range)
            &&& no_ident && no_binding ==> binding_under(model, offset) is None && name_under(
                model,
                offset,
            ) is None
        }),
{
    let idents = model.idents@;
    let bindings = model.bindings@;
    lemma_first_index(idents, ident_spans(offset));
    lemma_first_index(bindings, binding_spans(offset));
    let i = first_index(idents, ident_spans(offset));
    let b = first_index(bindings, binding_spans(offset));
    if i < idents.len() {
        assert(at_name(idents[i].range, offset));
    }
    if b < bindings.len() {
        assert(at_name(bindings[b].def_range, offset));
    }
    if 0 <= k < idents.len() && at_name(idents[k].range, offset) {
        assert(ident_spans(offset)(idents[k]));
    }
    if 0 <= k < bindings.len() && at_name(bindings[k].def_range, offset) {
        assert(binding_spans(offset)(bindings[k]));
    }
}

/// The occurrences of a binding are its definition, which comes first and alone counts
/// as such, and every identifier that stands for it, with the use that it makes of it.
pub proof fn law_occurrences_are_all_that_stands_for_a_binding(
    model: SemanticModel,
    id: usize,
    k: int,
)
    ensures
        occurrences_of(model, id).len() > 0,
        occurrences_of(model, id)[0].is_def && occurrences_of(model, id)[0].range
            == model.bindings@[id as int].def_range && occurrences_of(model, id)[0].access
            == Access::Write,
        0 <= k < model.idents.len() && model.idents@[k].binding == Some(id) ==> exists|j: int|
            0 < j < occurrences_of(model, id).len() && (#[trigger] occurrences_of(
                model,
                id,
            )[j]).range == model.idents@[k].range && occurrences_of(model, id)[j].access
                == model.idents@[k].access,
        0 < k < occurrences_of(model, id).len() ==> !occurrences_of(model, id)[k].is_def && exists|
            i: int,
        |
            0 <= i < model.idents.len() && (#[trigger] model.idents@[i]).binding == Some(id)
                && model.idents@[i].range == occurrences_of(model, id)[k].range
                && model.idents@[i].access == occurrences_of(model, id)[k].access,
{
    let rest = kept(model.idents@, occurrence_of(id));
    let all = occurrences_of(model, id);
    if 0 <= k < model.idents.len() && model.idents@[k].binding == Some(id) {
        let j = lemma_kept_holds(model.idents@, occurrence_of(id), k);
        assert(all[j + 1] == rest[j]);
    }
    if 0 < k < all.len() {
        assert(all[k] == rest[k - 1]);
        let i = lemma_kept_from(model.idents@, occurrence_of(id), k - 1);
        assert(model.idents@[i].binding == Some(id));
    }
}

/// What an occurrence stands for in the end is its binding, or else the one that it
/// resolves to.
pub proof fn law_occurrences_fall_back_on_resolution(ident: Ident)
    ensures
        ident.binding is Some ==> bound_to(ident) == ident.binding,
        ident.binding is None && ident.resolution is Binding ==> bound_to(ident) == Some(
            ident.resolution->Binding_0,
        ),
        ident.binding is None && !(ident.resolution is Binding) ==> bound_to(ident) is None,
{
}

} // verus!
