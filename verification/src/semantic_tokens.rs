//! Semantic tokens: keywords, macro names and literals from the tree, functions,
//! types and modules from what names resolve to.
//!
//! A token never spans a line break, and no two overlap.

use vstd::prelude::*;

use crate::chars::char_is_alphabetic;
use crate::index::{
    find_named, first_named, holds_name, lemma_first_named, lemma_nothing_named, name_index,
    nothing_named, package_of, resolve_submodule, submodule, Library, ModuleIndex, PackageIndex,
};
use crate::resolve::{loaded_module, using_module};
use crate::search::{
    first_found, first_index, kept, law_first_found_is_first, lemma_first_found_stays,
    lemma_first_found_step, lemma_first_index, lemma_kept_from, lemma_kept_holds,
    lemma_kept_step,
};
use crate::semantic::{
    Binding, BindingKind, ExportEntry, Ident, ModuleLoad, QualifiedRead, Resolution, SemanticModel,
};
use crate::sorting::{keys_agree, law_sorted, sort_stable, stable_sorted};
use crate::strings::{
    before_part, behind_part, byte_len, chars_of, law_parts_stand_whole, lemma_byte_len_monotone,
    separated,
};
use crate::text::{
    char_index, char_position, fits, lemma_char_index, lemma_char_index_of_boundary,
    lemma_newlines_step, newlines, LineIndex, PositionEncoding, TextRange,
};
use crate::tree::{is_tree, well_placed, Element, SyntaxKind, SyntaxTree};

verus! {

/// The classes of tokens.
#[derive(Clone, Copy, Debug, PartialEq, Eq, Structural)]
pub enum HighlightKind {
    Keyword,
    Macro,
    String,
    Number,
    Function,
    Type,
    /// A module; the protocol calls it a namespace.
    Module,
}

/// The index of a class in the legend.
pub open spec fn kind_index(kind: HighlightKind) -> u32 {
    match kind {
        HighlightKind::Keyword => 0,
        HighlightKind::Macro => 1,
        HighlightKind::String => 2,
        HighlightKind::Number => 3,
        HighlightKind::Function => 4,
        HighlightKind::Type => 5,
        HighlightKind::Module => 6,
    }
}

/// The index of a class in the legend.
pub fn highlight_index(kind: HighlightKind) -> (r: u32)
    ensures
        r == kind_index(kind),
{
    match kind {
        HighlightKind::Keyword => 0,
        HighlightKind::Macro => 1,
        HighlightKind::String => 2,
        HighlightKind::Number => 3,
        HighlightKind::Function => 4,
        HighlightKind::Type => 5,
        HighlightKind::Module => 6,
    }
}

/// The name of a class in the protocol.
pub open spec fn kind_name(kind: HighlightKind) -> Seq<char> {
    match kind {
        HighlightKind::Keyword => "keyword"@,
        HighlightKind::Macro => "macro"@,
        HighlightKind::String => "string"@,
        HighlightKind::Number => "number"@,
        HighlightKind::Function => "function"@,
        HighlightKind::Type => "type"@,
        HighlightKind::Module => "namespace"@,
    }
}

/// The names of all classes, in the order of their indices.
pub open spec fn legend_names() -> Seq<Seq<char>> {
    seq![
        "keyword"@,
        "macro"@,
        "string"@,
        "number"@,
        "function"@,
        "type"@,
        "namespace"@,
    ]
}

/// The names of all classes, each at its index.
pub fn legend() -> (r: Vec<String>)
    ensures
        r.deep_view() == legend_names(),
        forall|kind: HighlightKind| #[trigger]
            r.deep_view()[kind_index(kind) as int] == kind_name(kind),
{
    let r = vec![
        "keyword".to_owned(),
        "macro".to_owned(),
        "string".to_owned(),
        "number".to_owned(),
        "function".to_owned(),
        "type".to_owned(),
        "namespace".to_owned(),
    ];
    proof {
        assert(r.deep_view() =~= legend_names());
    }
    r
}

/// A stretch of a document with its class.
#[derive(Clone, Copy, Debug, PartialEq, Eq, Structural)]
pub struct Highlight {
    pub range: TextRange,
    pub kind: HighlightKind,
}

impl DeepView for Highlight {
    type V = Highlight;

    open spec fn deep_view(&self) -> Highlight {
        *self
    }
}

/// Whether a token is a keyword.
pub open spec fn keyword(kind: SyntaxKind) -> bool {
    match kind {
        SyntaxKind::FUNCTION_KW
        | SyntaxKind::MACRO_KW
        | SyntaxKind::END_KW
        | SyntaxKind::IF_KW
        | SyntaxKind::ELSEIF_KW
        | SyntaxKind::ELSE_KW
        | SyntaxKind::BEGIN_KW
        | SyntaxKind::TRUE_KW
        | SyntaxKind::FALSE_KW
        | SyntaxKind::WHILE_KW
        | SyntaxKind::FOR_KW
        | SyntaxKind::LET_KW
        | SyntaxKind::QUOTE_KW
        | SyntaxKind::TRY_KW
        | SyntaxKind::CATCH_KW
        | SyntaxKind::FINALLY_KW
        | SyntaxKind::STRUCT_KW
        | SyntaxKind::MUTABLE_KW
        | SyntaxKind::MODULE_KW
        | SyntaxKind::BAREMODULE_KW
        | SyntaxKind::DO_KW
        | SyntaxKind::RETURN_KW
        | SyntaxKind::BREAK_KW
        | SyntaxKind::CONTINUE_KW
        | SyntaxKind::CONST_KW
        | SyntaxKind::GLOBAL_KW
        | SyntaxKind::LOCAL_KW
        | SyntaxKind::IMPORT_KW
        | SyntaxKind::USING_KW
        | SyntaxKind::EXPORT_KW
        | SyntaxKind::WHERE_KW => true,
        _ => false,
    }
}

/// Whether a token is a keyword; `true` and `false` are.
pub fn is_keyword(kind: SyntaxKind) -> (r: bool)
    ensures
        r == keyword(kind),
{
    match kind {
        SyntaxKind::FUNCTION_KW
        | SyntaxKind::MACRO_KW
        | SyntaxKind::END_KW
        | SyntaxKind::IF_KW
        | SyntaxKind::ELSEIF_KW
        | SyntaxKind::ELSE_KW
        | SyntaxKind::BEGIN_KW
        | SyntaxKind::TRUE_KW
        | SyntaxKind::FALSE_KW
        | SyntaxKind::WHILE_KW
        | SyntaxKind::FOR_KW
        | SyntaxKind::LET_KW
        | SyntaxKind::QUOTE_KW
        | SyntaxKind::TRY_KW
        | SyntaxKind::CATCH_KW
        | SyntaxKind::FINALLY_KW
        | SyntaxKind::STRUCT_KW
        | SyntaxKind::MUTABLE_KW
        | SyntaxKind::MODULE_KW
        | SyntaxKind::BAREMODULE_KW
        | SyntaxKind::DO_KW
        | SyntaxKind::RETURN_KW
        | SyntaxKind::BREAK_KW
        | SyntaxKind::CONTINUE_KW
        | SyntaxKind::CONST_KW
        | SyntaxKind::GLOBAL_KW
        | SyntaxKind::LOCAL_KW
        | SyntaxKind::IMPORT_KW
        | SyntaxKind::USING_KW
        | SyntaxKind::EXPORT_KW
        | SyntaxKind::WHERE_KW => true,
        _ => false,
    }
}

/// Whether a token is blank.
pub open spec fn trivia(kind: SyntaxKind) -> bool {
    kind == SyntaxKind::WHITESPACE || kind == SyntaxKind::NEWLINE
}

/// Whether a token is blank.
pub fn is_trivia(kind: SyntaxKind) -> (r: bool)
    ensures
        r == trivia(kind),
{
    match kind {
        SyntaxKind::WHITESPACE | SyntaxKind::NEWLINE => true,
        _ => false,
    }
}

/// The class of a token by its kind alone: keywords and literals.
pub open spec fn class_by_kind(kind: SyntaxKind) -> Option<HighlightKind> {
    if keyword(kind) {
        Some(HighlightKind::Keyword)
    } else {
        match kind {
            SyntaxKind::CHAR => Some(HighlightKind::String),
            SyntaxKind::INTEGER
            | SyntaxKind::BIN_INT
            | SyntaxKind::OCT_INT
            | SyntaxKind::HEX_INT
            | SyntaxKind::FLOAT
            | SyntaxKind::FLOAT32 => Some(HighlightKind::Number),
            _ => None,
        }
    }
}

/// The class of a token by its kind alone.
pub fn classify_by_kind(kind: SyntaxKind) -> (r: Option<HighlightKind>)
    ensures
        r == class_by_kind(kind),
{
    if is_keyword(kind) {
        return Some(HighlightKind::Keyword);
    }
    match kind {
        SyntaxKind::CHAR => Some(HighlightKind::String),
        SyntaxKind::INTEGER
        | SyntaxKind::BIN_INT
        | SyntaxKind::OCT_INT
        | SyntaxKind::HEX_INT
        | SyntaxKind::FLOAT
        | SyntaxKind::FLOAT32 => Some(HighlightKind::Number),
        _ => None,
    }
}

/// The class of a token in a string or command literal: content and delimiters
/// are string, prefix and suffix are macro.
pub open spec fn class_in_string(kind: SyntaxKind) -> Option<HighlightKind> {
    match kind {
        SyntaxKind::STRING_CONTENT
        | SyntaxKind::STRING_DELIM_OPEN
        | SyntaxKind::STRING_DELIM_CLOSE
        | SyntaxKind::CMD_DELIM_OPEN
        | SyntaxKind::CMD_DELIM_CLOSE => Some(HighlightKind::String),
        SyntaxKind::STRING_PREFIX | SyntaxKind::STRING_SUFFIX => Some(HighlightKind::Macro),
        _ => class_by_kind(kind),
    }
}

/// The class of a token in a string or command literal.
pub fn classify_in_string(kind: SyntaxKind) -> (r: Option<HighlightKind>)
    ensures
        r == class_in_string(kind),
{
    match kind {
        SyntaxKind::STRING_CONTENT
        | SyntaxKind::STRING_DELIM_OPEN
        | SyntaxKind::STRING_DELIM_CLOSE
        | SyntaxKind::CMD_DELIM_OPEN
        | SyntaxKind::CMD_DELIM_CLOSE => Some(HighlightKind::String),
        SyntaxKind::STRING_PREFIX | SyntaxKind::STRING_SUFFIX => Some(HighlightKind::Macro),
        _ => classify_by_kind(kind),
    }
}

/// The last token that is not blank directly under `node`, among the elements
/// before `upto`.
pub open spec fn last_name_token(t: Seq<Element>, node: int, upto: int) -> Option<int>
    decreases upto,
{
    if upto <= node + 1 || upto <= 0 {
        None
    } else {
        let e = t[upto - 1];
        if e.is_token && e.parent == node && !trivia(e.kind) {
            Some(upto - 1)
        } else {
            last_name_token(t, node, upto - 1)
        }
    }
}

/// Whether a token is the last that is not blank directly under its node.
pub open spec fn ends_its_node(t: Seq<Element>, i: int) -> bool {
    let node = t[i].parent as int;
    last_name_token(t, node, t[node].end as int) == Some(i)
}

/// Whether token `index` is the last that is not blank directly under its node.
pub fn is_last_name_token(tree: &SyntaxTree, index: usize) -> (r: bool)
    requires
        tree.wf(),
        0 < index < tree.elements.len(),
    ensures
        r == ends_its_node(tree@, index as int),
{
    let ghost t = tree@;
    proof {
        assert(well_placed(t, index as int));
    }
    let node = tree.elements[index].parent;
    proof {
        crate::tree::lemma_ends_bounded(t, node as int);
    }
    let mut i: usize = tree.elements[node].end;
    while i > node + 1
        invariant
            t == tree@,
            node < t.len(),
            i <= t.len(),
            node < t[node as int].end,
            t[index as int].parent == node,
            index < t.len(),
            last_name_token(t, node as int, t[node as int].end as int) == last_name_token(
                t,
                node as int,
                i as int,
            ),
        decreases i,
    {
        let e = tree.elements[i - 1];
        if e.is_token && e.parent == node && !is_trivia(e.kind) {
            return i - 1 == index;
        }
        i = i - 1;
    }
    false
}

/// The class of a token in a macro name: the sigil and the last component are
/// macro, and the closing bracket of `@(expr)` is not.
pub open spec fn class_in_macro_name(t: Seq<Element>, i: int) -> Option<HighlightKind> {
    if t[i].kind == SyntaxKind::AT || (t[i].kind != SyntaxKind::RPAREN && ends_its_node(t, i)) {
        Some(HighlightKind::Macro)
    } else {
        None
    }
}

/// The class of a token in a macro name.
pub fn classify_in_macro_name(tree: &SyntaxTree, index: usize) -> (r: Option<HighlightKind>)
    requires
        tree.wf(),
        0 < index < tree.elements.len(),
    ensures
        r == class_in_macro_name(tree@, index as int),
{
    match tree.elements[index].kind {
        SyntaxKind::AT => Some(HighlightKind::Macro),
        SyntaxKind::RPAREN => None,
        _ => if is_last_name_token(tree, index) {
            Some(HighlightKind::Macro)
        } else {
            None
        },
    }
}

/// The class of a token, by the node it stands in.
pub open spec fn class_of(t: Seq<Element>, i: int) -> Option<HighlightKind> {
    match t[t[i].parent as int].kind {
        SyntaxKind::MACRO_NAME => class_in_macro_name(t, i),
        SyntaxKind::STRING_LITERAL | SyntaxKind::CMD_LITERAL => class_in_string(t[i].kind),
        _ => class_by_kind(t[i].kind),
    }
}

/// The class of a token.
pub fn classify(tree: &SyntaxTree, index: usize) -> (r: Option<HighlightKind>)
    requires
        tree.wf(),
        0 < index < tree.elements.len(),
    ensures
        r == class_of(tree@, index as int),
{
    proof {
        assert(well_placed(tree@, index as int));
    }
    let e = tree.elements[index];
    match tree.elements[e.parent].kind {
        SyntaxKind::MACRO_NAME => classify_in_macro_name(tree, index),
        SyntaxKind::STRING_LITERAL | SyntaxKind::CMD_LITERAL => classify_in_string(e.kind),
        _ => classify_by_kind(e.kind),
    }
}

/// Stretches with one more behind them; where it is of the class of the last one
/// and begins where that ends, the two are one.
pub open spec fn coalesced(before: Seq<Highlight>, next: Highlight) -> Seq<Highlight> {
    if before.len() > 0 && before.last().kind == next.kind && before.last().range.end
        == next.range.start {
        before.drop_last().push(
            Highlight {
                range: TextRange { start: before.last().range.start, end: next.range.end },
                kind: next.kind,
            },
        )
    } else {
        before.push(next)
    }
}

/// The stretches of the first `n` elements that have a class of their own.
pub open spec fn syntax_part(t: Seq<Element>, n: int) -> Seq<Highlight>
    decreases n,
{
    if n <= 0 {
        Seq::empty()
    } else {
        let before = syntax_part(t, n - 1);
        let e = t[n - 1];
        if n > 1 && e.is_token && class_of(t, n - 1) is Some {
            coalesced(before, Highlight { range: e.range, kind: class_of(t, n - 1)->0 })
        } else {
            before
        }
    }
}

/// The stretches that the tree alone gives, in the order of the document.
pub fn syntax_spans(tree: &SyntaxTree) -> (r: Vec<Highlight>)
    requires
        tree.wf(),
    ensures
        r@ == syntax_part(tree@, tree@.len() as int),
{
    let ghost t = tree@;
    let mut spans: Vec<Highlight> = Vec::new();
    let mut i: usize = 0;
    while i < tree.elements.len()
        invariant
            tree.wf(),
            t == tree@,
            i <= t.len(),
            spans@ == syntax_part(t, i as int),
        decreases t.len() - i,
    {
        let e = tree.elements[i];
        if i > 0 && e.is_token {
            if let Some(kind) = classify(tree, i) {
                let count = spans.len();
                let joins = count > 0 && spans[count - 1].kind == kind && spans[count
                    - 1].range.end == e.range.start;
                if joins {
                    let start = spans[count - 1].range.start;
                    spans.pop();
                    spans.push(Highlight { range: TextRange { start, end: e.range.end }, kind });
                } else {
                    spans.push(Highlight { range: e.range, kind });
                }
            }
        }
        i = i + 1;
    }
    spans
}

/// The stretches of a sorted list, less each that begins before the one kept
/// before it ends.
pub open spec fn without_overlaps(spans: Seq<Highlight>) -> Seq<Highlight>
    decreases spans.len(),
{
    if spans.len() == 0 {
        Seq::empty()
    } else {
        let before = without_overlaps(spans.drop_last());
        if before.len() > 0 && spans.last().range.start < before.last().range.end {
            before
        } else {
            before.push(spans.last())
        }
    }
}

/// Drops each stretch that begins before the one kept before it ends.
pub fn drop_overlaps(spans: &Vec<Highlight>) -> (r: Vec<Highlight>)
    ensures
        r@ == without_overlaps(spans@),
{
    let mut out: Vec<Highlight> = Vec::new();
    let mut i: usize = 0;
    proof {
        assert(spans@.take(0) =~= Seq::<Highlight>::empty());
    }
    while i < spans.len()
        invariant
            i <= spans.len(),
            out@ == without_overlaps(spans@.take(i as int)),
        decreases spans.len() - i,
    {
        proof {
            assert(spans@.take(i + 1).drop_last() =~= spans@.take(i as int));
        }
        let count = out.len();
        if count > 0 && spans[i].range.start < out[count - 1].range.end {
        } else {
            out.push(spans[i]);
        }
        i = i + 1;
    }
    proof {
        assert(spans@.take(i as int) =~= spans@);
    }
    out
}

/// Whether stretches come in order and none overlaps the next.
pub open spec fn in_order(spans: Seq<Highlight>) -> bool {
    &&& forall|i: int|
        0 <= i < spans.len() ==> (#[trigger] spans[i]).range.start <= spans[i].range.end
    &&& forall|i: int, j: int|
        0 <= i < j < spans.len() ==> (#[trigger] spans[i]).range.end <= (
        #[trigger] spans[j]).range.start
}

/// What is left once overlaps are dropped comes in order, and none overlaps.
pub proof fn law_no_overlaps(spans: Seq<Highlight>)
    requires
        forall|i: int|
            0 <= i < spans.len() ==> (#[trigger] spans[i]).range.start <= spans[i].range.end,
    ensures
        in_order(without_overlaps(spans)),
    decreases spans.len(),
{
    if spans.len() > 0 {
        let front = spans.drop_last();
        assert forall|i: int| 0 <= i < front.len() implies (#[trigger] front[i]).range.start
            <= front[i].range.end by {
            assert(front[i] == spans[i]);
        }
        law_no_overlaps(front);
        let before = without_overlaps(front);
        let after = without_overlaps(spans);
        let last = spans[spans.len() - 1];
        if after.len() > before.len() {
            assert forall|i: int, j: int| 0 <= i < j < after.len() implies (
            #[trigger] after[i]).range.end <= (#[trigger] after[j]).range.start by {
                if j == before.len() {
                    let k = before.len() - 1;
                    if i < k {
                        assert(before[i].range.end <= before[k].range.start);
                        assert(before[k].range.start <= before[k].range.end);
                    }
                }
            }
            assert forall|i: int| 0 <= i < after.len() implies (#[trigger] after[i]).range.start
                <= after[i].range.end by {
                if i < before.len() {
                    assert(after[i] == before[i]);
                }
            }
        }
    }
}

/// The class that a binding gives its name; locals, parameters, constants and
/// imports give none.
pub open spec fn binding_class(kind: BindingKind) -> Option<HighlightKind> {
    match kind {
        BindingKind::Function => Some(HighlightKind::Function),
        BindingKind::Macro => Some(HighlightKind::Macro),
        BindingKind::Type => Some(HighlightKind::Type),
        BindingKind::Module => Some(HighlightKind::Module),
        _ => None,
    }
}

/// The class that a binding gives its name.
pub fn classify_binding(kind: BindingKind) -> (r: Option<HighlightKind>)
    ensures
        r == binding_class(kind),
{
    match kind {
        BindingKind::Function => Some(HighlightKind::Function),
        BindingKind::Macro => Some(HighlightKind::Macro),
        BindingKind::Type => Some(HighlightKind::Type),
        BindingKind::Module => Some(HighlightKind::Module),
        _ => None,
    }
}

/// Whether a name is an identifier and not an operator.
pub open spec fn identifier_shaped(name: Seq<char>) -> bool {
    name.len() > 0 && (char_is_alphabetic(name[0]) || name[0] == '_')
}

/// Whether `name` is an identifier and not an operator.
pub fn is_identifier_shaped(name: &str) -> (r: bool)
    ensures
        r == identifier_shaped(name@),
{
    let chars = chars_of(name);
    chars.len() > 0 && (chars[0].is_alphabetic() || chars[0] == '_')
}

/// The class of a name that a module defines: macros by their sigil, then
/// functions, types and submodules; constants have none.
pub open spec fn module_class(module: ModuleIndex, name: Seq<char>) -> Option<HighlightKind> {
    if name.len() > 0 && name[0] == '@' {
        if holds_name(module.macros@, name) {
            Some(HighlightKind::Macro)
        } else {
            None
        }
    } else if holds_name(module.functions@, name) {
        Some(HighlightKind::Function)
    } else if holds_name(module.types@, name) {
        Some(HighlightKind::Type)
    } else if holds_name(module.submodules@, name) {
        Some(HighlightKind::Module)
    } else {
        None
    }
}

/// The class of a name that a module defines.
pub fn library_kind(module: &ModuleIndex, name: &str) -> (r: Option<HighlightKind>)
    ensures
        r == module_class(*module, name@),
{
    let chars = chars_of(name);
    if chars.len() > 0 && chars[0] == '@' {
        if find_named(&module.macros, name) < module.macros.len() {
            return Some(HighlightKind::Macro);
        }
        return None;
    }
    if find_named(&module.functions, name) < module.functions.len() {
        Some(HighlightKind::Function)
    } else if find_named(&module.types, name) < module.types.len() {
        Some(HighlightKind::Type)
    } else if find_named(&module.submodules, name) < module.submodules.len() {
        Some(HighlightKind::Module)
    } else {
        None
    }
}

/// That a load brings in a module that gives a name a class.
pub open spec fn load_class(library: Library, module: Seq<char>, name: Seq<char>) -> spec_fn(
    ModuleLoad,
) -> Option<HighlightKind> {
    |load: ModuleLoad|
        match using_module(library, load, module) {
            Some((_, found)) => module_class(found, name),
            None => None,
        }
}

/// The class of a name that a `using` brings in: from the package of the module's
/// name, or else from the first load that leads to such a module.
pub open spec fn using_class(
    loads: Seq<ModuleLoad>,
    library: Library,
    module: Seq<char>,
    name: Seq<char>,
) -> Option<HighlightKind> {
    let direct = match package_of(library, module) {
        Some(package) => module_class(package.root, name),
        None => None,
    };
    if direct is Some {
        direct
    } else {
        first_found(loads, load_class(library, module, name))
    }
}

/// The class of a name that a `using` brings in.
pub fn using_kind(model: &SemanticModel, library: &Library, module: &str, name: &str) -> (r: Option<
    HighlightKind,
>)
    ensures
        r == using_class(model.module_loads@, *library, module@, name@),
{
    if let Some(package) = library.package(module) {
        if let Some(kind) = library_kind(&package.root, name) {
            return Some(kind);
        }
    }
    let ghost find = load_class(*library, module@, name@);
    let ghost loads = model.module_loads@;
    let mut i: usize = 0;
    proof {
        assert(loads.take(0) =~= Seq::<ModuleLoad>::empty());
    }
    while i < model.module_loads.len()
        invariant
            i <= loads.len(),
            loads == model.module_loads@,
            find == load_class(*library, module@, name@),
            first_found(loads.take(i as int), find) is None,
            first_found(loads, find) == using_class(loads, *library, module@, name@),
        decreases loads.len() - i,
    {
        proof {
            lemma_first_found_step(loads, find, i as int);
        }
        if let Some((_, found)) = loaded_module(library, &model.module_loads[i], module) {
            if let Some(kind) = library_kind(found, name) {
                proof {
                    lemma_first_found_stays(loads, find, i + 1);
                }
                return Some(kind);
            }
        }
        i = i + 1;
    }
    proof {
        assert(loads.take(i as int) =~= loads);
    }
    None
}

/// The class of a name that the file does not bind, by what it resolves to.
pub open spec fn free_class(
    model: SemanticModel,
    library: Library,
    workspace: Option<&PackageIndex>,
    resolution: Resolution,
) -> Option<HighlightKind> {
    match resolution {
        Resolution::Binding(id) => binding_class(model.bindings@[id as int].kind),
        Resolution::Workspace { path, name } => match workspace {
            Some(package) => match submodule(package.root, path.deep_view()) {
                Some(host) => module_class(host, name@),
                None => None,
            },
            None => None,
        },
        Resolution::System { module, name } => match package_of(library, module@) {
            Some(package) => module_class(package.root, name@),
            None => None,
        },
        Resolution::Using { module, name } => using_class(
            model.module_loads@,
            library,
            module@,
            name@,
        ),
        Resolution::WorkspaceImport => None,
        Resolution::Unresolved => None,
    }
}

/// The class of a name that the file does not bind.
pub fn classify_free_read(
    model: &SemanticModel,
    library: &Library,
    workspace: Option<&PackageIndex>,
    resolution: &Resolution,
) -> (r: Option<HighlightKind>)
    requires
        resolution is Binding ==> resolution->Binding_0 < model.bindings.len(),
    ensures
        r == free_class(*model, *library, workspace, *resolution),
{
    match resolution {
        Resolution::Binding(id) => classify_binding(model.bindings[*id].kind),
        Resolution::Workspace { path, name } => {
            let package = match workspace {
                Some(package) => package,
                None => {
                    return None;
                },
            };
            proof {
                assert(path.deep_view().skip(0) =~= path.deep_view());
            }
            match resolve_submodule(&package.root, path, 0) {
                Some(host) => library_kind(host, name.as_str()),
                None => None,
            }
        },
        Resolution::System { module, name } => match library.package(module.as_str()) {
            Some(package) => library_kind(&package.root, name.as_str()),
            None => None,
        },
        Resolution::Using { module, name } => using_kind(
            model,
            library,
            module.as_str(),
            name.as_str(),
        ),
        Resolution::WorkspaceImport => None,
        Resolution::Unresolved => None,
    }
}

/// The stretch of a definition's name.
pub open spec fn binding_span() -> spec_fn(Binding) -> Option<Highlight> {
    |binding: Binding|
        if identifier_shaped(binding.name@) && binding_class(binding.kind) is Some {
            Some(Highlight { range: binding.def_range, kind: binding_class(binding.kind)->0 })
        } else {
            None
        }
}

/// The stretch of a name in an export list.
pub open spec fn export_span(bindings: Seq<Binding>) -> spec_fn(ExportEntry) -> Option<Highlight> {
    |entry: ExportEntry|
        if entry.binding is Some && binding_class(bindings[entry.binding->0 as int].kind) is Some {
            Some(
                Highlight {
                    range: entry.range,
                    kind: binding_class(bindings[entry.binding->0 as int].kind)->0,
                },
            )
        } else {
            None
        }
}

/// The class of an occurrence; macros show by themselves and operators stay
/// plain.
pub open spec fn ident_class(
    model: SemanticModel,
    library: Library,
    workspace: Option<&PackageIndex>,
    ident: Ident,
) -> Option<HighlightKind> {
    if ident.is_macro || !identifier_shaped(ident.name@) {
        None
    } else {
        match ident.binding {
            Some(id) => binding_class(model.bindings@[id as int].kind),
            None => free_class(model, library, workspace, ident.resolution),
        }
    }
}

/// The stretch of an occurrence.
pub open spec fn ident_span(
    model: SemanticModel,
    library: Library,
    workspace: Option<&PackageIndex>,
) -> spec_fn(Ident) -> Option<Highlight> {
    |ident: Ident|
        match ident_class(model, library, workspace, ident) {
            Some(kind) => Some(Highlight { range: ident.range, kind }),
            None => None,
        }
}

fn binding_spans(model: &SemanticModel, out: &mut Vec<Highlight>)
    ensures
        final(out)@ == old(out)@ + kept(model.bindings@, binding_span()),
{
    let ghost start = out@;
    let ghost all = model.bindings@;
    let mut i: usize = 0;
    proof {
        assert(all.take(0) =~= Seq::<Binding>::empty());
        assert(start + kept(all.take(0), binding_span()) =~= start);
    }
    while i < model.bindings.len()
        invariant
            i <= all.len(),
            all == model.bindings@,
            out@ == start + kept(all.take(i as int), binding_span()),
        decreases all.len() - i,
    {
        proof {
            lemma_kept_step(all, binding_span(), i as int);
        }
        let binding = &model.bindings[i];
        i = i + 1;
        if is_identifier_shaped(binding.name.as_str()) {
            if let Some(kind) = classify_binding(binding.kind) {
                out.push(Highlight { range: binding.def_range, kind });
                proof {
                    assert(out@ =~= start + kept(all.take(i as int), binding_span()));
                }
            }
        }
    }
    proof {
        assert(all.take(i as int) =~= all);
    }
}

fn export_spans(model: &SemanticModel, out: &mut Vec<Highlight>)
    requires
        model.wf(),
    ensures
        final(out)@ == old(out)@ + kept(model.exports@, export_span(model.bindings@)),
{
    let ghost start = out@;
    let ghost all = model.exports@;
    let ghost pick = export_span(model.bindings@);
    let mut i: usize = 0;
    proof {
        assert(all.take(0) =~= Seq::<ExportEntry>::empty());
        assert(start + kept(all.take(0), pick) =~= start);
    }
    while i < model.exports.len()
        invariant
            model.wf(),
            i <= all.len(),
            all == model.exports@,
            pick == export_span(model.bindings@),
            out@ == start + kept(all.take(i as int), pick),
        decreases all.len() - i,
    {
        proof {
            lemma_kept_step(all, pick, i as int);
        }
        let entry = &model.exports[i];
        i = i + 1;
        if let Some(id) = entry.binding {
            if let Some(kind) = classify_binding(model.bindings[id].kind) {
                out.push(Highlight { range: entry.range, kind });
                proof {
                    assert(out@ =~= start + kept(all.take(i as int), pick));
                }
            }
        }
    }
    proof {
        assert(all.take(i as int) =~= all);
    }
}

fn ident_spans(
    model: &SemanticModel,
    library: &Library,
    workspace: Option<&PackageIndex>,
    out: &mut Vec<Highlight>,
)
    requires
        model.wf(),
    ensures
        final(out)@ == old(out)@ + kept(model.idents@, ident_span(*model, *library, workspace)),
{
    let ghost start = out@;
    let ghost all = model.idents@;
    let ghost pick = ident_span(*model, *library, workspace);
    let mut i: usize = 0;
    proof {
        assert(all.take(0) =~= Seq::<Ident>::empty());
        assert(start + kept(all.take(0), pick) =~= start);
    }
    while i < model.idents.len()
        invariant
            model.wf(),
            i <= all.len(),
            all == model.idents@,
            pick == ident_span(*model, *library, workspace),
            out@ == start + kept(all.take(i as int), pick),
        decreases all.len() - i,
    {
        proof {
            lemma_kept_step(all, pick, i as int);
        }
        let ident = &model.idents[i];
        i = i + 1;
        if !ident.is_macro && is_identifier_shaped(ident.name.as_str()) {
            let kind = match ident.binding {
                Some(id) => classify_binding(model.bindings[id].kind),
                None => classify_free_read(model, library, workspace, &ident.resolution),
            };
            if let Some(kind) = kind {
                out.push(Highlight { range: ident.range, kind });
                proof {
                    assert(out@ =~= start + kept(all.take(i as int), pick));
                }
            }
        }
    }
    proof {
        assert(all.take(i as int) =~= all);
    }
}

/// The first place from `from` on where `part` stands, ending at `end` at the
/// latest.
pub open spec fn find_part(s: Seq<char>, part: Seq<char>, from: int, end: int) -> Option<int>
    decreases end + 1 - from,
{
    if from < 0 || from + part.len() > end || end > s.len() {
        None
    } else if s.subrange(from, from + part.len()) == part {
        Some(from)
    } else {
        find_part(s, part, from + 1, end)
    }
}

/// Where the parts of a qualified name begin, each behind the one before.
pub open spec fn part_starts(s: Seq<char>, path: Seq<Seq<char>>, from: int, end: int) -> Option<
    Seq<int>,
>
    decreases path.len(),
{
    if path.len() == 0 {
        Some(Seq::empty())
    } else {
        match part_starts(s, path.drop_last(), from, end) {
            Some(starts) => {
                let cursor = if starts.len() == 0 {
                    from
                } else {
                    starts.last() + path[path.len() - 2].len()
                };
                match find_part(s, path.last(), cursor, end) {
                    Some(at) => Some(starts.push(at)),
                    None => None,
                }
            },
            None => None,
        }
    }
}

/// The bytes of the part that begins at character `start`.
pub open spec fn part_range(s: Seq<char>, start: int, part: Seq<char>) -> TextRange {
    TextRange {
        start: byte_len(s.take(start)) as u32,
        end: byte_len(s.take(start + part.len())) as u32,
    }
}

/// Whether a range lies between characters of a text.
pub open spec fn sliceable(s: Seq<char>, range: TextRange) -> bool {
    crate::text::slice_at(s, range.start as int, range.end as int) is Some
}

/// The bytes of each part of a qualified name within a range, or `None` where one
/// is not to be found there.
pub open spec fn part_ranges(s: Seq<char>, range: TextRange, path: Seq<Seq<char>>) -> Option<
    Seq<TextRange>,
> {
    if sliceable(s, range) {
        match part_starts(
            s,
            path,
            char_index(s, range.start as int),
            char_index(s, range.end as int),
        ) {
            Some(starts) => Some(
                Seq::new(path.len(), |i: int| part_range(s, starts[i], path[i])),
            ),
            None => None,
        }
    } else {
        None
    }
}

proof fn lemma_find_part(s: Seq<char>, part: Seq<char>, from: int, end: int)
    requires
        0 <= from,
        end <= s.len(),
    ensures
        find_part(s, part, from, end) is Some ==> from <= find_part(s, part, from, end)->0
            && find_part(s, part, from, end)->0 + part.len() <= end,
    decreases end + 1 - from,
{
    if !(from + part.len() > end || s.subrange(from, from + part.len()) == part) {
        lemma_find_part(s, part, from + 1, end);
    }
}

proof fn lemma_part_starts_len(s: Seq<char>, path: Seq<Seq<char>>, from: int, end: int)
    ensures
        part_starts(s, path, from, end) is Some ==> part_starts(s, path, from, end)->0.len()
            == path.len(),
    decreases path.len(),
{
    if path.len() > 0 {
        lemma_part_starts_len(s, path.drop_last(), from, end);
    }
}

fn find_chars(chars: &Vec<char>, part: &Vec<char>, from: usize, end: usize) -> (r: Option<usize>)
    requires
        from <= end <= chars.len(),
    ensures
        match r {
            Some(at) => find_part(chars@, part@, from as int, end as int) == Some(at as int) && from
                <= at && at + part.len() <= end,
            None => find_part(chars@, part@, from as int, end as int) is None,
        },
{
    let ghost s = chars@;
    let mut i: usize = from;
    while part.len() <= end - i
        invariant
            s == chars@,
            from <= i <= end <= s.len(),
            find_part(s, part@, from as int, end as int) == find_part(
                s,
                part@,
                i as int,
                end as int,
            ),
        decreases end - i,
    {
        let mut k: usize = 0;
        while k < part.len() && chars[i + k] == part[k]
            invariant
                s == chars@,
                i <= end <= s.len(),
                part.len() <= end - i,
                k <= part.len(),
                forall|j: int| 0 <= j < k ==> s[i + j] == part@[j],
            decreases part.len() - k,
        {
            k = k + 1;
        }
        if k == part.len() {
            proof {
                assert(s.subrange(i as int, i + part.len()) =~= part@);
            }
            return Some(i);
        }
        proof {
            assert(s.subrange(i as int, i + part.len())[k as int] != part@[k as int]);
        }
        if i == end {
            return None;
        }
        i = i + 1;
    }
    None
}

/// The bytes of each part of a qualified name within `range`, or `None` where one
/// is not to be found there.
pub fn component_ranges(line_index: &LineIndex, range: TextRange, path: &Vec<String>) -> (r: Option<
    Vec<TextRange>,
>)
    requires
        line_index.wf(),
    ensures
        match r {
            Some(ranges) => part_ranges(line_index@, range, path.deep_view()) == Some(ranges@),
            None => part_ranges(line_index@, range, path.deep_view()) is None,
        },
{
    let ghost s = line_index@;
    let ghost parts = path.deep_view();
    let slice = line_index.slice(range.start as usize, range.end as usize);
    if slice.is_none() {
        return None;
    }
    proof {
        line_index.lemma_fits();
        lemma_char_index(s, range.start as int);
        lemma_char_index(s, range.end as int);
        if char_index(s, range.end as int) < char_index(s, range.start as int) {
            lemma_byte_len_monotone(
                s,
                char_index(s, range.end as int) + 1,
                char_index(s, range.start as int),
            );
        }
    }
    let (from, base) = line_index.char_at(range.start as usize);
    let (end, _) = line_index.char_at(range.end as usize);
    let chars = line_index.chars();
    let mut ranges: Vec<TextRange> = Vec::new();
    let ghost mut starts: Seq<int> = Seq::empty();
    let mut cursor: usize = from;
    let mut at: usize = base;
    let mut i: usize = 0;
    proof {
        assert(parts.take(0) =~= Seq::<Seq<char>>::empty());
    }
    while i < path.len()
        invariant
            line_index.wf(),
            s == line_index@,
            fits(s),
            chars@ == s,
            sliceable(s, range),
            from == char_index(s, range.start as int),
            end == char_index(s, range.end as int),
            parts == path.deep_view(),
            i <= parts.len(),
            from <= cursor <= end <= s.len(),
            at == byte_len(s.take(cursor as int)),
            starts.len() == i,
            part_starts(s, parts.take(i as int), from as int, end as int) == Some(starts),
            i == 0 ==> cursor == from,
            i > 0 ==> cursor == starts.last() + parts[i - 1].len(),
            ranges.len() == i,
            forall|k: int|
                0 <= k < i ==> #[trigger] ranges@[k] == part_range(s, starts[k], parts[k]),
        decreases parts.len() - i,
    {
        let part = chars_of(path[i].as_str());
        proof {
            assert(parts.take(i + 1).drop_last() =~= parts.take(i as int));
            assert(parts.take(i + 1).last() == part@);
            if i > 0 {
                assert(parts.take(i + 1)[i - 1] == parts[i - 1]);
            }
        }
        let found = match find_chars(chars, &part, cursor, end) {
            Some(found) => found,
            None => {
                proof {
                    lemma_part_starts_stop(s, parts, i + 1, from as int, end as int);
                }
                return None;
            },
        };
        proof {
            starts = starts.push(found as int);
            lemma_byte_len_monotone(s, found as int, s.len() as int);
            lemma_byte_len_monotone(s, found + part.len(), s.len() as int);
        }
        let mut k: usize = cursor;
        while k < found
            invariant
                chars@ == s,
                fits(s),
                cursor <= k <= found <= s.len(),
                at == byte_len(s.take(k as int)),
            decreases found - k,
        {
            proof {
                lemma_newlines_step(s, k as int);
                lemma_byte_len_monotone(s, k + 1, s.len() as int);
            }
            at = at + crate::text::char_bytes(chars[k]);
            k = k + 1;
        }
        let start = at as u32;
        let stop: usize = found + part.len();
        while k < stop
            invariant
                chars@ == s,
                fits(s),
                found <= k <= stop <= s.len(),
                at == byte_len(s.take(k as int)),
            decreases stop - k,
        {
            proof {
                lemma_newlines_step(s, k as int);
                lemma_byte_len_monotone(s, k + 1, s.len() as int);
            }
            at = at + crate::text::char_bytes(chars[k]);
            k = k + 1;
        }
        ranges.push(TextRange { start, end: at as u32 });
        cursor = k;
        i = i + 1;
    }
    proof {
        assert(parts.take(i as int) =~= parts);
        assert(ranges@ =~= Seq::new(
            parts.len(),
            |i: int| part_range(s, starts[i], parts[i]),
        ));
    }
    Some(ranges)
}

proof fn lemma_part_starts_stop(
    s: Seq<char>,
    path: Seq<Seq<char>>,
    n: int,
    from: int,
    end: int,
)
    requires
        0 <= n <= path.len(),
        part_starts(s, path.take(n), from, end) is None,
    ensures
        part_starts(s, path, from, end) is None,
    decreases path.len() - n,
{
    if n == path.len() {
        assert(path.take(n) =~= path);
    } else {
        assert(path.take(n + 1).drop_last() =~= path.take(n));
        lemma_part_starts_stop(s, path, n + 1, from, end);
    }
}

/// The stretches of the parts of a qualified name from part `i` on, where `module`
/// is what the parts before it lead to: each part that names a submodule, and the
/// last one by its class, unless it is a macro.
pub open spec fn walk_parts(
    module: ModuleIndex,
    path: Seq<Seq<char>>,
    ranges: Seq<TextRange>,
    i: int,
    is_macro: bool,
) -> Seq<Highlight>
    decreases path.len() - i,
{
    if i < 0 || i >= path.len() {
        Seq::empty()
    } else if i == path.len() - 1 {
        match module_class(module, path[i]) {
            Some(kind) => if is_macro {
                Seq::empty()
            } else {
                seq![Highlight { range: ranges[i], kind }]
            },
            None => Seq::empty(),
        }
    } else {
        let at = name_index(module.submodules@, path[i]);
        if at < module.submodules.len() {
            seq![Highlight { range: ranges[i], kind: HighlightKind::Module }] + walk_parts(
                module.submodules@[at],
                path,
                ranges,
                i + 1,
                is_macro,
            )
        } else {
            Seq::empty()
        }
    }
}

/// The stretches of a qualified name.
pub open spec fn read_spans(s: Seq<char>, library: Library, read: QualifiedRead) -> Seq<Highlight> {
    let path = read.path.deep_view();
    if path.len() < 2 {
        Seq::empty()
    } else {
        match (package_of(library, path[0]), part_ranges(s, read.range, path)) {
            (Some(package), Some(ranges)) => seq![
                Highlight { range: ranges[0], kind: HighlightKind::Module },
            ] + walk_parts(package.root, path, ranges, 1, read.is_macro),
            _ => Seq::empty(),
        }
    }
}

/// The stretches of qualified names.
pub open spec fn all_read_spans(
    s: Seq<char>,
    library: Library,
    reads: Seq<QualifiedRead>,
) -> Seq<Highlight>
    decreases reads.len(),
{
    if reads.len() == 0 {
        Seq::empty()
    } else {
        all_read_spans(s, library, reads.drop_last()) + read_spans(s, library, reads.last())
    }
}

fn push_read_spans(
    line_index: &LineIndex,
    library: &Library,
    read: &QualifiedRead,
    out: &mut Vec<Highlight>,
)
    requires
        line_index.wf(),
    ensures
        final(out)@ == old(out)@ + read_spans(line_index@, *library, *read),
{
    let ghost s = line_index@;
    let ghost path = read.path.deep_view();
    let ghost start = out@;
    proof {
        assert(start + Seq::<Highlight>::empty() =~= start);
    }
    let count = read.path.len();
    if count < 2 {
        return;
    }
    proof {
        assert(path[0] == read.path@[0]@);
    }
    let package = match library.package(read.path[0].as_str()) {
        Some(package) => package,
        None => {
            return;
        },
    };
    let ranges = match component_ranges(line_index, read.range, &read.path) {
        Some(ranges) => ranges,
        None => {
            return;
        },
    };
    proof {
        lemma_part_starts_len(
            s,
            path,
            char_index(s, read.range.start as int),
            char_index(s, read.range.end as int),
        );
    }
    let ghost goal = start + read_spans(s, *library, *read);
    out.push(Highlight { range: ranges[0], kind: HighlightKind::Module });
    let mut module = &package.root;
    let mut i: usize = 1;
    proof {
        assert(out@ + walk_parts(*module, path, ranges@, 1, read.is_macro) =~= goal);
    }
    while i < count - 1
        invariant
            count == path.len(),
            path == read.path.deep_view(),
            1 <= i <= count - 1,
            ranges.len() == count,
            out@ + walk_parts(*module, path, ranges@, i as int, read.is_macro) == goal,
            goal == start + read_spans(s, *library, *read),
            start == old(out)@,
            s == line_index@,
        decreases count - i,
    {
        let at = find_named(&module.submodules, read.path[i].as_str());
        proof {
            assert(path[i as int] == read.path@[i as int]@);
        }
        if at >= module.submodules.len() {
            proof {
                assert(walk_parts(*module, path, ranges@, i as int, read.is_macro) =~= Seq::<
                    Highlight,
                >::empty());
                assert(out@ + Seq::<Highlight>::empty() =~= out@);
            }
            return;
        }
        let ghost before = out@;
        let ghost rest = walk_parts(
            module.submodules@[at as int],
            path,
            ranges@,
            i + 1,
            read.is_macro,
        );
        out.push(Highlight { range: ranges[i], kind: HighlightKind::Module });
        module = &module.submodules[at];
        i = i + 1;
        proof {
            assert(out@ + rest =~= before + (seq![
                Highlight { range: ranges@[i - 1], kind: HighlightKind::Module },
            ] + rest));
        }
    }
    proof {
        assert(path[i as int] == read.path@[i as int]@);
    }
    let ghost before = out@;
    if !read.is_macro {
        if let Some(kind) = library_kind(module, read.path[i].as_str()) {
            out.push(Highlight { range: ranges[i], kind });
        }
    }
    proof {
        assert(out@ =~= before + walk_parts(*module, path, ranges@, i as int, read.is_macro));
    }
}

/// The stretches of qualified names: each part that the library resolves to a
/// module, and the last part by its class.
pub fn qualified_spans(
    model: &SemanticModel,
    library: &Library,
    line_index: &LineIndex,
    out: &mut Vec<Highlight>,
)
    requires
        line_index.wf(),
    ensures
        final(out)@ == old(out)@ + all_read_spans(
            line_index@,
            *library,
            model.qualified_reads@,
        ),
{
    let ghost s = line_index@;
    let ghost start = out@;
    let ghost reads = model.qualified_reads@;
    let mut i: usize = 0;
    proof {
        assert(reads.take(0) =~= Seq::<QualifiedRead>::empty());
        assert(start + all_read_spans(s, *library, reads.take(0)) =~= start);
    }
    while i < model.qualified_reads.len()
        invariant
            line_index.wf(),
            s == line_index@,
            reads == model.qualified_reads@,
            i <= reads.len(),
            out@ == start + all_read_spans(s, *library, reads.take(i as int)),
        decreases reads.len() - i,
    {
        push_read_spans(line_index, library, &model.qualified_reads[i], out);
        i = i + 1;
        proof {
            assert(reads.take(i as int).drop_last() =~= reads.take(i - 1));
            assert(out@ =~= start + all_read_spans(s, *library, reads.take(i as int)));
        }
    }
    proof {
        assert(reads.take(i as int) =~= reads);
    }
}

/// The stretches that names give: definitions, exports, occurrences, qualified
/// names.
pub open spec fn name_spans(
    s: Seq<char>,
    model: SemanticModel,
    library: Library,
    workspace: Option<&PackageIndex>,
) -> Seq<Highlight> {
    kept(model.bindings@, binding_span()) + kept(model.exports@, export_span(model.bindings@))
        + kept(model.idents@, ident_span(model, library, workspace)) + all_read_spans(
        s,
        library,
        model.qualified_reads@,
    )
}

/// The stretches that names give, in no order.
pub fn resolved_spans(
    model: &SemanticModel,
    library: &Library,
    workspace: Option<&PackageIndex>,
    line_index: &LineIndex,
) -> (r: Vec<Highlight>)
    requires
        model.wf(),
        line_index.wf(),
    ensures
        r@ == name_spans(line_index@, *model, *library, workspace),
{
    let mut spans: Vec<Highlight> = Vec::new();
    binding_spans(model, &mut spans);
    export_spans(model, &mut spans);
    ident_spans(model, library, workspace, &mut spans);
    qualified_spans(model, library, line_index, &mut spans);
    proof {
        assert(spans@ =~= name_spans(line_index@, *model, *library, workspace));
    }
    spans
}

/// The part of a line between two characters, less a carriage return at its end;
/// nothing where that leaves nothing.
pub open spec fn segment(s: Seq<char>, from: int, to: int) -> Seq<(int, int)> {
    let end = if to > from && s[to - 1] == '\r' {
        to - 1
    } else {
        to
    };
    if end > from {
        seq![(from, end)]
    } else {
        Seq::empty()
    }
}

/// The segments of the lines that end before character `i`, from character `from`
/// on, and where the line then open begins.
pub open spec fn segments_walk(s: Seq<char>, from: int, i: int) -> (Seq<(int, int)>, int)
    decreases i - from,
{
    if i <= from {
        (Seq::empty(), from)
    } else {
        let (done, start) = segments_walk(s, from, i - 1);
        if s[i - 1] == '\n' {
            (done + segment(s, start, i - 1), i)
        } else {
            (done, start)
        }
    }
}

/// A stretch of characters cut at its line breaks, without the breaks and without
/// empty parts.
pub open spec fn line_segments(s: Seq<char>, from: int, to: int) -> Seq<(int, int)> {
    let (done, start) = segments_walk(s, from, to);
    done + segment(s, start, to)
}

/// The bytes of a segment.
pub open spec fn segment_range(s: Seq<char>, segment: (int, int)) -> TextRange {
    TextRange {
        start: byte_len(s.take(segment.0)) as u32,
        end: byte_len(s.take(segment.1)) as u32,
    }
}

/// Whether segments lie in order between two characters, each within one line.
pub open spec fn segments_fit(
    s: Seq<char>,
    segments: Seq<(int, int)>,
    from: int,
    to: int,
) -> bool {
    &&& forall|k: int|
        0 <= k < segments.len() ==> from <= (#[trigger] segments[k]).0 < segments[k].1 <= to
    &&& forall|k: int, j: int|
        0 <= k < segments.len() && (#[trigger] segments[k]).0 <= j < segments[k].1
            ==> #[trigger] s[j] != '\n'
    &&& forall|k: int, l: int|
        0 <= k < l < segments.len() ==> (#[trigger] segments[k]).1 <= (#[trigger] segments[l]).0
}

proof fn lemma_segments_walk(s: Seq<char>, from: int, i: int)
    requires
        0 <= from <= i <= s.len(),
    ensures
        from <= segments_walk(s, from, i).1 <= i,
        segments_fit(s, segments_walk(s, from, i).0, from, segments_walk(s, from, i).1),
        forall|j: int| segments_walk(s, from, i).1 <= j < i ==> #[trigger] s[j] != '\n',
    decreases i - from,
{
    if i > from {
        lemma_segments_walk(s, from, i - 1);
        let (done, start) = segments_walk(s, from, i - 1);
        if s[i - 1] == '\n' {
            lemma_segments_push(s, done, from, start, i - 1);
            let all = done + segment(s, start, i - 1);
            assert(segments_fit(s, all, from, i - 1));
            assert(segments_fit(s, all, from, i));
        }
    }
}

proof fn lemma_segments_push(s: Seq<char>, done: Seq<(int, int)>, from: int, start: int, to: int)
    requires
        0 <= from <= start <= to <= s.len(),
        segments_fit(s, done, from, start),
        forall|j: int| start <= j < to ==> #[trigger] s[j] != '\n',
    ensures
        segments_fit(s, done + segment(s, start, to), from, to),
{
    let all = done + segment(s, start, to);
    let n = done.len() as int;
    assert forall|k: int| 0 <= k < all.len() implies from <= (#[trigger] all[k]).0 < all[k].1
        <= to by {
        if k < n {
            assert(all[k] == done[k]);
        }
    }
    assert forall|k: int, j: int|
        0 <= k < all.len() && (#[trigger] all[k]).0 <= j < all[k].1 implies #[trigger] s[j]
        != '\n' by {
        if k < n {
            assert(all[k] == done[k]);
        }
    }
    assert forall|k: int, l: int| 0 <= k < l < all.len() implies (#[trigger] all[k]).1 <= (
    #[trigger] all[l]).0 by {
        assert(all[k] == done[k]);
        if l < n {
            assert(all[l] == done[l]);
        }
    }
}

/// A stretch cut at its line breaks: the parts lie within it, in order, and none
/// holds a line break.
pub proof fn law_segments_hold_no_break(s: Seq<char>, from: int, to: int)
    requires
        0 <= from <= to <= s.len(),
    ensures
        segments_fit(s, line_segments(s, from, to), from, to),
{
    lemma_segments_walk(s, from, to);
    let (done, start) = segments_walk(s, from, to);
    lemma_segments_push(s, done, from, start, to);
}

/// Cuts `range` at its line breaks.
pub fn split_at_line_breaks(line_index: &LineIndex, range: TextRange) -> (r: Vec<TextRange>)
    requires
        line_index.wf(),
        range.start <= range.end,
    ensures
        ({
            let s = line_index@;
            let segments = line_segments(
                s,
                char_index(s, range.start as int),
                char_index(s, range.end as int),
            );
            &&& r.len() == segments.len()
            &&& forall|k: int|
                0 <= k < r.len() ==> #[trigger] r@[k] == segment_range(s, segments[k])
        }),
{
    let ghost s = line_index@;
    proof {
        line_index.lemma_fits();
        lemma_char_index(s, range.start as int);
        lemma_char_index(s, range.end as int);
        if char_index(s, range.end as int) < char_index(s, range.start as int) {
            lemma_byte_len_monotone(
                s,
                char_index(s, range.end as int) + 1,
                char_index(s, range.start as int),
            );
        }
    }
    let (from, base) = line_index.char_at(range.start as usize);
    let (to, _) = line_index.char_at(range.end as usize);
    let chars = line_index.chars();
    let mut out: Vec<TextRange> = Vec::new();
    let mut start: usize = from;
    let mut start_at: usize = base;
    let mut at: usize = base;
    let mut i: usize = from;
    while i < to
        invariant
            s == line_index@,
            chars@ == s,
            fits(s),
            from <= start <= i <= to <= s.len(),
            at == byte_len(s.take(i as int)),
            start_at == byte_len(s.take(start as int)),
            start == segments_walk(s, from as int, i as int).1,
            out.len() == segments_walk(s, from as int, i as int).0.len(),
            forall|k: int|
                0 <= k < out.len() ==> #[trigger] out@[k] == segment_range(
                    s,
                    segments_walk(s, from as int, i as int).0[k],
                ),
        decreases to - i,
    {
        proof {
            lemma_newlines_step(s, i as int);
            lemma_byte_len_monotone(s, i + 1, s.len() as int);
            lemma_segments_walk(s, from as int, i as int);
        }
        let c = chars[i];
        let behind = at + crate::text::char_bytes(c);
        if c == '\n' {
            push_segment(chars, start, start_at, i, at, &mut out);
            start = i + 1;
            start_at = behind;
        }
        at = behind;
        i = i + 1;
    }
    proof {
        lemma_segments_walk(s, from as int, to as int);
        lemma_byte_len_monotone(s, to as int, s.len() as int);
    }
    push_segment(chars, start, start_at, to, at, &mut out);
    out
}

fn push_segment(
    chars: &Vec<char>,
    from: usize,
    from_at: usize,
    to: usize,
    to_at: usize,
    out: &mut Vec<TextRange>,
)
    requires
        from <= to <= chars.len(),
        fits(chars@),
        from_at == byte_len(chars@.take(from as int)),
        to_at == byte_len(chars@.take(to as int)),
    ensures
        final(out).len() == old(out).len() + segment(chars@, from as int, to as int).len(),
        forall|k: int| 0 <= k < old(out).len() ==> #[trigger] final(out)@[k] == old(out)@[k],
        forall|k: int|
            old(out).len() <= k < final(out).len() ==> #[trigger] final(out)@[k] == segment_range(
                chars@,
                segment(chars@, from as int, to as int)[k - old(out).len()],
            ),
{
    let ghost s = chars@;
    let carriage = to > from && chars[to - 1] == '\r';
    proof {
        lemma_byte_len_monotone(s, from as int, to as int);
        lemma_byte_len_monotone(s, to as int, s.len() as int);
        if to > 0 {
            lemma_newlines_step(s, to - 1);
        }
    }
    let end = if carriage {
        to - 1
    } else {
        to
    };
    let end_at = if carriage {
        to_at - 1
    } else {
        to_at
    };
    if end > from {
        out.push(TextRange { start: from_at as u32, end: end_at as u32 });
    }
}

/// A token in the document: its line, its column, its length and its class.
pub struct TokenPlace {
    pub line: u32,
    pub start: u32,
    pub length: u32,
    pub token_type: u32,
}

/// A token as it is sent: its place relative to the start of the one before.
#[derive(Clone, Copy, Debug, PartialEq, Eq, Structural)]
pub struct SemanticToken {
    pub delta_line: u32,
    pub delta_start: u32,
    pub length: u32,
    pub token_type: u32,
}

/// The place of a segment.
pub open spec fn place_of(
    s: Seq<char>,
    segment: (int, int),
    kind: HighlightKind,
    encoding: PositionEncoding,
) -> TokenPlace {
    let start = char_position(s, segment.0, encoding);
    let end = char_position(s, segment.1, encoding);
    TokenPlace {
        line: start.line,
        start: start.character,
        length: (end.character - start.character) as u32,
        token_type: kind_index(kind),
    }
}

/// The places of one stretch, line by line.
pub open spec fn span_places(s: Seq<char>, span: Highlight, encoding: PositionEncoding) -> Seq<
    TokenPlace,
> {
    let segments = line_segments(
        s,
        char_index(s, span.range.start as int),
        char_index(s, span.range.end as int),
    );
    Seq::new(segments.len(), |i: int| place_of(s, segments[i], span.kind, encoding))
}

/// The places of stretches, line by line.
pub open spec fn places(s: Seq<char>, spans: Seq<Highlight>, encoding: PositionEncoding) -> Seq<
    TokenPlace,
>
    decreases spans.len(),
{
    if spans.len() == 0 {
        Seq::empty()
    } else {
        places(s, spans.drop_last(), encoding) + span_places(s, spans.last(), encoding)
    }
}

/// A place relative to another.
pub open spec fn relative(line: u32, start: u32, place: TokenPlace) -> SemanticToken {
    SemanticToken {
        delta_line: (place.line - line) as u32,
        delta_start: if place.line == line {
            (place.start - start) as u32
        } else {
            place.start
        },
        length: place.length,
        token_type: place.token_type,
    }
}

/// Places as they are sent.
pub open spec fn encoded(all: Seq<TokenPlace>) -> Seq<SemanticToken> {
    Seq::new(
        all.len(),
        |i: int|
            if i == 0 {
                relative(0, 0, all[i])
            } else {
                relative(all[i - 1].line, all[i - 1].start, all[i])
            },
    )
}

/// The places that a client makes of what is sent.
pub open spec fn decoded(tokens: Seq<SemanticToken>) -> Seq<TokenPlace>
    decreases tokens.len(),
{
    if tokens.len() == 0 {
        Seq::empty()
    } else {
        let before = decoded(tokens.drop_last());
        let token = tokens.last();
        let (line, start) = if before.len() == 0 {
            (0u32, 0u32)
        } else {
            (before.last().line, before.last().start)
        };
        before.push(
            TokenPlace {
                line: (line + token.delta_line) as u32,
                start: if token.delta_line == 0 {
                    (start + token.delta_start) as u32
                } else {
                    token.delta_start
                },
                length: token.length,
                token_type: token.token_type,
            },
        )
    }
}

/// Whether one place ends before another begins.
pub open spec fn ends_before(a: TokenPlace, b: TokenPlace) -> bool {
    a.line < b.line || (a.line == b.line && a.start + a.length <= b.start)
}

/// Whether places come in order and none overlaps the next.
pub open spec fn places_in_order(all: Seq<TokenPlace>) -> bool {
    forall|i: int| 0 < i < all.len() ==> ends_before(#[trigger] all[i - 1], all[i])
}

/// A client reads the places back that were sent.
pub proof fn law_tokens_decode(all: Seq<TokenPlace>)
    requires
        places_in_order(all),
    ensures
        decoded(encoded(all)) == all,
    decreases all.len(),
{
    if all.len() > 0 {
        let front = all.drop_last();
        assert forall|i: int| 0 < i < front.len() implies ends_before(
            #[trigger] front[i - 1],
            front[i],
        ) by {
            assert(front[i - 1] == all[i - 1]);
        }
        law_tokens_decode(front);
        assert(encoded(all).drop_last() =~= encoded(front));
        let n = all.len() - 1;
        if n > 0 {
            assert(front.last() == all[n - 1]);
            assert(ends_before(all[n - 1], all[n]));
        }
        assert(decoded(encoded(all)) =~= all);
    }
}

/// Two segments in order, each within one line, have places in order.
proof fn lemma_places_of_segments(
    s: Seq<char>,
    a: (int, int),
    b: (int, int),
    ka: HighlightKind,
    kb: HighlightKind,
    encoding: PositionEncoding,
)
    requires
        fits(s),
        0 <= a.0 <= a.1 <= b.0 <= s.len(),
        forall|j: int| a.0 <= j < a.1 ==> #[trigger] s[j] != '\n',
    ensures
        ends_before(place_of(s, a, ka, encoding), place_of(s, b, kb, encoding)),
{
    lemma_one_line(s, a, encoding);
    crate::text::lemma_char_positions_ascend(s, a.1, b.0, encoding);
}

/// A segment within one line begins and ends on it, and ends no earlier than it
/// begins.
proof fn lemma_one_line(s: Seq<char>, a: (int, int), encoding: PositionEncoding)
    requires
        fits(s),
        0 <= a.0 <= a.1 <= s.len(),
        forall|j: int| a.0 <= j < a.1 ==> #[trigger] s[j] != '\n',
    ensures
        char_position(s, a.0, encoding).line == char_position(s, a.1, encoding).line,
        char_position(s, a.0, encoding).character <= char_position(s, a.1, encoding).character,
{
    crate::text::lemma_char_positions_ascend(s, a.0, a.1, encoding);
    lemma_no_newlines(s, a.0, a.1);
}

proof fn lemma_no_newlines(s: Seq<char>, i: int, j: int)
    requires
        0 <= i <= j <= s.len(),
        forall|k: int| i <= k < j ==> #[trigger] s[k] != '\n',
    ensures
        newlines(s.take(i)) == newlines(s.take(j)),
    decreases j - i,
{
    if i < j {
        lemma_newlines_step(s, i);
        lemma_no_newlines(s, i + 1, j);
    }
}

/// Whether a segment lies within one line and ends at `to` at the latest.
pub open spec fn within_line(s: Seq<char>, a: (int, int), to: int) -> bool {
    &&& 0 <= a.0 <= a.1 <= to
    &&& a.1 <= s.len()
    &&& forall|j: int| a.0 <= j < a.1 ==> #[trigger] s[j] != '\n'
}

/// The segments of one stretch.
pub open spec fn span_segments(s: Seq<char>, span: Highlight) -> Seq<(int, int)> {
    line_segments(
        s,
        char_index(s, span.range.start as int),
        char_index(s, span.range.end as int),
    )
}

/// The last segment of stretches, with its class.
pub open spec fn last_segment(s: Seq<char>, spans: Seq<Highlight>) -> ((int, int), HighlightKind)
    decreases spans.len(),
{
    if spans.len() == 0 {
        ((0, 0), HighlightKind::Keyword)
    } else if span_segments(s, spans.last()).len() > 0 {
        (span_segments(s, spans.last()).last(), spans.last().kind)
    } else {
        last_segment(s, spans.drop_last())
    }
}

proof fn lemma_in_order_front(spans: Seq<Highlight>)
    requires
        in_order(spans),
        spans.len() > 0,
    ensures
        in_order(spans.drop_last()),
{
    let front = spans.drop_last();
    assert forall|i: int| 0 <= i < front.len() implies (#[trigger] front[i]).range.start
        <= front[i].range.end by {
        assert(front[i] == spans[i]);
    }
    assert forall|i: int, j: int| 0 <= i < j < front.len() implies (
    #[trigger] front[i]).range.end <= (#[trigger] front[j]).range.start by {
        assert(front[i] == spans[i] && front[j] == spans[j]);
    }
}

/// The last segment of stretches lies within one line, and before the end of the
/// last stretch; the last place is its place.
proof fn lemma_last_segment(s: Seq<char>, spans: Seq<Highlight>, encoding: PositionEncoding)
    requires
        in_order(spans),
        spans.len() > 0,
        places(s, spans, encoding).len() > 0,
    ensures
        within_line(
            s,
            last_segment(s, spans).0,
            char_index(s, spans.last().range.end as int),
        ),
        places(s, spans, encoding).last() == place_of(
            s,
            last_segment(s, spans).0,
            last_segment(s, spans).1,
            encoding,
        ),
    decreases spans.len(),
{
    let span = spans[spans.len() - 1];
    let from = char_index(s, span.range.start as int);
    let to = char_index(s, span.range.end as int);
    lemma_char_index(s, span.range.start as int);
    lemma_char_index(s, span.range.end as int);
    lemma_char_index_monotone(s, span.range.start as int, span.range.end as int);
    law_segments_hold_no_break(s, from, to);
    let segments = span_segments(s, span);
    let front = spans.drop_last();
    let before = places(s, front, encoding);
    if segments.len() > 0 {
        let a = segments[segments.len() - 1];
        assert(from <= a.0 < a.1 <= to);
        assert(places(s, spans, encoding).last() == place_of(s, a, span.kind, encoding));
    } else {
        assert(places(s, spans, encoding) =~= before);
        assert(front.len() > 0);
        lemma_in_order_front(spans);
        lemma_last_segment(s, front, encoding);
        let last = spans[spans.len() - 2];
        assert(front.last() == last);
        assert(last.range.end <= span.range.start);
        lemma_char_index_monotone(s, last.range.end as int, span.range.end as int);
    }
}

/// The places of one stretch are in order.
proof fn lemma_span_places_in_order(s: Seq<char>, span: Highlight, encoding: PositionEncoding)
    requires
        fits(s),
        span.range.start <= span.range.end,
    ensures
        places_in_order(span_places(s, span, encoding)),
{
    let from = char_index(s, span.range.start as int);
    let to = char_index(s, span.range.end as int);
    lemma_char_index(s, span.range.start as int);
    lemma_char_index(s, span.range.end as int);
    lemma_char_index_monotone(s, span.range.start as int, span.range.end as int);
    law_segments_hold_no_break(s, from, to);
    let segments = line_segments(s, from, to);
    let here = span_places(s, span, encoding);
    assert forall|i: int| 0 < i < here.len() implies ends_before(#[trigger] here[i - 1], here[i]) by {
        let a = segments[i - 1];
        let b = segments[i];
        assert(from <= a.0 < a.1 <= to);
        assert(a.1 <= b.0);
        assert(from <= b.0 < b.1 <= to);
        lemma_places_of_segments(s, a, b, span.kind, span.kind, encoding);
    }
}

proof fn lemma_places_in_order(s: Seq<char>, spans: Seq<Highlight>, encoding: PositionEncoding)
    requires
        fits(s),
        in_order(spans),
    ensures
        places_in_order(places(s, spans, encoding)),
    decreases spans.len(),
{
    if spans.len() > 0 {
        let front = spans.drop_last();
        let span = spans[spans.len() - 1];
        lemma_in_order_front(spans);
        lemma_places_in_order(s, front, encoding);
        assert(span.range.start <= span.range.end);
        lemma_span_places_in_order(s, span, encoding);
        let before = places(s, front, encoding);
        let here = span_places(s, span, encoding);
        if before.len() > 0 && here.len() > 0 {
            lemma_joint_in_order(s, spans, encoding);
        }
        lemma_in_order_concat(before, here);
    }
}

/// The last place of the stretches before the last ends before the first place of
/// the last.
proof fn lemma_joint_in_order(s: Seq<char>, spans: Seq<Highlight>, encoding: PositionEncoding)
    requires
        fits(s),
        in_order(spans),
        spans.len() > 0,
        places(s, spans.drop_last(), encoding).len() > 0,
        span_places(s, spans.last(), encoding).len() > 0,
    ensures
        ends_before(
            places(s, spans.drop_last(), encoding).last(),
            span_places(s, spans.last(), encoding)[0],
        ),
{
    let front = spans.drop_last();
    let span = spans[spans.len() - 1];
    assert(front.len() > 0);
    let last = spans[spans.len() - 2];
    assert(front.last() == last);
    assert(last.range.end <= span.range.start);
    lemma_in_order_front(spans);
    lemma_last_segment(s, front, encoding);
    let (a, kind) = last_segment(s, front);
    let from = char_index(s, span.range.start as int);
    let to = char_index(s, span.range.end as int);
    lemma_char_index(s, span.range.start as int);
    lemma_char_index(s, span.range.end as int);
    lemma_char_index_monotone(s, span.range.start as int, span.range.end as int);
    lemma_char_index_monotone(s, last.range.end as int, span.range.start as int);
    law_segments_hold_no_break(s, from, to);
    let b = line_segments(s, from, to)[0];
    assert(from <= b.0 < b.1 <= to);
    lemma_places_of_segments(s, a, b, kind, span.kind, encoding);
}

proof fn lemma_in_order_concat(a: Seq<TokenPlace>, b: Seq<TokenPlace>)
    requires
        places_in_order(a),
        places_in_order(b),
        a.len() > 0 && b.len() > 0 ==> ends_before(a.last(), b[0]),
    ensures
        places_in_order(a + b),
{
    let all = a + b;
    let n = a.len() as int;
    assert forall|i: int| 0 < i < all.len() implies ends_before(#[trigger] all[i - 1], all[i]) by {
        if i < n {
            assert(all[i - 1] == a[i - 1]);
        } else if i > n {
            let k = i - n;
            assert(all[i - 1] == b[k - 1]);
            assert(all[i] == b[k]);
            assert(ends_before(b[k - 1], b[k]));
        } else {
            assert(all[i - 1] == a.last());
        }
    }
}

proof fn lemma_char_index_monotone(s: Seq<char>, a: int, b: int)
    requires
        0 <= a <= b,
    ensures
        char_index(s, a) <= char_index(s, b),
{
    lemma_char_index(s, a);
    lemma_char_index(s, b);
    if char_index(s, b) < char_index(s, a) {
        lemma_byte_len_monotone(s, char_index(s, b) + 1, char_index(s, a));
    }
}

/// The tokens of stretches in order come in order themselves, and none overlaps
/// the next.
pub proof fn law_places_in_order(s: Seq<char>, spans: Seq<Highlight>, encoding: PositionEncoding)
    requires
        fits(s),
        in_order(spans),
    ensures
        places_in_order(places(s, spans, encoding)),
{
    lemma_places_in_order(s, spans, encoding);
}

/// Stretches as tokens, one for each line, each relative to the one before.
pub fn delta_encode(
    spans: &Vec<Highlight>,
    line_index: &LineIndex,
    encoding: PositionEncoding,
) -> (r: Vec<SemanticToken>)
    requires
        line_index.wf(),
        in_order(spans@),
    ensures
        r@ == encoded(places(line_index@, spans@, encoding)),
{
    let ghost s = line_index@;
    let ghost all = places(s, spans@, encoding);
    let mut data: Vec<SemanticToken> = Vec::new();
    let mut line: u32 = 0;
    let mut column: u32 = 0;
    let mut i: usize = 0;
    let ghost mut done: int = 0;
    proof {
        line_index.lemma_fits();
        lemma_places_in_order(s, spans@, encoding);
        assert(spans@.take(0) =~= Seq::<Highlight>::empty());
    }
    while i < spans.len()
        invariant
            line_index.wf(),
            s == line_index@,
            fits(s),
            in_order(spans@),
            all == places(s, spans@, encoding),
            places_in_order(all),
            i <= spans.len(),
            done == places(s, spans@.take(i as int), encoding).len(),
            0 <= done <= all.len(),
            all.take(done) == places(s, spans@.take(i as int), encoding),
            data.len() == done,
            forall|k: int| 0 <= k < done ==> #[trigger] data@[k] == encoded(all)[k],
            done == 0 ==> line == 0 && column == 0,
            done > 0 ==> line == all[done - 1].line && column == all[done - 1].start,
        decreases spans.len() - i,
    {
        let span = spans[i];
        let ghost from = char_index(s, span.range.start as int);
        let ghost to = char_index(s, span.range.end as int);
        let ghost segments = line_segments(s, from, to);
        let ghost base = done;
        proof {
            lemma_char_index(s, span.range.start as int);
            lemma_char_index(s, span.range.end as int);
            lemma_char_index_monotone(s, span.range.start as int, span.range.end as int);
            law_segments_hold_no_break(s, from, to);
            assert(spans@.take(i + 1).drop_last() =~= spans@.take(i as int));
            lemma_places_take(s, spans@, i + 1, encoding);
        }
        let parts = split_at_line_breaks(line_index, span.range);
        let mut j: usize = 0;
        while j < parts.len()
            invariant
                line_index.wf(),
                s == line_index@,
                fits(s),
                all == places(s, spans@, encoding),
                places_in_order(all),
                i < spans.len(),
                span == spans@[i as int],
                segments == line_segments(s, from, to),
                from == char_index(s, span.range.start as int),
                to == char_index(s, span.range.end as int),
                0 <= from <= to <= s.len(),
                segments_fit(s, segments, from, to),
                parts.len() == segments.len(),
                forall|k: int|
                    0 <= k < parts.len() ==> #[trigger] parts@[k] == segment_range(
                        s,
                        segments[k],
                    ),
                j <= parts.len(),
                done == base + j,
                base >= 0,
                base + parts.len() <= all.len(),
                forall|k: int|
                    0 <= k < parts.len() ==> #[trigger] all[base + k] == place_of(
                        s,
                        segments[k],
                        span.kind,
                        encoding,
                    ),
                data.len() == done,
                forall|k: int| 0 <= k < done ==> #[trigger] data@[k] == encoded(all)[k],
                done == 0 ==> line == 0 && column == 0,
                done > 0 ==> line == all[done - 1].line && column == all[done - 1].start,
            decreases parts.len() - j,
        {
            let part = parts[j];
            let ghost seg = segments[j as int];
            proof {
                lemma_byte_len_monotone(s, seg.0, s.len() as int);
                lemma_byte_len_monotone(s, seg.1, s.len() as int);
                lemma_char_index_of_boundary(s, seg.0);
                lemma_char_index_of_boundary(s, seg.1);
                lemma_one_line(s, seg, encoding);
                assert(all[base + j] == place_of(s, seg, span.kind, encoding));
                if done > 0 {
                    assert(ends_before(all[done - 1], all[done]));
                }
            }
            let start = line_index.byte_to_position(part.start as usize, encoding);
            let end = line_index.byte_to_position(part.end as usize, encoding);
            let delta_line = start.line - line;
            let delta_start = if delta_line == 0 {
                start.character - column
            } else {
                start.character
            };
            data.push(
                SemanticToken {
                    delta_line,
                    delta_start,
                    length: end.character - start.character,
                    token_type: highlight_index(span.kind),
                },
            );
            line = start.line;
            column = start.character;
            j = j + 1;
            proof {
                done = done + 1;
            }
        }
        i = i + 1;
        proof {
            assert(all.take(done) =~= places(s, spans@.take(i as int), encoding));
        }
    }
    proof {
        assert(spans@.take(i as int) =~= spans@);
        assert(data@ =~= encoded(all));
    }
    data
}

/// The places of the first stretches are the first places.
proof fn lemma_places_take(
    s: Seq<char>,
    spans: Seq<Highlight>,
    n: int,
    encoding: PositionEncoding,
)
    requires
        0 <= n <= spans.len(),
    ensures
        places(s, spans.take(n), encoding).len() <= places(s, spans, encoding).len(),
        places(s, spans, encoding).take(
            places(s, spans.take(n), encoding).len() as int,
        ) == places(s, spans.take(n), encoding),
        n > 0 ==> forall|k: int|
            0 <= k < span_places(s, spans[n - 1], encoding).len() ==> #[trigger] places(
                s,
                spans,
                encoding,
            )[places(s, spans.take(n - 1), encoding).len() + k] == span_places(
                s,
                spans[n - 1],
                encoding,
            )[k],
        n > 0 ==> places(s, spans.take(n), encoding).len() == places(
            s,
            spans.take(n - 1),
            encoding,
        ).len() + span_places(s, spans[n - 1], encoding).len(),
    decreases spans.len() - n,
{
    let all = places(s, spans, encoding);
    let part = places(s, spans.take(n), encoding);
    if n > 0 {
        assert(spans.take(n).drop_last() =~= spans.take(n - 1));
        assert(spans.take(n).last() == spans[n - 1]);
    }
    if n == spans.len() {
        assert(spans.take(n) =~= spans);
        assert(all.take(part.len() as int) =~= part);
    } else {
        lemma_places_take(s, spans, n + 1, encoding);
        assert(spans.take(n + 1).drop_last() =~= spans.take(n));
        let next = places(s, spans.take(n + 1), encoding);
        assert(next == part + span_places(s, spans[n], encoding));
        assert(all.take(part.len() as int) =~= part) by {
            assert(all.take(next.len() as int).take(part.len() as int) =~= all.take(
                part.len() as int,
            ));
            assert(next.take(part.len() as int) =~= part);
        }
    }
    if n > 0 {
        let before = places(s, spans.take(n - 1), encoding);
        let here = span_places(s, spans[n - 1], encoding);
        assert(part == before + here);
        assert forall|k: int| 0 <= k < here.len() implies #[trigger] all[before.len() + k]
            == here[k] by {
            assert(all.take(part.len() as int)[before.len() + k] == part[before.len() + k]);
        }
    }
}

/// By what stretches are sorted: where they begin, then where they end.
pub open spec fn span_key() -> spec_fn(Highlight) -> int {
    |span: Highlight| span.range.start * 0x1_0000_0000 + span.range.end
}

/// Whether two stretches have something in common.
pub open spec fn overlap(a: TextRange, b: TextRange) -> bool {
    a.start < a.end && b.start < b.end && a.start < b.end && b.start < a.end
}

/// Whether a stretch overlaps one of a number of others.
pub open spec fn overlaps_one(span: Highlight, others: Seq<Highlight>) -> bool {
    exists|i: int| 0 <= i < others.len() && overlap(span.range, (#[trigger] others[i]).range)
}

/// A stretch that overlaps none of a number of others.
pub open spec fn clear_of(others: Seq<Highlight>) -> spec_fn(Highlight) -> Option<Highlight> {
    |span: Highlight|
        if overlaps_one(span, others) {
            None
        } else {
            Some(span)
        }
}

/// The stretches of a document before overlaps are dropped: those of the tree,
/// then those of names that overlap none of these, sorted.
pub open spec fn merged_spans(tree_spans: Seq<Highlight>, names: Seq<Highlight>) -> Seq<Highlight> {
    stable_sorted(tree_spans + kept(names, clear_of(tree_spans)), span_key())
}

/// The stretches of a document: those of the tree, and those of names that overlap
/// none of these, sorted, and without overlaps.
pub open spec fn document_spans(
    s: Seq<char>,
    t: Seq<Element>,
    model: SemanticModel,
    library: Library,
    workspace: Option<&PackageIndex>,
) -> Seq<Highlight> {
    without_overlaps(
        merged_spans(syntax_part(t, t.len() as int), name_spans(s, model, library, workspace)),
    )
}

/// Whether no range of a model ends before it begins.
pub open spec fn model_ranges_ok(model: SemanticModel) -> bool {
    &&& forall|i: int|
        0 <= i < model.bindings.len() ==> (#[trigger] model.bindings@[i]).def_range.start
            <= model.bindings@[i].def_range.end
    &&& forall|i: int|
        0 <= i < model.exports.len() ==> (#[trigger] model.exports@[i]).range.start
            <= model.exports@[i].range.end
    &&& forall|i: int|
        0 <= i < model.idents.len() ==> (#[trigger] model.idents@[i]).range.start
            <= model.idents@[i].range.end
}

/// Whether no stretch ends before it begins.
pub open spec fn spans_ok(spans: Seq<Highlight>) -> bool {
    forall|i: int| 0 <= i < spans.len() ==> (#[trigger] spans[i]).range.start <= spans[i].range.end
}

proof fn lemma_spans_ok_concat(a: Seq<Highlight>, b: Seq<Highlight>)
    requires
        spans_ok(a),
        spans_ok(b),
    ensures
        spans_ok(a + b),
{
    assert forall|i: int| 0 <= i < (a + b).len() implies (#[trigger] (a + b)[i]).range.start <= (a
        + b)[i].range.end by {
        if i < a.len() {
            assert((a + b)[i] == a[i]);
        } else {
            assert((a + b)[i] == b[i - a.len()]);
        }
    }
}

proof fn lemma_syntax_ok(t: Seq<Element>, n: int)
    requires
        is_tree(t),
        0 <= n <= t.len(),
    ensures
        spans_ok(syntax_part(t, n)),
    decreases n,
{
    if n > 0 {
        lemma_syntax_ok(t, n - 1);
        let before = syntax_part(t, n - 1);
        let after = syntax_part(t, n);
        assert(t[n - 1].range.start <= t[n - 1].range.end);
        assert forall|i: int| 0 <= i < after.len() implies (#[trigger] after[i]).range.start
            <= after[i].range.end by {
            if i < before.len() - 1 {
                assert(after[i] == before[i]);
            } else if i < before.len() {
                assert(before[i].range.start <= before[i].range.end);
            }
        }
    }
}

proof fn lemma_kept_ok<T>(items: Seq<T>, f: spec_fn(T) -> Option<Highlight>)
    requires
        forall|i: int|
            0 <= i < items.len() && f(#[trigger] items[i]) is Some ==> f(items[i])->0.range.start
                <= f(items[i])->0.range.end,
    ensures
        spans_ok(kept(items, f)),
{
    let all = kept(items, f);
    assert forall|j: int| 0 <= j < all.len() implies (#[trigger] all[j]).range.start
        <= all[j].range.end by {
        let i = lemma_kept_from(items, f, j);
        assert(f(items[i]) == Some(all[j]));
    }
}

proof fn lemma_walk_ok(
    module: ModuleIndex,
    path: Seq<Seq<char>>,
    ranges: Seq<TextRange>,
    i: int,
    is_macro: bool,
)
    requires
        ranges.len() == path.len(),
        0 <= i,
        forall|k: int| 0 <= k < ranges.len() ==> (#[trigger] ranges[k]).start <= ranges[k].end,
    ensures
        spans_ok(walk_parts(module, path, ranges, i, is_macro)),
    decreases path.len() - i,
{
    if i < path.len() - 1 {
        let at = name_index(module.submodules@, path[i]);
        assert(ranges[i].start <= ranges[i].end);
        if at < module.submodules.len() {
            lemma_walk_ok(module.submodules@[at], path, ranges, i + 1, is_macro);
            lemma_spans_ok_concat(
                seq![Highlight { range: ranges[i], kind: HighlightKind::Module }],
                walk_parts(module.submodules@[at], path, ranges, i + 1, is_macro),
            );
        }
    } else if i == path.len() - 1 {
        assert(ranges[i].start <= ranges[i].end);
    }
}

proof fn lemma_part_starts_bounded(
    s: Seq<char>,
    path: Seq<Seq<char>>,
    from: int,
    end: int,
    i: int,
)
    requires
        0 <= from,
        end <= s.len(),
        part_starts(s, path, from, end) is Some,
        0 <= i < path.len(),
    ensures
        0 <= part_starts(s, path, from, end)->0[i],
        part_starts(s, path, from, end)->0[i] + path[i].len() <= s.len(),
    decreases path.len(),
{
    lemma_part_starts_len(s, path, from, end);
    lemma_part_starts_len(s, path.drop_last(), from, end);
    let starts = part_starts(s, path.drop_last(), from, end)->0;
    if i < path.len() - 1 {
        lemma_part_starts_bounded(s, path.drop_last(), from, end, i);
    } else {
        let cursor = if starts.len() == 0 {
            from
        } else {
            starts.last() + path[path.len() - 2].len()
        };
        if starts.len() > 0 {
            lemma_part_starts_bounded(s, path.drop_last(), from, end, path.len() - 2);
        }
        lemma_find_part(s, path.last(), cursor, end);
    }
}

proof fn lemma_reads_ok(s: Seq<char>, library: Library, reads: Seq<QualifiedRead>)
    requires
        fits(s),
    ensures
        spans_ok(all_read_spans(s, library, reads)),
    decreases reads.len(),
{
    if reads.len() > 0 {
        lemma_reads_ok(s, library, reads.drop_last());
        let read = reads.last();
        let path = read.path.deep_view();
        match (package_of(library, path[0]), part_ranges(s, read.range, path)) {
            (Some(package), Some(ranges)) => {
                let from = char_index(s, read.range.start as int);
                let end = char_index(s, read.range.end as int);
                lemma_char_index(s, read.range.start as int);
                lemma_char_index(s, read.range.end as int);
                let starts = part_starts(s, path, from, end)->0;
                assert forall|k: int| 0 <= k < ranges.len() implies (#[trigger] ranges[k]).start
                    <= ranges[k].end by {
                    lemma_part_starts_bounded(s, path, from, end, k);
                    let a = starts[k];
                    let b = a + path[k].len();
                    assert(ranges[k] == part_range(s, a, path[k]));
                    lemma_byte_len_monotone(s, a, b);
                    lemma_byte_len_monotone(s, b, s.len() as int);
                }
                if path.len() >= 2 {
                    assert(ranges[0].start <= ranges[0].end);
                    lemma_walk_ok(package.root, path, ranges, 1, read.is_macro);
                    lemma_spans_ok_concat(
                        seq![Highlight { range: ranges[0], kind: HighlightKind::Module }],
                        walk_parts(package.root, path, ranges, 1, read.is_macro),
                    );
                }
            },
            _ => {},
        }
        lemma_spans_ok_concat(
            all_read_spans(s, library, reads.drop_last()),
            read_spans(s, library, read),
        );
    }
}

proof fn lemma_names_ok(
    s: Seq<char>,
    model: SemanticModel,
    library: Library,
    workspace: Option<&PackageIndex>,
)
    requires
        fits(s),
        model_ranges_ok(model),
    ensures
        spans_ok(name_spans(s, model, library, workspace)),
{
    let a = kept(model.bindings@, binding_span());
    let b = kept(model.exports@, export_span(model.bindings@));
    let c = kept(model.idents@, ident_span(model, library, workspace));
    let d = all_read_spans(s, library, model.qualified_reads@);
    lemma_kept_ok(model.bindings@, binding_span());
    lemma_kept_ok(model.exports@, export_span(model.bindings@));
    lemma_kept_ok(model.idents@, ident_span(model, library, workspace));
    lemma_reads_ok(s, library, model.qualified_reads@);
    lemma_spans_ok_concat(a, b);
    lemma_spans_ok_concat(a + b, c);
    lemma_spans_ok_concat(a + b + c, d);
}

/// The stretches of a document come in order, and none overlaps the next.
pub proof fn law_document_spans_in_order(
    s: Seq<char>,
    t: Seq<Element>,
    model: SemanticModel,
    library: Library,
    workspace: Option<&PackageIndex>,
)
    requires
        fits(s),
        is_tree(t),
        model_ranges_ok(model),
    ensures
        in_order(document_spans(s, t, model, library, workspace)),
{
    let syntax = syntax_part(t, t.len() as int);
    let names = name_spans(s, model, library, workspace);
    let clear = kept(names, clear_of(syntax));
    let all = syntax + clear;
    lemma_syntax_ok(t, t.len() as int);
    lemma_names_ok(s, model, library, workspace);
    lemma_kept_ok(names, clear_of(syntax));
    lemma_spans_ok_concat(syntax, clear);
    let sorted = stable_sorted(all, span_key());
    law_sorted(all, span_key());
    assert forall|i: int| 0 <= i < sorted.len() implies (#[trigger] sorted[i]).range.start
        <= sorted[i].range.end by {
        vstd::seq_lib::to_multiset_contains(sorted, sorted[i]);
        vstd::seq_lib::to_multiset_contains(all, sorted[i]);
        assert(all.contains(sorted[i]));
    }
    law_no_overlaps(sorted);
}

/// Of a sorted list a stretch is kept where nothing before it reaches past its
/// start.
proof fn lemma_kept_without_overlaps(spans: Seq<Highlight>, k: int)
    requires
        0 <= k < spans.len(),
        forall|i: int| 0 <= i < k ==> (#[trigger] spans[i]).range.end <= spans[k].range.start,
    ensures
        without_overlaps(spans).contains(spans[k]),
    decreases spans.len(),
{
    let front = spans.drop_last();
    let before = without_overlaps(front);
    let after = without_overlaps(spans);
    if k < spans.len() - 1 {
        assert(front[k] == spans[k]);
        assert forall|i: int| 0 <= i < k implies (#[trigger] front[i]).range.end
            <= front[k].range.start by {
            assert(front[i] == spans[i]);
        }
        lemma_kept_without_overlaps(front, k);
        let j = choose|j: int| 0 <= j < before.len() && before[j] == spans[k];
        assert(after[j] == spans[k]);
    } else {
        if before.len() > 0 {
            lemma_without_overlaps_from(front, before.len() - 1);
            let i = choose|i: int| 0 <= i < front.len() && front[i] == before[before.len() - 1];
            assert(spans[i].range.end <= spans[k].range.start);
        }
        assert(after[before.len() as int] == spans[k]);
    }
}

proof fn lemma_without_overlaps_from(spans: Seq<Highlight>, j: int)
    requires
        0 <= j < without_overlaps(spans).len(),
    ensures
        spans.contains(without_overlaps(spans)[j]),
    decreases spans.len(),
{
    let front = spans.drop_last();
    let before = without_overlaps(front);
    if j < before.len() {
        lemma_without_overlaps_from(front, j);
        let i = choose|i: int| 0 <= i < front.len() && front[i] == before[j];
        assert(spans[i] == before[j]);
    } else {
        assert(spans[spans.len() - 1] == without_overlaps(spans)[j]);
    }
}

/// On an overlap the stretch of the tree wins: whatever the names of a document
/// are, each stretch of the tree is among those of the document, where those of the
/// tree do not overlap each other.
pub proof fn law_syntax_wins(
    s: Seq<char>,
    t: Seq<Element>,
    model: SemanticModel,
    library: Library,
    workspace: Option<&PackageIndex>,
    i: int,
)
    requires
        fits(s),
        is_tree(t),
        model_ranges_ok(model),
        in_order(syntax_part(t, t.len() as int)),
        0 <= i < syntax_part(t, t.len() as int).len(),
        syntax_part(t, t.len() as int)[i].range.start < syntax_part(t, t.len() as int)[i].range.end,
    ensures
        document_spans(s, t, model, library, workspace).contains(
            syntax_part(t, t.len() as int)[i],
        ),
{
    let syntax = syntax_part(t, t.len() as int);
    let names = name_spans(s, model, library, workspace);
    let clear = kept(names, clear_of(syntax));
    let all = syntax + clear;
    let sorted = merged_spans(syntax, names);
    let x = syntax[i];
    lemma_names_ok(s, model, library, workspace);
    law_sorted(all, span_key());
    assert(all[i] == x);
    vstd::seq_lib::to_multiset_contains(all, x);
    vstd::seq_lib::to_multiset_contains(sorted, x);
    assert(sorted.contains(x));
    let is_x = |span: Highlight| span == x;
    let k = first_index(sorted, is_x);
    lemma_first_index(sorted, is_x);
    let found = choose|j: int| 0 <= j < sorted.len() && sorted[j] == x;
    assert(is_x(sorted[found]));
    assert(k < sorted.len());
    assert(sorted[k] == x);
    assert forall|j: int| 0 <= j < k implies (#[trigger] sorted[j]).range.end <= x.range.start by {
        let y = sorted[j];
        assert(!is_x(y));
        assert(span_key()(sorted[j]) <= span_key()(sorted[k]));
        assert(y.range.start <= x.range.start);
        vstd::seq_lib::to_multiset_contains(sorted, y);
        vstd::seq_lib::to_multiset_contains(all, y);
        let a = choose|a: int| 0 <= a < all.len() && all[a] == y;
        if a < syntax.len() {
            assert(syntax[a] == y);
            if a > i {
                assert(syntax[i].range.end <= syntax[a].range.start);
            } else if a < i {
                assert(syntax[a].range.end <= syntax[i].range.start);
            }
        } else {
            let c = a - syntax.len();
            assert(clear[c] == y);
            let n = lemma_kept_from(names, clear_of(syntax), c);
            assert(!overlaps_one(names[n], syntax));
            assert(names[n] == y);
            assert(!overlap(y.range, syntax[i].range));
            assert(names[n].range.start <= names[n].range.end);
        }
    }
    lemma_kept_without_overlaps(sorted, k);
}

fn overlaps_any(span: &Highlight, others: &Vec<Highlight>) -> (r: bool)
    ensures
        r == overlaps_one(*span, others@),
{
    let mut i: usize = 0;
    while i < others.len()
        invariant
            i <= others.len(),
            forall|k: int| 0 <= k < i ==> !overlap(span.range, (#[trigger] others@[k]).range),
        decreases others.len() - i,
    {
        let a = span.range;
        let b = others[i].range;
        if a.start < a.end && b.start < b.end && a.start < b.end && b.start < a.end {
            assert(overlap(span.range, others@[i as int].range));
            return true;
        }
        i = i + 1;
    }
    false
}

/// Appends the stretches of names that overlap none of the tree's.
fn push_clear(spans: &mut Vec<Highlight>, names: &Vec<Highlight>)
    ensures
        final(spans)@ == old(spans)@ + kept(names@, clear_of(old(spans)@)),
{
    let ghost syntax = spans@;
    let ghost pick = clear_of(syntax);
    let mut clear: Vec<Highlight> = Vec::new();
    let mut i: usize = 0;
    proof {
        assert(names@.take(0) =~= Seq::<Highlight>::empty());
        assert(clear@ =~= kept(names@.take(0), pick));
    }
    while i < names.len()
        invariant
            i <= names.len(),
            spans@ == syntax,
            pick == clear_of(syntax),
            clear@ == kept(names@.take(i as int), pick),
        decreases names.len() - i,
    {
        proof {
            lemma_kept_step(names@, pick, i as int);
        }
        if !overlaps_any(&names[i], spans) {
            clear.push(names[i]);
        }
        i = i + 1;
    }
    proof {
        assert(names@.take(i as int) =~= names@);
    }
    spans.append(&mut clear);
}

fn span_keys(spans: &Vec<Highlight>) -> (r: Vec<u64>)
    ensures
        keys_agree(r@, spans.deep_view(), span_key()),
{
    let mut keys: Vec<u64> = Vec::new();
    let mut i: usize = 0;
    while i < spans.len()
        invariant
            i <= spans.len(),
            keys.len() == i,
            forall|k: int| 0 <= k < i ==> #[trigger] keys@[k] == span_key()(spans.deep_view()[k]),
        decreases spans.len() - i,
    {
        let range = spans[i].range;
        keys.push(range.start as u64 * 0x1_0000_0000 + range.end as u64);
        i = i + 1;
    }
    keys
}

/// The semantic tokens of `text`, whose tree is `tree` and whose names `model`
/// resolves. `workspace` is the package that the file belongs to, if any.
pub fn compute_semantic_tokens(
    text: &str,
    tree: &SyntaxTree,
    model: &SemanticModel,
    library: &Library,
    workspace: Option<&PackageIndex>,
    encoding: PositionEncoding,
) -> (r: Vec<SemanticToken>)
    requires
        fits(text@),
        tree.wf(),
        model.wf(),
        model_ranges_ok(*model),
    ensures
        r@ == encoded(
            places(text@, document_spans(text@, tree@, *model, *library, workspace), encoding),
        ),
{
    let line_index = LineIndex::new(text);
    let mut spans = syntax_spans(tree);
    let names = resolved_spans(model, library, workspace, &line_index);
    push_clear(&mut spans, &names);
    proof {
        let syntax = syntax_part(tree@, tree@.len() as int);
        assert(spans.deep_view() =~= syntax + kept(
            name_spans(text@, *model, *library, workspace),
            clear_of(syntax),
        ));
    }
    let keys = span_keys(&spans);
    let sorted = sort_stable(spans, keys, Ghost(span_key()));
    proof {
        assert(sorted.deep_view() =~= sorted@);
        law_document_spans_in_order(text@, tree@, *model, *library, workspace);
    }
    let spans = drop_overlaps(&sorted);
    delta_encode(&spans, &line_index, encoding)
}

/// The answer to a request for what has changed since an answer.
#[derive(Debug)]
pub enum TokensDelta {
    /// Nothing has.
    Unchanged { result_id: String },
    /// All tokens anew.
    Full { result_id: String, data: Vec<SemanticToken> },
}

/// The answer to a request for what has changed since the answer `previous`,
/// given the id of the tokens.
pub fn semantic_tokens_delta(
    data: Vec<SemanticToken>,
    result_id: String,
    previous: &str,
) -> (r: TokensDelta)
    ensures
        match r {
            TokensDelta::Unchanged { result_id: id } => previous@ == result_id@ && id@
                == result_id@,
            TokensDelta::Full { result_id: id, data: tokens } => previous@ != result_id@ && id@
                == result_id@ && tokens@ == data@,
        },
{
    if crate::strings::same_text(previous, result_id.as_str()) {
        TokensDelta::Unchanged { result_id }
    } else {
        TokensDelta::Full { result_id, data }
    }
}

/// Whether a token is a literal number, however it is spelled.
pub open spec fn numeric(kind: SyntaxKind) -> bool {
    ||| kind == SyntaxKind::INTEGER
    ||| kind == SyntaxKind::BIN_INT
    ||| kind == SyntaxKind::OCT_INT
    ||| kind == SyntaxKind::HEX_INT
    ||| kind == SyntaxKind::FLOAT
    ||| kind == SyntaxKind::FLOAT32
}

/// Whether a token is the text of a string or a command, or one of its delimiters.
pub open spec fn string_part(kind: SyntaxKind) -> bool {
    ||| kind == SyntaxKind::STRING_CONTENT
    ||| kind == SyntaxKind::STRING_DELIM_OPEN
    ||| kind == SyntaxKind::STRING_DELIM_CLOSE
    ||| kind == SyntaxKind::CMD_DELIM_OPEN
    ||| kind == SyntaxKind::CMD_DELIM_CLOSE
}

/// Whether a token is a reserved word.
pub open spec fn reserved(kind: SyntaxKind) -> bool {
    // Definitions and blocks.
    ||| kind == SyntaxKind::FUNCTION_KW
    ||| kind == SyntaxKind::MACRO_KW
    ||| kind == SyntaxKind::STRUCT_KW
    ||| kind == SyntaxKind::MUTABLE_KW
    ||| kind == SyntaxKind::MODULE_KW
    ||| kind == SyntaxKind::BAREMODULE_KW
    ||| kind == SyntaxKind::BEGIN_KW
    ||| kind == SyntaxKind::QUOTE_KW
    ||| kind == SyntaxKind::LET_KW
    ||| kind == SyntaxKind::DO_KW
    ||| kind == SyntaxKind::END_KW
    // Branches and loops.
    ||| kind == SyntaxKind::IF_KW
    ||| kind == SyntaxKind::ELSEIF_KW
    ||| kind == SyntaxKind::ELSE_KW
    ||| kind == SyntaxKind::WHILE_KW
    ||| kind == SyntaxKind::FOR_KW
    ||| kind == SyntaxKind::TRY_KW
    ||| kind == SyntaxKind::CATCH_KW
    ||| kind == SyntaxKind::FINALLY_KW
    ||| kind == SyntaxKind::RETURN_KW
    ||| kind == SyntaxKind::BREAK_KW
    ||| kind == SyntaxKind::CONTINUE_KW
    // Names.
    ||| kind == SyntaxKind::CONST_KW
    ||| kind == SyntaxKind::GLOBAL_KW
    ||| kind == SyntaxKind::LOCAL_KW
    ||| kind == SyntaxKind::IMPORT_KW
    ||| kind == SyntaxKind::USING_KW
    ||| kind == SyntaxKind::EXPORT_KW
    ||| kind == SyntaxKind::WHERE_KW
    // Truth values.
    ||| kind == SyntaxKind::TRUE_KW
    ||| kind == SyntaxKind::FALSE_KW
}

/// Whether element `i` stands directly in a node of a kind.
pub open spec fn stands_in(t: Seq<Element>, i: int, kind: SyntaxKind) -> bool {
    t[t[i].parent as int].kind == kind
}

/// Outside macro names a token is painted as a number exactly where it is a literal
/// number, as a keyword exactly where it is a reserved word, as a string exactly
/// where it is a character or, in a literal, a part of its text, and as a macro
/// exactly where it is what stands before or behind a literal; nothing else is
/// painted.
pub proof fn law_literals_are_painted_by_what_they_are(t: Seq<Element>, i: int)
    requires
        !stands_in(t, i, SyntaxKind::MACRO_NAME),
    ensures
        ({
            let kind = t[i].kind;
            let quoted = stands_in(t, i, SyntaxKind::STRING_LITERAL) || stands_in(
                t,
                i,
                SyntaxKind::CMD_LITERAL,
            );
            &&& class_of(t, i) == Some(HighlightKind::Number) <==> numeric(kind)
            &&& class_of(t, i) == Some(HighlightKind::Keyword) <==> reserved(kind)
            &&& class_of(t, i) == Some(HighlightKind::String) <==> kind == SyntaxKind::CHAR || (
            quoted && string_part(kind))
            &&& class_of(t, i) == Some(HighlightKind::Macro) <==> quoted && (kind
                == SyntaxKind::STRING_PREFIX || kind == SyntaxKind::STRING_SUFFIX)
            &&& class_of(t, i) != Some(HighlightKind::Function)
            &&& class_of(t, i) != Some(HighlightKind::Type)
            &&& class_of(t, i) != Some(HighlightKind::Module)
        }),
{
}

/// In a macro name nothing is painted but as a macro: the sigil always, and of the
/// other tokens none that another one follows which is not blank. The last one that
/// is not blank is painted unless it closes a bracket.
pub proof fn law_macro_names_are_painted(t: Seq<Element>, i: int, j: int)
    requires
        is_tree(t),
        0 < i < t.len(),
        t[i].is_token,
        stands_in(t, i, SyntaxKind::MACRO_NAME),
    ensures
        class_of(t, i) is Some ==> class_of(t, i) == Some(HighlightKind::Macro),
        t[i].kind == SyntaxKind::AT ==> class_of(t, i) is Some,
        t[i].kind == SyntaxKind::RPAREN ==> class_of(t, i) is None,
        i < j < t.len() && t[j].is_token && t[j].parent == t[i].parent && t[j].kind
            != SyntaxKind::WHITESPACE && t[j].kind != SyntaxKind::NEWLINE && t[i].kind
            != SyntaxKind::AT ==> class_of(t, i) is None,
        (forall|k: int|
            i < k < t.len() && (#[trigger] t[k]).is_token && t[k].parent == t[i].parent
                ==> t[k].kind == SyntaxKind::WHITESPACE || t[k].kind == SyntaxKind::NEWLINE)
            && t[i].kind != SyntaxKind::WHITESPACE && t[i].kind != SyntaxKind::NEWLINE && t[i].kind
            != SyntaxKind::RPAREN ==> class_of(t, i) == Some(HighlightKind::Macro),
{
    let node = t[i].parent as int;
    assert(well_placed(t, i));
    crate::tree::lemma_ends_bounded(t, node);
    lemma_last_name_token(t, node, t[node].end as int);
    if i < j < t.len() && t[j].parent == node {
        assert(well_placed(t, j));
    }
    match last_name_token(t, node, t[node].end as int) {
        Some(last) => {
            if last > i {
                assert(t[last].is_token);
            }
        },
        None => {},
    }
}

proof fn lemma_last_name_token(t: Seq<Element>, node: int, upto: int)
    requires
        0 <= node,
        upto <= t.len(),
    ensures
        match last_name_token(t, node, upto) {
            Some(i) => {
                &&& node < i < upto
                &&& t[i].is_token && t[i].parent == node && !trivia(t[i].kind)
                &&& forall|k: int|
                    i < k < upto && (#[trigger] t[k]).is_token && t[k].parent == node ==> trivia(
                        t[k].kind,
                    )
            },
            None => forall|k: int|
                node < k < upto && (#[trigger] t[k]).is_token && t[k].parent == node ==> trivia(
                    t[k].kind,
                ),
        },
    decreases upto,
{
    if !(upto <= node + 1 || upto <= 0) {
        lemma_last_name_token(t, node, upto - 1);
    }
}

/// Whether a stretch of a class covers a range.
pub open spec fn covered_by(spans: Seq<Highlight>, range: TextRange, kind: HighlightKind) -> bool {
    exists|k: int|
        0 <= k < spans.len() && (#[trigger] spans[k]).kind == kind && spans[k].range.start
            <= range.start && range.end <= spans[k].range.end
}

/// Every token of the tree that has a class is covered by a stretch of that class.
pub proof fn law_every_classified_token_is_painted(t: Seq<Element>, i: int, n: int)
    requires
        is_tree(t),
        0 < i < n <= t.len(),
        t[i].is_token,
        class_of(t, i) is Some,
    ensures
        covered_by(syntax_part(t, n), t[i].range, class_of(t, i)->0),
    decreases n,
{
    let before = syntax_part(t, n - 1);
    let after = syntax_part(t, n);
    let e = t[n - 1];
    assert(e.range.start <= e.range.end);
    if i == n - 1 {
        assert(after.last().kind == class_of(t, i)->0);
        if after.len() == before.len() {
            lemma_syntax_ok(t, n - 1);
            assert(before[before.len() - 1].range.start <= before[before.len() - 1].range.end);
        }
        assert(after[after.len() - 1].range.start <= e.range.start);
    } else {
        law_every_classified_token_is_painted(t, i, n - 1);
        let kind = class_of(t, i)->0;
        let k = choose|k: int|
            0 <= k < before.len() && (#[trigger] before[k]).kind == kind && before[k].range.start
                <= t[i].range.start && t[i].range.end <= before[k].range.end;
        if after.len() == before.len() && k == before.len() - 1 {
            assert(after[k].kind == kind);
        } else {
            assert(after[k] == before[k]);
        }
    }
}

/// What a binding binds decides how its name is painted: a function, a macro, a type
/// and a module are, each as what it is, and nothing else is.
pub proof fn law_bindings_are_painted_by_what_they_bind(kind: BindingKind)
    ensures
        binding_class(kind) == Some(HighlightKind::Function) <==> kind == BindingKind::Function,
        binding_class(kind) == Some(HighlightKind::Macro) <==> kind == BindingKind::Macro,
        binding_class(kind) == Some(HighlightKind::Type) <==> kind == BindingKind::Type,
        binding_class(kind) == Some(HighlightKind::Module) <==> kind == BindingKind::Module,
        binding_class(kind) is Some ==> kind == BindingKind::Function || kind == BindingKind::Macro
            || kind == BindingKind::Type || kind == BindingKind::Module,
{
}

/// No two classes have one index, and the name at the index of a class says what it
/// is.
pub proof fn law_legend_names_classes(a: HighlightKind, b: HighlightKind)
    ensures
        a != b ==> kind_index(a) != kind_index(b),
        0 <= kind_index(a) < legend_names().len(),
        legend_names()[kind_index(HighlightKind::Keyword) as int] == "keyword"@,
        legend_names()[kind_index(HighlightKind::Macro) as int] == "macro"@,
        legend_names()[kind_index(HighlightKind::String) as int] == "string"@,
        legend_names()[kind_index(HighlightKind::Number) as int] == "number"@,
        legend_names()[kind_index(HighlightKind::Function) as int] == "function"@,
        legend_names()[kind_index(HighlightKind::Type) as int] == "type"@,
        legend_names()[kind_index(HighlightKind::Module) as int] == "namespace"@,
{
}

/// A name that a module defines is painted by the first thing of that name: as a macro
/// where it has a sigil, and else as a function, a type or a module; a constant, and
/// what the module does not define, is not painted.
pub proof fn law_library_names_are_painted_by_what_they_name(
    module: ModuleIndex,
    name: Seq<char>,
    i: int,
)
    ensures
        ({
            let sigil = name.len() > 0 && name[0] == '@';
            let no_function = nothing_named(module.functions@, name);
            let no_type = nothing_named(module.types@, name);
            let class = module_class(module, name);
            &&& sigil && first_named(module.macros@, name, i) ==> class == Some(
                HighlightKind::Macro,
            )
            &&& sigil && nothing_named(module.macros@, name) ==> class is None
            &&& !sigil && first_named(module.functions@, name, i) ==> class == Some(
                HighlightKind::Function,
            )
            &&& !sigil && no_function && first_named(module.types@, name, i) ==> class == Some(
                HighlightKind::Type,
            )
            &&& !sigil && no_function && no_type && first_named(module.submodules@, name, i)
                ==> class == Some(HighlightKind::Module)
            &&& !sigil && no_function && no_type && nothing_named(module.submodules@, name)
                ==> class is None
        }),
{
    if first_named(module.macros@, name, i) {
        lemma_first_named(module.macros@, name, i);
    }
    if nothing_named(module.macros@, name) {
        lemma_nothing_named(module.macros@, name);
    }
    if first_named(module.functions@, name, i) {
        lemma_first_named(module.functions@, name, i);
    }
    if nothing_named(module.functions@, name) {
        lemma_nothing_named(module.functions@, name);
    }
    if first_named(module.types@, name, i) {
        lemma_first_named(module.types@, name, i);
    }
    if nothing_named(module.types@, name) {
        lemma_nothing_named(module.types@, name);
    }
    if first_named(module.submodules@, name, i) {
        lemma_first_named(module.submodules@, name, i);
    }
    if nothing_named(module.submodules@, name) {
        lemma_nothing_named(module.submodules@, name);
    }
}

/// An occurrence of an identifier is painted by what it stands for: by its binding where
/// the file binds it, and else by what it resolves to in the file, in the workspace, in
/// the package of a module, or through a `using`. Macros and operators are left to the
/// syntax.
pub proof fn law_occurrences_are_painted_by_what_they_stand_for(
    model: SemanticModel,
    library: Library,
    workspace: Option<&PackageIndex>,
    ident: Ident,
)
    ensures
        ({
            let class = ident_class(model, library, workspace, ident);
            let name = ident.name@;
            let plain = !ident.is_macro && name.len() > 0 && (name[0] == '_' || char_is_alphabetic(
                name[0],
            ));
            &&& !plain ==> class is None
            &&& plain && ident.binding is Some ==> class == binding_class(
                model.bindings@[ident.binding->0 as int].kind,
            )
            &&& plain && ident.binding is None ==> match ident.resolution {
                Resolution::Binding(id) => class == binding_class(model.bindings@[id as int].kind),
                Resolution::Workspace { path, name } => workspace is Some ==> match submodule(
                    workspace->0.root,
                    path.deep_view(),
                ) {
                    Some(host) => class == module_class(host, name@),
                    None => class is None,
                },
                Resolution::System { module, name } => match package_of(library, module@) {
                    Some(package) => class == module_class(package.root, name@),
                    None => class is None,
                },
                Resolution::Using { module, name } => package_of(library, module@) is Some
                    && module_class(package_of(library, module@)->0.root, name@) is Some ==> class
                    == module_class(package_of(library, module@)->0.root, name@),
                _ => class is None,
            }
        }),
{
}

/// A name that a `using` brings in, and that the package of the module's name does not
/// paint, is painted by the first load whose module does.
pub proof fn law_using_paints_by_the_first_load(
    loads: Seq<ModuleLoad>,
    library: Library,
    module: Seq<char>,
    name: Seq<char>,
    i: int,
)
    requires
        package_of(library, module) is Some ==> module_class(
            package_of(library, module)->0.root,
            name,
        ) is None,
        0 <= i < loads.len(),
        match using_module(library, loads[i], module) {
            Some((_, found)) => module_class(found, name) is Some,
            None => false,
        },
        forall|k: int|
            0 <= k < i ==> match using_module(library, #[trigger] loads[k], module) {
                Some((_, found)) => module_class(found, name) is None,
                None => true,
            },
    ensures
        match using_module(library, loads[i], module) {
            Some((_, found)) => using_class(loads, library, module, name) == module_class(
                found,
                name,
            ),
            None => false,
        },
{
    let f = load_class(library, module, name);
    assert forall|k: int| 0 <= k < i implies f(#[trigger] loads[k]) is None by {}
    law_first_found_is_first(loads, f, i);
}

/// The names of a document that have a class give their stretches: definitions, exports
/// of what the file binds, and occurrences.
pub proof fn law_every_classified_name_gives_a_stretch(
    s: Seq<char>,
    model: SemanticModel,
    library: Library,
    workspace: Option<&PackageIndex>,
    k: int,
)
    ensures
        ({
            let spans = name_spans(s, model, library, workspace);
            &&& 0 <= k < model.bindings.len() && binding_class(model.bindings@[k].kind) is Some
                && model.bindings@[k].name@.len() > 0 && (model.bindings@[k].name@[0] == '_'
                || char_is_alphabetic(model.bindings@[k].name@[0])) ==> spans.contains(
                Highlight {
                    range: model.bindings@[k].def_range,
                    kind: binding_class(model.bindings@[k].kind)->0,
                },
            )
            &&& 0 <= k < model.exports.len() && model.exports@[k].binding is Some && binding_class(
                model.bindings@[model.exports@[k].binding->0 as int].kind,
            ) is Some ==> spans.contains(
                Highlight {
                    range: model.exports@[k].range,
                    kind: binding_class(
                        model.bindings@[model.exports@[k].binding->0 as int].kind,
                    )->0,
                },
            )
            &&& 0 <= k < model.idents.len() && ident_class(
                model,
                library,
                workspace,
                model.idents@[k],
            ) is Some ==> spans.contains(
                Highlight {
                    range: model.idents@[k].range,
                    kind: ident_class(model, library, workspace, model.idents@[k])->0,
                },
            )
        }),
{
    let spans = name_spans(s, model, library, workspace);
    let a = kept(model.bindings@, binding_span());
    let b = kept(model.exports@, export_span(model.bindings@));
    let f = ident_span(model, library, workspace);
    let c = kept(model.idents@, f);
    if 0 <= k < model.bindings.len() && binding_span()(model.bindings@[k]) is Some {
        let j = lemma_kept_holds(model.bindings@, binding_span(), k);
        assert(spans[j] == a[j]);
    }
    if 0 <= k < model.exports.len() && export_span(model.bindings@)(model.exports@[k]) is Some {
        let j = lemma_kept_holds(model.exports@, export_span(model.bindings@), k);
        assert(spans[a.len() + j] == b[j]);
    }
    if 0 <= k < model.idents.len() && f(model.idents@[k]) is Some {
        let j = lemma_kept_holds(model.idents@, f, k);
        assert(spans[a.len() + b.len() + j] == c[j]);
    }
}

/// A qualified name is painted part by part: the package and every submodule on the way
/// as a module, and the last part by what it names where that is no macro; the walk ends
/// at a part that leads nowhere.
pub proof fn law_qualified_names_are_painted_part_by_part(
    module: ModuleIndex,
    path: Seq<Seq<char>>,
    ranges: Seq<TextRange>,
    i: int,
    is_macro: bool,
    at: int,
)
    requires
        0 <= i < path.len(),
    ensures
        ({
            let spans = walk_parts(module, path, ranges, i, is_macro);
            let last = i == path.len() - 1;
            &&& !last && first_named(module.submodules@, path[i], at) ==> spans == seq![
                Highlight { range: ranges[i], kind: HighlightKind::Module },
            ] + walk_parts(module.submodules@[at], path, ranges, i + 1, is_macro)
            &&& !last && nothing_named(module.submodules@, path[i]) ==> spans.len() == 0
            &&& last && !is_macro && module_class(module, path[i]) is Some ==> spans == seq![
                Highlight { range: ranges[i], kind: module_class(module, path[i])->0 },
            ]
            &&& last && (is_macro || module_class(module, path[i]) is None) ==> spans.len() == 0
        }),
{
    if first_named(module.submodules@, path[i], at) {
        lemma_first_named(module.submodules@, path[i], at);
    }
    if nothing_named(module.submodules@, path[i]) {
        lemma_nothing_named(module.submodules@, path[i]);
    }
}

/// The parts of a qualified name that is written with dots between them are found where
/// they stand.
pub proof fn law_parts_are_found_between_dots(
    before: Seq<char>,
    path: Seq<Seq<char>>,
    behind: Seq<char>,
    n: int,
)
    requires
        0 <= n <= path.len(),
        forall|k: int| 0 <= k < path.len() ==> (#[trigger] path[k]).len() > 0,
        forall|k: int| 0 <= k < path.len() ==> !(#[trigger] path[k]).contains('.'),
    ensures
        ({
            let written = separated(path, "."@);
            let s = before + written + behind;
            let starts = part_starts(
                s,
                path.take(n),
                before.len() as int,
                (before + written).len() as int,
            );
            starts is Some && starts->0.len() == n && forall|k: int|
                0 <= k < n ==> #[trigger] starts->0[k] == before.len() + before_part(
                    path,
                    "."@,
                    k,
                ).len()
        }),
    decreases n,
{
    let written = separated(path, "."@);
    let s = before + written + behind;
    let from = before.len() as int;
    let end = (before + written).len() as int;
    reveal_strlit(".");
    if n > 0 {
        law_parts_are_found_between_dots(before, path, behind, n - 1);
        let now = path.take(n);
        assert(now.drop_last() =~= path.take(n - 1));
        assert(now.last() == path[n - 1]);
        let starts = part_starts(s, path.take(n - 1), from, end)->0;
        let head = before_part(path, "."@, n - 1);
        let rest = behind_part(path, "."@, n - 1);
        law_parts_stand_whole(path, "."@, n - 1);
        let at = from + head.len();
        let part = path[n - 1];
        assert(written == head + part + rest);
        assert(at + part.len() <= end);
        assert(s.subrange(at, at + part.len()) =~= part);
        assert(find_part(s, part, at, end) == Some(at));
        if n == 1 {
            assert(head =~= Seq::<char>::empty());
            assert(path.take(0) =~= Seq::<Seq<char>>::empty());
            assert(starts.len() == 0);
            assert(at == from);
        } else {
            let earlier = before_part(path, "."@, n - 2);
            law_parts_stand_whole(path.take(n - 1), "."@, n - 2);
            assert(path.take(n - 1).take(n - 2) =~= path.take(n - 2));
            assert(behind_part(path.take(n - 1), "."@, n - 2) =~= Seq::<char>::empty());
            assert(before_part(path.take(n - 1), "."@, n - 2) =~= earlier);
            assert(separated(path.take(n - 1), "."@) =~= earlier + path[n - 2]);
            assert(head =~= earlier + path[n - 2] + "."@);
            let cursor = starts.last() + path[n - 2].len();
            assert(now[now.len() - 2] == path[n - 2]);
            assert(cursor == at - 1);
            assert(s[cursor] == head[head.len() - 1]);
            assert(s[cursor] == '.');
            if s.subrange(cursor, cursor + part.len()) == part {
                assert(part[0] == s[cursor]);
                assert(part.contains('.'));
            }
            assert(find_part(s, part, cursor, end) == Some(at));
        }
        assert(part_starts(s, now, from, end) == Some(starts.push(at)));
    } else {
        assert(path.take(0) =~= Seq::<Seq<char>>::empty());
    }
}

/// Cutting a stretch at its line breaks loses nothing else: every character that is no
/// line feed, nor a carriage return, is in one of the parts.
pub proof fn law_segments_cover_their_stretch(s: Seq<char>, from: int, to: int, i: int)
    requires
        0 <= from <= i < to <= s.len(),
        s[i] != '\n' && s[i] != '\r',
    ensures
        exists|k: int|
            0 <= k < line_segments(s, from, to).len() && (#[trigger] line_segments(
                s,
                from,
                to,
            )[k]).0 <= i < line_segments(s, from, to)[k].1,
{
    lemma_walk_covers(s, from, to, i);
    lemma_segments_walk(s, from, to);
    let (done, start) = segments_walk(s, from, to);
    let all = line_segments(s, from, to);
    if i >= start {
        assert(all[done.len() as int] == segment(s, start, to)[0]);
    } else {
        let k = choose|k: int| 0 <= k < done.len() && (#[trigger] done[k]).0 <= i < done[k].1;
        assert(all[k] == done[k]);
    }
}

proof fn lemma_walk_covers(s: Seq<char>, from: int, to: int, i: int)
    requires
        0 <= from <= i < to <= s.len(),
        s[i] != '\n' && s[i] != '\r',
    ensures
        i >= segments_walk(s, from, to).1 || exists|k: int|
            0 <= k < segments_walk(s, from, to).0.len() && (#[trigger] segments_walk(
                s,
                from,
                to,
            ).0[k]).0 <= i < segments_walk(s, from, to).0[k].1,
    decreases to - from,
{
    let (done, start) = segments_walk(s, from, to - 1);
    let after = segments_walk(s, from, to);
    lemma_segments_walk(s, from, to - 1);
    if i < to - 1 {
        lemma_walk_covers(s, from, to - 1, i);
        if i >= start {
            if s[to - 1] == '\n' {
                assert(after.0[done.len() as int] == segment(s, start, to - 1)[0]);
            }
        } else {
            let k = choose|k: int| 0 <= k < done.len() && (#[trigger] done[k]).0 <= i < done[k].1;
            assert(after.0[k] == done[k]);
        }
    }
}

} // verus!
