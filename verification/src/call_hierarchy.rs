//! Call hierarchy: the function under the cursor, who calls it, and what it calls.

use vstd::prelude::*;

use crate::paths::{floor, FilePath};
use crate::search::{
    first_found, law_first_found_is_first, lemma_first_found_from, lemma_first_found_stays,
    lemma_first_found_step,
};
use crate::selection::{lemma_start_token, start_token};
use crate::semantic::{
    binding_under, contains_inclusive, range_contains, BindingKind, SemanticModel,
};
use crate::strings::cat;
use crate::symbols::{
    assigns, callee_name, callee_of, child_node_from, detail_of, first_child, first_child_node, head_name,
    head_name_of, head_of, is_assignment, signature_detail, signature_expr, signature_from,
    signature_of, token_at,
    unwrap_head, wraps, NamedRange, NamedRangeView,
};
use crate::text::{
    fits, lemma_offset_bounded, offset_at, range_at, slice_at, LineIndex, Position,
    PositionEncoding, Range, TextRange,
};
use crate::tree::{
    ancestors, is_tree, lemma_ancestors_bounded, well_placed, Element, SyntaxKind, SyntaxTree,
};

verus! {

/// A definition that can be called: its name, the rest of its signature, where it
/// stands and where its name stands in it.
#[derive(Debug)]
pub struct Callable {
    pub name: String,
    pub detail: Option<String>,
    pub range: TextRange,
    pub selection: TextRange,
}

/// What a [`Callable`] says.
pub struct CallableView {
    pub name: Seq<char>,
    pub detail: Option<Seq<char>>,
    pub range: TextRange,
    pub selection: TextRange,
}

impl DeepView for Callable {
    type V = CallableView;

    open spec fn deep_view(&self) -> CallableView {
        CallableView {
            name: self.name@,
            detail: self.detail.deep_view(),
            range: self.range,
            selection: self.selection,
        }
    }
}

/// The definition that a node is, where it is one: a `function` or `macro`, whose
/// name has an `@` in front, or an assignment to a call.
pub open spec fn callable_of(s: Seq<char>, t: Seq<Element>, node: int) -> Option<CallableView> {
    if t[node].kind == SyntaxKind::FUNCTION_DEF || t[node].kind == SyntaxKind::MACRO_DEF {
        match signature_of(t, node) {
            Some(signature) => {
                let head = head_of(t, signature);
                let named = if t[head].kind == SyntaxKind::CALL_EXPR {
                    callee_of(s, t, head)
                } else {
                    head_name_of(s, t, head)
                };
                match named {
                    Some(named) => Some(
                        CallableView {
                            name: if t[node].kind == SyntaxKind::MACRO_DEF {
                                "@"@ + named.name
                            } else {
                                named.name
                            },
                            detail: detail_of(s, t[signature].range, named.range),
                            range: t[node].range,
                            selection: named.range,
                        },
                    ),
                    None => None,
                }
            },
            None => None,
        }
    } else if t[node].kind == SyntaxKind::ASSIGNMENT_EXPR && assigns(t, node) {
        match first_child(t, node) {
            Some(left) => {
                let head = head_of(t, left);
                match callee_of(s, t, head) {
                    Some(named) => if t[head].kind == SyntaxKind::CALL_EXPR {
                        Some(
                            CallableView {
                                name: named.name,
                                detail: detail_of(s, t[left].range, named.range),
                                range: t[node].range,
                                selection: named.range,
                            },
                        )
                    } else {
                        None
                    },
                    None => None,
                }
            },
            None => None,
        }
    } else {
        None
    }
}

fn is_call_expr(kind: SyntaxKind) -> (r: bool)
    ensures
        r == (kind == SyntaxKind::CALL_EXPR),
{
    match kind {
        SyntaxKind::CALL_EXPR => true,
        _ => false,
    }
}

/// The definition that `node` is, where it is one.
pub fn callable_def(tree: &SyntaxTree, node: usize, line_index: &LineIndex) -> (r: Option<Callable>)
    requires
        tree.wf(),
        node < tree.elements.len(),
        line_index.wf(),
    ensures
        r.deep_view() == callable_of(line_index@, tree@, node as int),
{
    match tree.elements[node].kind {
        SyntaxKind::FUNCTION_DEF | SyntaxKind::MACRO_DEF => {
            let signature = match signature_expr(tree, node) {
                Some(signature) => signature,
                None => {
                    return None;
                },
            };
            let head = unwrap_head(tree, signature);
            let named = if is_call_expr(tree.elements[head].kind) {
                callee_name(tree, head, line_index)
            } else {
                head_name(tree, head, line_index)
            };
            match named {
                Some(named) => {
                    let name = match tree.elements[node].kind {
                        SyntaxKind::MACRO_DEF => cat("@", named.name.as_str()),
                        _ => named.name,
                    };
                    let detail = signature_detail(
                        tree.elements[signature].range,
                        named.range,
                        line_index,
                    );
                    Some(
                        Callable {
                            name,
                            detail,
                            range: tree.elements[node].range,
                            selection: named.range,
                        },
                    )
                },
                None => None,
            }
        },
        SyntaxKind::ASSIGNMENT_EXPR => {
            if !is_assignment(tree, node) {
                return None;
            }
            let left = match first_child_node(tree, node) {
                Some(left) => left,
                None => {
                    return None;
                },
            };
            let head = unwrap_head(tree, left);
            if !is_call_expr(tree.elements[head].kind) {
                return None;
            }
            match callee_name(tree, head, line_index) {
                Some(named) => {
                    let detail = signature_detail(
                        tree.elements[left].range,
                        named.range,
                        line_index,
                    );
                    Some(
                        Callable {
                            name: named.name,
                            detail,
                            range: tree.elements[node].range,
                            selection: named.range,
                        },
                    )
                },
                None => None,
            }
        },
        _ => None,
    }
}

/// The nodes around an offset, the innermost first.
pub open spec fn around(t: Seq<Element>, offset: u32) -> Seq<usize> {
    match start_token(t, offset) {
        Some(token) => ancestors(t, t[token as int].parent),
        None => Seq::empty(),
    }
}

/// The nodes around `offset`, the innermost first.
pub fn nodes_around(tree: &SyntaxTree, offset: u32) -> (r: Vec<usize>)
    requires
        tree.wf(),
    ensures
        r@ == around(tree@, offset),
        forall|k: int| 0 <= k < r.len() ==> #[trigger] r@[k] < tree.elements.len(),
{
    match token_at(tree, offset) {
        Some(token) => {
            proof {
                assert(token > 0);
                assert(well_placed(tree@, token as int));
                lemma_ancestors_bounded(tree@, tree@[token as int].parent);
            }
            tree.ancestors(tree.elements[token].parent)
        },
        None => Vec::new(),
    }
}

/// That a node is a definition whose name an offset touches.
pub open spec fn named_at(s: Seq<char>, t: Seq<Element>, offset: u32) -> spec_fn(usize) -> Option<
    (usize, CallableView),
> {
    |node: usize|
        match callable_of(s, t, node as int) {
            Some(callable) => if contains_inclusive(callable.selection, offset) {
                Some((node, callable))
            } else {
                None
            },
            None => None,
        }
}

/// The definition whose name an offset touches, with its node.
pub open spec fn callable_found(s: Seq<char>, t: Seq<Element>, offset: u32) -> Option<
    (usize, CallableView),
> {
    first_found(around(t, offset), named_at(s, t, offset))
}

/// The definition whose name `offset` touches, with its node.
pub fn callable_at(tree: &SyntaxTree, offset: u32, line_index: &LineIndex) -> (r: Option<
    (usize, Callable),
>)
    requires
        tree.wf(),
        line_index.wf(),
    ensures
        match r {
            Some(found) => callable_found(line_index@, tree@, offset) == Some(
                (found.0, found.1.deep_view()),
            ) && found.0 < tree.elements.len(),
            None => callable_found(line_index@, tree@, offset) is None,
        },
{
    let ghost s = line_index@;
    let ghost t = tree@;
    let nodes = nodes_around(tree, offset);
    let ghost find = named_at(s, t, offset);
    let mut i: usize = 0;
    proof {
        assert(nodes@.take(0) =~= Seq::<usize>::empty());
    }
    while i < nodes.len()
        invariant
            tree.wf(),
            line_index.wf(),
            s == line_index@,
            t == tree@,
            find == named_at(s, t, offset),
            nodes@ == around(t, offset),
            i <= nodes.len(),
            forall|k: int| 0 <= k < nodes.len() ==> #[trigger] nodes@[k] < t.len(),
            first_found(nodes@.take(i as int), find) is None,
        decreases nodes.len() - i,
    {
        proof {
            lemma_first_found_step(nodes@, find, i as int);
        }
        let node = nodes[i];
        if let Some(callable) = callable_def(tree, node, line_index) {
            if range_contains(callable.selection, offset) {
                proof {
                    lemma_first_found_stays(nodes@, find, i + 1);
                }
                return Some((node, callable));
            }
        }
        i = i + 1;
    }
    proof {
        assert(nodes@.take(i as int) =~= nodes@);
    }
    None
}

/// What a call stands in: a definition with a name, or else a module, or else the
/// file.
#[derive(Debug)]
pub enum Container {
    Callable(Callable),
    Module(NamedRange, TextRange),
    File,
}

/// What a [`Container`] says.
pub enum ContainerView {
    Callable(CallableView),
    Module(NamedRangeView, TextRange),
    File,
}

impl DeepView for Container {
    type V = ContainerView;

    open spec fn deep_view(&self) -> ContainerView {
        match *self {
            Container::Callable(callable) => ContainerView::Callable(callable.deep_view()),
            Container::Module(name, range) => ContainerView::Module(name.deep_view(), range),
            Container::File => ContainerView::File,
        }
    }
}

/// The name of a module.
pub open spec fn module_name_of(s: Seq<char>, t: Seq<Element>, node: int) -> Option<
    NamedRangeView,
> {
    match signature_of(t, node) {
        Some(signature) => head_name_of(s, t, head_of(t, signature)),
        None => None,
    }
}

/// What a node is as a container.
pub open spec fn container_of(s: Seq<char>, t: Seq<Element>) -> spec_fn(usize) -> Option<
    ContainerView,
> {
    |node: usize|
        match callable_of(s, t, node as int) {
            Some(callable) => Some(ContainerView::Callable(callable)),
            None => if t[node as int].kind == SyntaxKind::MODULE_DEF {
                match module_name_of(s, t, node as int) {
                    Some(name) => Some(ContainerView::Module(name, t[node as int].range)),
                    None => None,
                }
            } else {
                None
            },
        }
}

/// What an offset stands in.
pub open spec fn container_at(s: Seq<char>, t: Seq<Element>, offset: u32) -> ContainerView {
    match first_found(around(t, offset), container_of(s, t)) {
        Some(container) => container,
        None => ContainerView::File,
    }
}

/// What `offset` stands in: nothing at the top level is left without a container.
pub fn enclosing_container(tree: &SyntaxTree, offset: u32, line_index: &LineIndex) -> (r: Container)
    requires
        tree.wf(),
        line_index.wf(),
    ensures
        r.deep_view() == container_at(line_index@, tree@, offset),
{
    let ghost s = line_index@;
    let ghost t = tree@;
    let nodes = nodes_around(tree, offset);
    let ghost find = container_of(s, t);
    let mut i: usize = 0;
    proof {
        assert(nodes@.take(0) =~= Seq::<usize>::empty());
    }
    while i < nodes.len()
        invariant
            tree.wf(),
            line_index.wf(),
            s == line_index@,
            t == tree@,
            find == container_of(s, t),
            nodes@ == around(t, offset),
            i <= nodes.len(),
            forall|k: int| 0 <= k < nodes.len() ==> #[trigger] nodes@[k] < t.len(),
            first_found(nodes@.take(i as int), find) is None,
        decreases nodes.len() - i,
    {
        proof {
            lemma_first_found_step(nodes@, find, i as int);
        }
        let node = nodes[i];
        if let Some(callable) = callable_def(tree, node, line_index) {
            proof {
                lemma_first_found_stays(nodes@, find, i + 1);
            }
            return Container::Callable(callable);
        }
        let module = match tree.elements[node].kind {
            SyntaxKind::MODULE_DEF => true,
            _ => false,
        };
        if module {
            if let Some(signature) = signature_expr(tree, node) {
                let head = unwrap_head(tree, signature);
                if let Some(name) = head_name(tree, head, line_index) {
                    proof {
                        lemma_first_found_stays(nodes@, find, i + 1);
                    }
                    return Container::Module(name, tree.elements[node].range);
                }
            }
        }
        i = i + 1;
    }
    proof {
        assert(nodes@.take(i as int) =~= nodes@);
    }
    Container::File
}

/// Whether a call is the signature of a definition: it stands in a `SIGNATURE`, or
/// is what a plain `=` assigns to, in wrappers or not.
pub open spec fn signs(t: Seq<Element>, node: int) -> bool
    decreases node,
{
    let parent = t[node].parent as int;
    if node <= 0 || node >= t.len() || parent >= node {
        false
    } else if wraps(t[parent].kind) {
        signs(t, parent)
    } else if t[parent].kind == SyntaxKind::ASSIGNMENT_EXPR {
        first_child(t, parent) == Some(node) && assigns(t, parent)
    } else {
        t[parent].kind == SyntaxKind::SIGNATURE
    }
}

/// Whether `call` is the signature of a definition rather than a call.
pub fn is_definition_signature(tree: &SyntaxTree, call: usize) -> (r: bool)
    requires
        tree.wf(),
        call < tree.elements.len(),
    ensures
        r == signs(tree@, call as int),
{
    let mut node: usize = call;
    while node > 0
        invariant
            tree.wf(),
            node < tree.elements.len(),
            signs(tree@, call as int) == signs(tree@, node as int),
        decreases node,
    {
        proof {
            assert(well_placed(tree@, node as int));
        }
        let parent = tree.elements[node].parent;
        match tree.elements[parent].kind {
            SyntaxKind::WHERE_EXPR | SyntaxKind::TYPE_ANNOTATION => {
                node = parent;
            },
            SyntaxKind::SIGNATURE => {
                return true;
            },
            SyntaxKind::ASSIGNMENT_EXPR => {
                return match first_child_node(tree, parent) {
                    Some(first) => first == node && is_assignment(tree, parent),
                    None => false,
                };
            },
            _ => {
                return false;
            },
        }
    }
    false
}

/// That a node has a range.
pub open spec fn has_range(t: Seq<Element>, range: TextRange) -> spec_fn(usize) -> Option<usize> {
    |node: usize|
        if t[node as int].range == range {
            Some(node)
        } else {
            None
        }
}

/// Whether a kind is that of a call.
pub open spec fn calls(kind: SyntaxKind) -> bool {
    kind == SyntaxKind::CALL_EXPR || kind == SyntaxKind::DOT_CALL_EXPR
}

/// Whether the occurrence in a range is a call: what a call calls, and no
/// signature.
pub open spec fn is_called(s: Seq<char>, t: Seq<Element>, range: TextRange) -> bool {
    match first_found(around(t, range.start), has_range(t, range)) {
        Some(name) => {
            let call = t[name as int].parent as int;
            &&& name > 0
            &&& calls(t[call].kind)
            &&& callee_of(s, t, call) is Some
            &&& callee_of(s, t, call)->0.range == range
            &&& !signs(t, call)
        },
        None => false,
    }
}

fn is_call_kind(kind: SyntaxKind) -> (r: bool)
    ensures
        r == calls(kind),
{
    match kind {
        SyntaxKind::CALL_EXPR | SyntaxKind::DOT_CALL_EXPR => true,
        _ => false,
    }
}

/// Whether the occurrence in `range` is a call.
pub fn is_call_site(tree: &SyntaxTree, range: TextRange, line_index: &LineIndex) -> (r: bool)
    requires
        tree.wf(),
        line_index.wf(),
    ensures
        r == is_called(line_index@, tree@, range),
{
    let ghost s = line_index@;
    let ghost t = tree@;
    let nodes = nodes_around(tree, range.start);
    let ghost find = has_range(t, range);
    let mut i: usize = 0;
    proof {
        assert(nodes@.take(0) =~= Seq::<usize>::empty());
    }
    while i < nodes.len()
        invariant
            tree.wf(),
            line_index.wf(),
            s == line_index@,
            t == tree@,
            find == has_range(t, range),
            nodes@ == around(t, range.start),
            i <= nodes.len(),
            forall|k: int| 0 <= k < nodes.len() ==> #[trigger] nodes@[k] < t.len(),
            first_found(nodes@.take(i as int), find) is None,
        decreases nodes.len() - i,
    {
        proof {
            lemma_first_found_step(nodes@, find, i as int);
        }
        let node = nodes[i];
        if tree.elements[node].range == range {
            proof {
                lemma_first_found_stays(nodes@, find, i + 1);
            }
            if node == 0 {
                return false;
            }
            proof {
                assert(well_placed(t, node as int));
            }
            let call = tree.elements[node].parent;
            if !is_call_kind(tree.elements[call].kind) {
                return false;
            }
            let named = match callee_name(tree, call, line_index) {
                Some(callee) => callee.range == range,
                None => false,
            };
            return named && !is_definition_signature(tree, call);
        }
        i = i + 1;
    }
    proof {
        assert(nodes@.take(i as int) =~= nodes@);
    }
    false
}

/// What an item of the hierarchy is.
#[derive(Clone, Copy, Debug, PartialEq, Eq, Structural)]
pub enum ItemKind {
    Function,
    Module,
    File,
}

/// An item of the hierarchy.
#[derive(Debug)]
pub struct CallHierarchyItem {
    pub name: String,
    pub kind: ItemKind,
    pub detail: Option<String>,
    pub uri: String,
    pub range: Range,
    pub selection_range: Range,
}

/// What a [`CallHierarchyItem`] says.
pub struct ItemView {
    pub name: Seq<char>,
    pub kind: ItemKind,
    pub detail: Option<Seq<char>>,
    pub uri: Seq<char>,
    pub range: Range,
    pub selection_range: Range,
}

impl DeepView for CallHierarchyItem {
    type V = ItemView;

    open spec fn deep_view(&self) -> ItemView {
        ItemView {
            name: self.name@,
            kind: self.kind,
            detail: self.detail.deep_view(),
            uri: self.uri@,
            range: self.range,
            selection_range: self.selection_range,
        }
    }
}

/// A range of bytes as one of positions.
pub open spec fn places(s: Seq<char>, range: TextRange, encoding: PositionEncoding) -> Range {
    range_at(s, range.start as int, range.end as int, encoding)
}

/// A range of bytes as one of positions.
pub fn to_range(range: TextRange, line_index: &LineIndex, encoding: PositionEncoding) -> (r: Range)
    requires
        line_index.wf(),
    ensures
        r == places(line_index@, range, encoding),
{
    line_index.range(range.start as usize, range.end as usize, encoding)
}

/// The item of a definition.
pub open spec fn callable_item(
    uri: Seq<char>,
    callable: CallableView,
    s: Seq<char>,
    encoding: PositionEncoding,
) -> ItemView {
    ItemView {
        name: callable.name,
        kind: ItemKind::Function,
        detail: callable.detail,
        uri,
        range: places(s, callable.range, encoding),
        selection_range: places(s, callable.selection, encoding),
    }
}

/// The item of `callable`.
pub fn item_for(
    uri: &str,
    callable: Callable,
    line_index: &LineIndex,
    encoding: PositionEncoding,
) -> (r: CallHierarchyItem)
    requires
        line_index.wf(),
    ensures
        r.deep_view() == callable_item(uri@, callable.deep_view(), line_index@, encoding),
{
    CallHierarchyItem {
        range: to_range(callable.range, line_index, encoding),
        selection_range: to_range(callable.selection, line_index, encoding),
        name: callable.name,
        kind: ItemKind::Function,
        detail: callable.detail,
        uri: uri.to_owned(),
    }
}

/// The item of a container: a file's is named by the last part of its path, and
/// begins where the file begins.
pub open spec fn item_of_container(
    container: ContainerView,
    uri: Seq<char>,
    path: Seq<Seq<char>>,
    t: Seq<Element>,
    s: Seq<char>,
    encoding: PositionEncoding,
) -> ItemView {
    match container {
        ContainerView::Callable(callable) => callable_item(uri, callable, s, encoding),
        ContainerView::Module(name, range) => ItemView {
            name: name.name,
            kind: ItemKind::Module,
            detail: None,
            uri,
            range: places(s, range, encoding),
            selection_range: places(s, name.range, encoding),
        },
        ContainerView::File => ItemView {
            name: if path.len() > floor(path) {
                path.last()
            } else {
                uri
            },
            kind: ItemKind::File,
            detail: None,
            uri,
            range: places(s, t[0].range, encoding),
            selection_range: Range {
                start: Position { line: 0, character: 0 },
                end: Position { line: 0, character: 0 },
            },
        },
    }
}

/// The item of `container`.
pub fn container_item(
    container: Container,
    uri: &str,
    path: &FilePath,
    tree: &SyntaxTree,
    line_index: &LineIndex,
    encoding: PositionEncoding,
) -> (r: CallHierarchyItem)
    requires
        tree.wf(),
        line_index.wf(),
    ensures
        r.deep_view() == item_of_container(
            container.deep_view(),
            uri@,
            path.deep_view(),
            tree@,
            line_index@,
            encoding,
        ),
{
    match container {
        Container::Callable(callable) => item_for(uri, callable, line_index, encoding),
        Container::Module(name, range) => CallHierarchyItem {
            range: to_range(range, line_index, encoding),
            selection_range: to_range(name.range, line_index, encoding),
            name: name.name,
            kind: ItemKind::Module,
            detail: None,
            uri: uri.to_owned(),
        },
        Container::File => {
            let count = path.parts.len();
            let low: usize = if path.has_root() {
                1
            } else {
                0
            };
            let name = if count > low {
                path.parts[count - 1].as_str().to_owned()
            } else {
                uri.to_owned()
            };
            CallHierarchyItem {
                name,
                kind: ItemKind::File,
                detail: None,
                uri: uri.to_owned(),
                range: to_range(tree.elements[0].range, line_index, encoding),
                selection_range: Range {
                    start: Position { line: 0, character: 0 },
                    end: Position { line: 0, character: 0 },
                },
            }
        },
    }
}

/// The function of the file under the cursor.
pub open spec fn prepared(
    s: Seq<char>,
    t: Seq<Element>,
    model: SemanticModel,
    uri: Seq<char>,
    offset: u32,
    encoding: PositionEncoding,
) -> Option<ItemView> {
    match binding_under(model, offset) {
        Some(id) => binding_item(s, t, model, uri, id, encoding),
        None => None,
    }
}

/// The item of a binding, where it is a function.
pub open spec fn binding_item(
    s: Seq<char>,
    t: Seq<Element>,
    model: SemanticModel,
    uri: Seq<char>,
    id: usize,
    encoding: PositionEncoding,
) -> Option<ItemView> {
    let binding = model.bindings@[id as int];
    if binding.kind == BindingKind::Function {
        match callable_found(s, t, binding.def_range.start) {
            Some(found) => Some(callable_item(uri, found.1, s, encoding)),
            None => None,
        }
    } else {
        None
    }
}

/// The item of binding `id`, where it is a function.
pub fn item_of_binding(
    tree: &SyntaxTree,
    model: &SemanticModel,
    uri: &str,
    line_index: &LineIndex,
    id: usize,
    encoding: PositionEncoding,
) -> (r: Option<CallHierarchyItem>)
    requires
        tree.wf(),
        line_index.wf(),
        id < model.bindings.len(),
    ensures
        r.deep_view() == binding_item(line_index@, tree@, *model, uri@, id, encoding),
{
    let binding = &model.bindings[id];
    match binding.kind {
        BindingKind::Function => match callable_at(tree, binding.def_range.start, line_index) {
            Some((_, callable)) => Some(item_for(uri, callable, line_index, encoding)),
            None => None,
        },
        _ => None,
    }
}

/// The function of the file under the cursor.
pub fn prepare_for(
    tree: &SyntaxTree,
    model: &SemanticModel,
    uri: &str,
    line_index: &LineIndex,
    offset: u32,
    encoding: PositionEncoding,
) -> (r: Option<CallHierarchyItem>)
    requires
        tree.wf(),
        model.wf(),
        line_index.wf(),
    ensures
        r.deep_view() == prepared(line_index@, tree@, *model, uri@, offset, encoding),
{
    match model.binding_at_cursor(offset) {
        Some(id) => item_of_binding(tree, model, uri, line_index, id, encoding),
        None => None,
    }
}

/// The function of the file at `position` of `text`.
pub fn compute_prepare_call_hierarchy(
    uri: &str,
    text: &str,
    position: Position,
    tree: &SyntaxTree,
    model: &SemanticModel,
    encoding: PositionEncoding,
) -> (r: Option<CallHierarchyItem>)
    requires
        tree.wf(),
        model.wf(),
        fits(text@),
    ensures
        r.deep_view() == prepared(
            text@,
            tree@,
            *model,
            uri@,
            offset_at(text@, position, encoding) as u32,
            encoding,
        ),
{
    let line_index = LineIndex::new(text);
    proof {
        lemma_offset_bounded(text@, position, encoding);
    }
    let offset = line_index.position_to_byte(position, encoding) as u32;
    prepare_for(tree, model, uri, &line_index, offset, encoding)
}

/// Whether a node is a `where` clause or a type that wraps what it is about.
pub open spec fn is_wrapper(t: Seq<Element>, node: int) -> bool {
    t[node].kind == SyntaxKind::WHERE_EXPR || t[node].kind == SyntaxKind::TYPE_ANNOTATION
}

/// Whether a chain of nodes leads from a call outward: each is the parent of the one
/// before, and all but the first are wrappers.
pub open spec fn leads_out(t: Seq<Element>, chain: Seq<int>) -> bool {
    &&& chain.len() > 0
    &&& forall|k: int| 0 <= k < chain.len() ==> 0 < #[trigger] chain[k] < t.len()
    &&& forall|k: int|
        0 <= k < chain.len() - 1 ==> t[#[trigger] chain[k]].parent == chain[k + 1] && is_wrapper(
            t,
            chain[k + 1],
        )
}

/// A call in a signature is no call, whatever `where` clauses and types are around it;
/// nor is one that a plain `=` gives a body. Any other call is one.
pub proof fn law_signatures_are_no_calls(t: Seq<Element>, chain: Seq<int>)
    requires
        is_tree(t),
        leads_out(t, chain),
        !is_wrapper(t, t[chain.last()].parent as int),
    ensures
        ({
            let top = chain.last();
            let around = t[top].parent as int;
            signs(t, chain[0]) <==> {
                ||| t[around].kind == SyntaxKind::SIGNATURE
                ||| t[around].kind == SyntaxKind::ASSIGNMENT_EXPR && first_child(t, around) == Some(
                    top,
                ) && assigns(t, around)
            }
        }),
    decreases chain.len(),
{
    assert(0 < chain[0] < t.len());
    assert(well_placed(t, chain[0]));
    if chain.len() > 1 {
        let rest = chain.drop_first();
        assert(t[chain[0]].parent == chain[1]);
        assert forall|k: int| 0 <= k < rest.len() implies 0 < #[trigger] rest[k] < t.len() by {
            assert(rest[k] == chain[k + 1]);
        }
        assert forall|k: int| 0 <= k < rest.len() - 1 implies t[#[trigger] rest[k]].parent == rest[k
            + 1] && is_wrapper(t, rest[k + 1]) by {
            assert(rest[k] == chain[k + 1]);
            assert(t[chain[k + 1]].parent == chain[k + 2]);
        }
        law_signatures_are_no_calls(t, rest);
    }
}

proof fn lemma_first_child(t: Seq<Element>, node: int, i: int)
    requires
        is_tree(t),
        0 <= node < t.len(),
        node < i,
    ensures
        match child_node_from(t, node, i) {
            Some(child) => i <= child < t.len() && t[child].parent == node && !t[child].is_token,
            None => true,
        },
    decreases t[node].end - i,
{
    if !(i >= t[node].end || i >= t.len() || (t[i].parent == node && !t[i].is_token)) {
        lemma_first_child(t, node, i + 1);
    }
}

proof fn lemma_signature_from(t: Seq<Element>, node: int, i: int)
    requires
        is_tree(t),
        0 <= node < t.len(),
        node < i,
    ensures
        match signature_from(t, node, i) {
            Some(child) => i <= child < t.len() && t[child].parent == node && t[child].kind
                == SyntaxKind::SIGNATURE,
            None => true,
        },
    decreases t[node].end - i,
{
    if !(i >= t[node].end || i >= t.len() || (t[i].parent == node && !t[i].is_token && t[i].kind
        == SyntaxKind::SIGNATURE)) {
        lemma_signature_from(t, node, i + 1);
    }
}

/// The head of what is a signature is one.
proof fn lemma_head_signs(t: Seq<Element>, node: int)
    requires
        is_tree(t),
        0 < node < t.len(),
        signs(t, node),
    ensures
        signs(t, head_of(t, node)),
        node <= head_of(t, node) < t.len(),
    decreases t.len() - node,
{
    if wraps(t[node].kind) {
        lemma_first_child(t, node, node + 1);
        match first_child(t, node) {
            Some(child) => {
                assert(t[child].parent == node);
                assert(signs(t, child) == signs(t, node));
                lemma_head_signs(t, child);
            },
            None => {},
        }
    }
}

/// The name of a definition is never a call of it: where one node alone has the range
/// of the name, the occurrence there is none.
pub proof fn law_own_name_is_no_call(s: Seq<char>, t: Seq<Element>, node: int)
    requires
        is_tree(t),
        t.len() <= usize::MAX,
        0 <= node < t.len(),
        callable_of(s, t, node) is Some,
        forall|i: int, j: int|
            0 <= i < t.len() && 0 <= j < t.len() && !(#[trigger] t[i]).is_token && !(
            #[trigger] t[j]).is_token && t[i].range == callable_of(s, t, node)->0.selection
                && t[j].range == callable_of(s, t, node)->0.selection ==> i == j,
    ensures
        !is_called(s, t, callable_of(s, t, node)->0.selection),
{
    let range = callable_of(s, t, node)->0.selection;
    let top = if t[node].kind == SyntaxKind::FUNCTION_DEF || t[node].kind == SyntaxKind::MACRO_DEF {
        lemma_signature_from(t, node, node + 1);
        let inside = signature_from(t, node, node + 1)->0;
        lemma_first_child(t, inside, inside + 1);
        assert(!wraps(SyntaxKind::SIGNATURE));
        signature_of(t, node)->0
    } else {
        lemma_first_child(t, node, node + 1);
        assert(!wraps(SyntaxKind::ASSIGNMENT_EXPR));
        first_child(t, node)->0
    };
    assert(well_placed(t, top));
    assert(signs(t, top));
    lemma_head_signs(t, top);
    let head = head_of(t, top);
    assert(!t[head].is_token) by {
        lemma_head_is_node(t, top);
    }
    match first_found(around(t, range.start), has_range(t, range)) {
        Some(name) => {
            let k = lemma_first_found_from(around(t, range.start), has_range(t, range));
            let found = around(t, range.start)[k] as int;
            assert(found == name);
            lemma_around_nodes(t, range.start, k);
            if t[head].kind == SyntaxKind::CALL_EXPR {
                lemma_first_child(t, head, head + 1);
                let callee = first_child(t, head)->0;
                assert(t[callee].range == range);
                assert(name as int == callee);
            } else {
                // The name is the head itself, and what holds it calls nothing.
                assert(t[head].range == range);
                assert(name as int == head);
                assert(well_placed(t, head));
                assert(!calls(t[t[head].parent as int].kind));
            }
        },
        None => {},
    }
}

proof fn lemma_head_is_node(t: Seq<Element>, node: int)
    requires
        is_tree(t),
        0 < node < t.len(),
        !t[node].is_token,
    ensures
        !t[head_of(t, node)].is_token,
    decreases t.len() - node,
{
    if wraps(t[node].kind) {
        lemma_first_child(t, node, node + 1);
        match first_child(t, node) {
            Some(child) => {
                lemma_head_is_node(t, child);
            },
            None => {},
        }
    }
}

proof fn lemma_around_nodes(t: Seq<Element>, offset: u32, k: int)
    requires
        is_tree(t),
        t.len() <= usize::MAX,
        0 <= k < around(t, offset).len(),
    ensures
        around(t, offset)[k] < t.len(),
        !t[around(t, offset)[k] as int].is_token,
{
    lemma_start_token(t, offset);
    let token = start_token(t, offset)->0;
    assert(token > 0);
    assert(well_placed(t, token as int));
    lemma_ancestors_bounded(t, t[token as int].parent);
    lemma_ancestors_are_nodes(t, t[token as int].parent, k);
}

proof fn lemma_ancestors_are_nodes(t: Seq<Element>, i: usize, k: int)
    requires
        is_tree(t),
        i < t.len(),
        !t[i as int].is_token,
        0 <= k < ancestors(t, i).len(),
    ensures
        !t[ancestors(t, i)[k] as int].is_token,
    decreases i,
{
    if k > 0 {
        assert(well_placed(t, i as int));
        let rest = ancestors(t, t[i as int].parent);
        lemma_ancestors_are_nodes(t, t[i as int].parent, k - 1);
        assert(ancestors(t, i)[k] == rest[k - 1]);
    }
}

/// Whether a chain of nodes leads from the head of a signature inward: each is the
/// first node under the one before, all but the last are wrappers, and the last is
/// none.
pub open spec fn leads_in(t: Seq<Element>, chain: Seq<int>) -> bool {
    &&& chain.len() > 0
    &&& forall|k: int|
        0 <= k < chain.len() - 1 ==> is_wrapper(t, #[trigger] chain[k]) && first_child(t, chain[k])
            == Some(chain[k + 1]) && 0 <= chain[k] < chain[k + 1] < t.len()
    &&& 0 <= chain.last() < t.len()
    &&& !is_wrapper(t, chain.last())
}

proof fn lemma_leads_in(t: Seq<Element>, chain: Seq<int>)
    requires
        leads_in(t, chain),
    ensures
        head_of(t, chain[0]) == chain.last(),
    decreases chain.len(),
{
    if chain.len() > 1 {
        assert(is_wrapper(t, chain[0]));
        let rest = chain.drop_first();
        assert forall|k: int| 0 <= k < rest.len() - 1 implies is_wrapper(t, #[trigger] rest[k])
            && first_child(t, rest[k]) == Some(rest[k + 1]) && 0 <= rest[k] < rest[k + 1]
            < t.len() by {
            assert(rest[k] == chain[k + 1]);
            assert(is_wrapper(t, chain[k + 1]));
        }
        lemma_leads_in(t, rest);
    }
}

/// A function, a macro and an assignment to a call are definitions, called what the
/// call in their signature calls, behind an `@` for a macro, and found at that name,
/// whatever `where` clauses and types wrap the call.
pub proof fn law_definitions_have_the_name_of_their_call(
    s: Seq<char>,
    t: Seq<Element>,
    node: int,
    chain: Seq<int>,
    callee: int,
)
    requires
        leads_in(t, chain),
        t[chain.last()].kind == SyntaxKind::CALL_EXPR,
        first_child(t, chain.last()) == Some(callee),
        slice_at(s, t[callee].range.start as int, t[callee].range.end as int) is Some,
        ({
            ||| (t[node].kind == SyntaxKind::FUNCTION_DEF || t[node].kind == SyntaxKind::MACRO_DEF)
                && signature_of(t, node) == Some(chain[0])
            ||| t[node].kind == SyntaxKind::ASSIGNMENT_EXPR && assigns(t, node) && first_child(
                t,
                node,
            ) == Some(chain[0])
        }),
    ensures
        ({
            let text = slice_at(s, t[callee].range.start as int, t[callee].range.end as int)->0;
            &&& callable_of(s, t, node) is Some
            &&& callable_of(s, t, node)->0.selection == t[callee].range
            &&& callable_of(s, t, node)->0.range == t[node].range
            &&& callable_of(s, t, node)->0.name == (if t[node].kind == SyntaxKind::MACRO_DEF {
                "@"@ + text
            } else {
                text
            })
        }),
{
    lemma_leads_in(t, chain);
}

/// Nothing else is a definition: neither a node of another kind, nor an assignment
/// with another operator or to anything but a call.
pub proof fn law_only_functions_and_assignments_define(
    s: Seq<char>,
    t: Seq<Element>,
    node: int,
    chain: Seq<int>,
)
    ensures
        t[node].kind != SyntaxKind::FUNCTION_DEF && t[node].kind != SyntaxKind::MACRO_DEF
            && t[node].kind != SyntaxKind::ASSIGNMENT_EXPR ==> callable_of(s, t, node) is None,
        t[node].kind == SyntaxKind::ASSIGNMENT_EXPR && !assigns(t, node) ==> callable_of(
            s,
            t,
            node,
        ) is None,
        t[node].kind == SyntaxKind::ASSIGNMENT_EXPR && leads_in(t, chain) && first_child(t, node)
            == Some(chain[0]) && t[chain.last()].kind != SyntaxKind::CALL_EXPR ==> callable_of(
            s,
            t,
            node,
        ) is None,
{
    if leads_in(t, chain) {
        lemma_leads_in(t, chain);
    }
}

/// What a call calls is a call of it, be the call plain or broadcast, unless it is a
/// signature: where the token under the name belongs to it and no node further in has
/// its range.
pub proof fn law_callees_are_called(
    s: Seq<char>,
    t: Seq<Element>,
    name: int,
    token: usize,
)
    requires
        is_tree(t),
        t.len() <= usize::MAX,
        0 < name < t.len(),
        start_token(t, t[name].range.start) == Some(token),
        t[token as int].parent == name,
        t[t[name].parent as int].kind == SyntaxKind::CALL_EXPR || t[t[name].parent as int].kind
            == SyntaxKind::DOT_CALL_EXPR,
        first_child(t, t[name].parent as int) == Some(name),
        slice_at(s, t[name].range.start as int, t[name].range.end as int) is Some,
    ensures
        is_called(s, t, t[name].range) <==> !signs(t, t[name].parent as int),
{
    let range = t[name].range;
    let nodes = around(t, range.start);
    lemma_start_token(t, range.start);
    assert(token > 0);
    assert(well_placed(t, token as int));
    assert(nodes[0] == name as usize);
    let find = has_range(t, range);
    assert(nodes.take(0) =~= Seq::<usize>::empty());
    lemma_first_found_step(nodes, find, 0);
    lemma_first_found_stays(nodes, find, 1);
    assert(first_found(nodes, find) == Some(name as usize));
}

/// What is called the kind of a call is a call, plain or broadcast, and nothing else.
pub proof fn law_calls_are_plain_or_broadcast(kind: SyntaxKind)
    ensures
        calls(kind) <==> kind == SyntaxKind::CALL_EXPR || kind == SyntaxKind::DOT_CALL_EXPR,
{
}

/// A call stands in the nearest node around it that is a definition with a name or a
/// module with one; where there is none, in the file.
pub proof fn law_calls_stand_in_the_nearest_container(
    s: Seq<char>,
    t: Seq<Element>,
    offset: u32,
    k: int,
)
    ensures
        ({
            let nodes = around(t, offset);
            let named = |node: usize|
                callable_of(s, t, node as int) is Some || (t[node as int].kind
                    == SyntaxKind::MODULE_DEF && module_name_of(s, t, node as int) is Some);
            &&& 0 <= k < nodes.len() && named(nodes[k]) && (forall|i: int|
                0 <= i < k ==> !named(#[trigger] nodes[i])) ==> container_at(s, t, offset) == (
            if callable_of(s, t, nodes[k] as int) is Some {
                ContainerView::Callable(callable_of(s, t, nodes[k] as int)->0)
            } else {
                ContainerView::Module(
                    module_name_of(s, t, nodes[k] as int)->0,
                    t[nodes[k] as int].range,
                )
            })
            &&& (forall|i: int| 0 <= i < nodes.len() ==> !named(#[trigger] nodes[i]))
                ==> container_at(s, t, offset) is File
        }),
{
    let nodes = around(t, offset);
    let find = container_of(s, t);
    let named = |node: usize|
        callable_of(s, t, node as int) is Some || (t[node as int].kind == SyntaxKind::MODULE_DEF
            && module_name_of(s, t, node as int) is Some);
    if 0 <= k < nodes.len() && named(nodes[k]) && (forall|i: int|
        0 <= i < k ==> !named(#[trigger] nodes[i])) {
        lemma_nothing_found(nodes, find, k);
        lemma_first_found_step(nodes, find, k);
        lemma_first_found_stays(nodes, find, k + 1);
    }
    if forall|i: int| 0 <= i < nodes.len() ==> !named(#[trigger] nodes[i]) {
        lemma_nothing_found(nodes, find, nodes.len() as int);
        assert(nodes.take(nodes.len() as int) =~= nodes);
    }
}

proof fn lemma_nothing_found<T, U>(items: Seq<T>, find: spec_fn(T) -> Option<U>, n: int)
    requires
        0 <= n <= items.len(),
        forall|i: int| 0 <= i < n ==> find(#[trigger] items[i]) is None,
    ensures
        first_found(items.take(n), find) is None,
    decreases n,
{
    if n > 0 {
        lemma_nothing_found(items, find, n - 1);
        lemma_first_found_step(items, find, n - 1);
        assert(find(items[n - 1]) is None);
    } else {
        assert(items.take(0) =~= Seq::<T>::empty());
    }
}

/// The item for a file bears the last component of its path, or else its URI; the
/// items for a module and for a definition bear their names. Each leads to its name,
/// and that of a file to its start.
pub proof fn law_items_bear_their_names(
    container: ContainerView,
    uri: Seq<char>,
    path: Seq<Seq<char>>,
    t: Seq<Element>,
    s: Seq<char>,
    encoding: PositionEncoding,
)
    ensures
        ({
            let item = item_of_container(container, uri, path, t, s, encoding);
            &&& item.uri == uri
            &&& match container {
                ContainerView::Callable(c) => {
                    &&& item.kind == ItemKind::Function
                    &&& item.name == c.name
                    &&& item.detail == c.detail
                    &&& item.range == range_at(
                        s,
                        c.range.start as int,
                        c.range.end as int,
                        encoding,
                    )
                    &&& item.selection_range == range_at(
                        s,
                        c.selection.start as int,
                        c.selection.end as int,
                        encoding,
                    )
                },
                ContainerView::Module(name, range) => {
                    &&& item.kind == ItemKind::Module
                    &&& item.name == name.name
                    &&& item.detail is None
                    &&& item.range == range_at(s, range.start as int, range.end as int, encoding)
                    &&& item.selection_range == range_at(
                        s,
                        name.range.start as int,
                        name.range.end as int,
                        encoding,
                    )
                },
                ContainerView::File => {
                    &&& item.kind == ItemKind::File
                    &&& item.detail is None
                    &&& path.len() == 0 ==> item.name == uri
                    &&& path.len() > 1 ==> item.name == path.last()
                    &&& item.range == range_at(
                        s,
                        t[0].range.start as int,
                        t[0].range.end as int,
                        encoding,
                    )
                    &&& item.selection_range.start == item.selection_range.end
                    &&& item.selection_range.start.line == 0
                    &&& item.selection_range.start.character == 0
                },
            }
        }),
{
}

/// The definition under the cursor is the innermost around it whose name the cursor
/// touches, at either end too; where it touches no name of one, there is none.
pub proof fn law_definitions_are_found_by_their_names(
    s: Seq<char>,
    t: Seq<Element>,
    offset: u32,
    i: int,
)
    ensures
        ({
            let nodes = around(t, offset);
            let touched = |k: int|
                match callable_of(s, t, nodes[k] as int) {
                    Some(callable) => callable.selection.start <= offset && offset
                        <= callable.selection.end,
                    None => false,
                };
            &&& 0 <= i < nodes.len() && touched(i) && (forall|k: int|
                0 <= k < i ==> !#[trigger] touched(k)) ==> callable_found(s, t, offset) == Some(
                (nodes[i], callable_of(s, t, nodes[i] as int)->0),
            )
            &&& (forall|k: int| 0 <= k < nodes.len() ==> !#[trigger] touched(k)) ==> callable_found(
                s,
                t,
                offset,
            ) is None
        }),
{
    let nodes = around(t, offset);
    let touched = |k: int|
        match callable_of(s, t, nodes[k] as int) {
            Some(callable) => callable.selection.start <= offset && offset
                <= callable.selection.end,
            None => false,
        };
    let f = named_at(s, t, offset);
    assert forall|k: int| 0 <= k < nodes.len() implies (f(#[trigger] nodes[k]) is Some) == touched(
        k,
    ) by {}
    law_first_found_is_first(nodes, f, i);
    if forall|k: int| 0 <= k < nodes.len() ==> !#[trigger] touched(k) {
        assert forall|k: int| 0 <= k < nodes.len() implies f(#[trigger] nodes[k]) is None by {
            assert(!touched(k));
        }
    }
    if 0 <= i < nodes.len() && touched(i) && (forall|k: int|
        0 <= k < i ==> !#[trigger] touched(k)) {
        assert forall|k: int| 0 <= k < i implies f(#[trigger] nodes[k]) is None by {
            assert(!touched(k));
        }
        assert(f(nodes[i]) is Some);
    }
}

/// The item of a binding is that of its definition where it is a function, and there is
/// none for anything else.
pub proof fn law_only_functions_are_items(
    s: Seq<char>,
    t: Seq<Element>,
    model: SemanticModel,
    uri: Seq<char>,
    id: usize,
    encoding: PositionEncoding,
)
    ensures
        ({
            let binding = model.bindings@[id as int];
            let item = binding_item(s, t, model, uri, id, encoding);
            &&& binding.kind != BindingKind::Function ==> item is None
            &&& binding.kind == BindingKind::Function ==> match callable_found(
                s,
                t,
                binding.def_range.start,
            ) {
                Some((_, callable)) => item is Some && item->0.name == callable.name
                    && item->0.detail == callable.detail && item->0.uri == uri && item->0.kind
                    == ItemKind::Function,
                None => item is None,
            }
        }),
{
}

} // verus!
