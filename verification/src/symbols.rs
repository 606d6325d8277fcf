//! The parts of definitions and calls in a syntax tree.

use vstd::prelude::*;

use crate::selection::{lemma_start_token, pick_boundary_token, start_token};
use crate::semantic_tokens::{is_trivia, trivia};
use crate::strings::byte_len;
use crate::text::{law_slices_are_what_stands_between, slice_at, LineIndex, TextRange};
use crate::tree::{
    lemma_ends_bounded, lemma_next_touching, next_touching, Element, SyntaxKind, SyntaxTree,
    TokenAtOffset,
};

verus! {

/// The token at an offset: of two that meet there the better one to start from.
pub fn token_at(tree: &SyntaxTree, offset: u32) -> (r: Option<usize>)
    ensures
        r == start_token(tree@, offset),
        r is Some ==> r->0 < tree.elements.len() && tree@[r->0 as int].is_token,
{
    proof {
        lemma_start_token(tree@, offset);
    }
    match tree.token_at_offset(offset) {
        TokenAtOffset::Nothing => None,
        TokenAtOffset::Single(token) => Some(token),
        TokenAtOffset::Between(left, right) => {
            proof {
                lemma_next_touching(tree@, offset, 0);
                lemma_next_touching(tree@, offset, next_touching(tree@, offset, 0) + 1);
            }
            Some(pick_boundary_token(tree, left, right))
        },
    }
}

/// The first node directly under `node` from element `i` on.
pub open spec fn child_node_from(t: Seq<Element>, node: int, i: int) -> Option<int>
    decreases t[node].end - i,
{
    if i < 0 || i >= t[node].end || i >= t.len() {
        None
    } else if t[i].parent == node && !t[i].is_token {
        Some(i)
    } else {
        child_node_from(t, node, i + 1)
    }
}

/// The first node directly under a node.
pub open spec fn first_child(t: Seq<Element>, node: int) -> Option<int> {
    child_node_from(t, node, node + 1)
}

/// The first node directly under `node` from element `from` on.
pub fn next_child_node(tree: &SyntaxTree, node: usize, from: usize) -> (r: Option<usize>)
    requires
        tree.wf(),
        node < tree.elements.len(),
    ensures
        match r {
            Some(i) => child_node_from(tree@, node as int, from as int) == Some(i as int)
                && from <= i < tree.elements.len() && tree@[i as int].parent == node
                && !tree@[i as int].is_token && i < tree@[node as int].end,
            None => child_node_from(tree@, node as int, from as int) is None,
        },
{
    proof {
        lemma_ends_bounded(tree@, node as int);
    }
    let end = tree.elements[node].end;
    let mut i: usize = from;
    while i < end
        invariant
            node < tree.elements.len(),
            end == tree@[node as int].end,
            end <= tree.elements.len(),
            from <= i,
            child_node_from(tree@, node as int, from as int) == child_node_from(
                tree@,
                node as int,
                i as int,
            ),
        decreases end - i,
    {
        let e = tree.elements[i];
        if e.parent == node && !e.is_token {
            return Some(i);
        }
        i = i + 1;
    }
    None
}

/// The first node directly under `node`.
pub fn first_child_node(tree: &SyntaxTree, node: usize) -> (r: Option<usize>)
    requires
        tree.wf(),
        node < tree.elements.len(),
    ensures
        match r {
            Some(i) => first_child(tree@, node as int) == Some(i as int) && node < i
                < tree.elements.len() && i < tree@[node as int].end,
            None => first_child(tree@, node as int) is None,
        },
{
    proof {
        lemma_ends_bounded(tree@, node as int);
    }
    next_child_node(tree, node, node + 1)
}

/// The first token directly under `node` from element `i` on that is not blank.
pub open spec fn own_token_from(t: Seq<Element>, node: int, i: int) -> Option<int>
    decreases t[node].end - i,
{
    if i < 0 || i >= t[node].end || i >= t.len() {
        None
    } else if t[i].parent == node && t[i].is_token && !trivia(t[i].kind) {
        Some(i)
    } else {
        own_token_from(t, node, i + 1)
    }
}

/// The operator of an expression: the first token directly under it that is not
/// blank.
pub open spec fn operator_of(t: Seq<Element>, node: int) -> Option<int> {
    own_token_from(t, node, node + 1)
}

/// The operator of an expression.
pub fn op_token(tree: &SyntaxTree, node: usize) -> (r: Option<usize>)
    requires
        tree.wf(),
        node < tree.elements.len(),
    ensures
        match r {
            Some(i) => operator_of(tree@, node as int) == Some(i as int) && i
                < tree.elements.len(),
            None => operator_of(tree@, node as int) is None,
        },
{
    proof {
        lemma_ends_bounded(tree@, node as int);
    }
    let end = tree.elements[node].end;
    let mut i: usize = node + 1;
    while i < end
        invariant
            node < tree.elements.len(),
            end == tree@[node as int].end,
            end <= tree.elements.len(),
            node < i,
            operator_of(tree@, node as int) == own_token_from(tree@, node as int, i as int),
        decreases end - i,
    {
        let e = tree.elements[i];
        if e.parent == node && e.is_token && !is_trivia(e.kind) {
            return Some(i);
        }
        i = i + 1;
    }
    None
}

/// Whether a definition is spelled with a plain `=`.
pub open spec fn assigns(t: Seq<Element>, node: int) -> bool {
    match operator_of(t, node) {
        Some(token) => t[token].kind == SyntaxKind::EQ,
        None => false,
    }
}

/// Whether a definition is spelled with a plain `=`.
pub fn is_assignment(tree: &SyntaxTree, node: usize) -> (r: bool)
    requires
        tree.wf(),
        node < tree.elements.len(),
    ensures
        r == assigns(tree@, node as int),
{
    match op_token(tree, node) {
        Some(token) => match tree.elements[token].kind {
            SyntaxKind::EQ => true,
            _ => false,
        },
        None => false,
    }
}

/// The first signature directly under `node` from element `i` on.
pub open spec fn signature_from(t: Seq<Element>, node: int, i: int) -> Option<int>
    decreases t[node].end - i,
{
    if i < 0 || i >= t[node].end || i >= t.len() {
        None
    } else if t[i].parent == node && !t[i].is_token && t[i].kind == SyntaxKind::SIGNATURE {
        Some(i)
    } else {
        signature_from(t, node, i + 1)
    }
}

/// The expression that a definition's signature holds.
pub open spec fn signature_of(t: Seq<Element>, node: int) -> Option<int> {
    match signature_from(t, node, node + 1) {
        Some(signature) => first_child(t, signature),
        None => None,
    }
}

/// The expression that a definition's signature holds.
pub fn signature_expr(tree: &SyntaxTree, node: usize) -> (r: Option<usize>)
    requires
        tree.wf(),
        node < tree.elements.len(),
    ensures
        match r {
            Some(i) => signature_of(tree@, node as int) == Some(i as int) && i
                < tree.elements.len(),
            None => signature_of(tree@, node as int) is None,
        },
{
    proof {
        lemma_ends_bounded(tree@, node as int);
    }
    let end = tree.elements[node].end;
    let mut i: usize = node + 1;
    while i < end
        invariant
            tree.wf(),
            node < tree.elements.len(),
            end == tree@[node as int].end,
            end <= tree.elements.len(),
            node < i,
            signature_from(tree@, node as int, node + 1) == signature_from(
                tree@,
                node as int,
                i as int,
            ),
        decreases end - i,
    {
        let e = tree.elements[i];
        let signature = match e.kind {
            SyntaxKind::SIGNATURE => true,
            _ => false,
        };
        if e.parent == node && !e.is_token && signature {
            return first_child_node(tree, i);
        }
        i = i + 1;
    }
    None
}

/// Whether a node wraps the head of a signature: a `where` clause or a type.
pub open spec fn wraps(kind: SyntaxKind) -> bool {
    kind == SyntaxKind::WHERE_EXPR || kind == SyntaxKind::TYPE_ANNOTATION
}

/// The head of a signature: what is left once its wrappers are taken off.
pub open spec fn head_of(t: Seq<Element>, node: int) -> int
    decreases t.len() - node,
{
    if 0 <= node < t.len() && wraps(t[node].kind) {
        match first_child(t, node) {
            Some(child) => if node < child < t.len() {
                head_of(t, child)
            } else {
                node
            },
            None => node,
        }
    } else {
        node
    }
}

/// The head of a signature.
pub fn unwrap_head(tree: &SyntaxTree, node: usize) -> (r: usize)
    requires
        tree.wf(),
        node < tree.elements.len(),
    ensures
        r == head_of(tree@, node as int),
        r < tree.elements.len(),
{
    let mut at: usize = node;
    loop
        invariant_except_break
            tree.wf(),
            at < tree.elements.len(),
            head_of(tree@, node as int) == head_of(tree@, at as int),
        ensures
            at < tree.elements.len(),
            at == head_of(tree@, node as int),
        decreases tree.elements.len() - at,
    {
        let wrapper = match tree.elements[at].kind {
            SyntaxKind::WHERE_EXPR | SyntaxKind::TYPE_ANNOTATION => true,
            _ => false,
        };
        if !wrapper {
            break ;
        }
        match first_child_node(tree, at) {
            Some(child) => {
                at = child;
            },
            None => {
                break ;
            },
        }
    }
    at
}

/// The text of a node.
pub open spec fn node_text(s: Seq<char>, t: Seq<Element>, node: int) -> Option<Seq<char>> {
    slice_at(s, t[node].range.start as int, t[node].range.end as int)
}

/// A name with where it stands.
#[derive(Debug)]
pub struct NamedRange {
    pub name: String,
    pub range: TextRange,
}

/// What a [`NamedRange`] says.
pub struct NamedRangeView {
    pub name: Seq<char>,
    pub range: TextRange,
}

impl DeepView for NamedRange {
    type V = NamedRangeView;

    open spec fn deep_view(&self) -> NamedRangeView {
        NamedRangeView { name: self.name@, range: self.range }
    }
}

/// The name that a head spells.
pub open spec fn head_name_of(s: Seq<char>, t: Seq<Element>, node: int) -> Option<NamedRangeView> {
    match node_text(s, t, node) {
        Some(name) => Some(NamedRangeView { name, range: t[node].range }),
        None => None,
    }
}

/// The name of what a call calls: that of its first node.
pub open spec fn callee_of(s: Seq<char>, t: Seq<Element>, call: int) -> Option<NamedRangeView> {
    match first_child(t, call) {
        Some(child) => head_name_of(s, t, child),
        None => None,
    }
}

/// The name that a head spells.
pub fn head_name(tree: &SyntaxTree, node: usize, line_index: &LineIndex) -> (r: Option<NamedRange>)
    requires
        node < tree.elements.len(),
        line_index.wf(),
    ensures
        r.deep_view() == head_name_of(line_index@, tree@, node as int),
{
    let range = tree.elements[node].range;
    match line_index.slice(range.start as usize, range.end as usize) {
        Some(name) => Some(NamedRange { name, range }),
        None => None,
    }
}

/// The name of what a call calls.
pub fn callee_name(tree: &SyntaxTree, call: usize, line_index: &LineIndex) -> (r: Option<
    NamedRange,
>)
    requires
        tree.wf(),
        call < tree.elements.len(),
        line_index.wf(),
    ensures
        r.deep_view() == callee_of(line_index@, tree@, call as int),
{
    match first_child_node(tree, call) {
        Some(child) => head_name(tree, child, line_index),
        None => None,
    }
}

/// The rest of a signature behind the name, without the whitespace around it;
/// nothing where the name is all.
pub open spec fn detail_of(
    s: Seq<char>,
    signature: TextRange,
    selection: TextRange,
) -> Option<Seq<char>> {
    match slice_at(s, selection.end as int, signature.end as int) {
        Some(rest) => {
            let rest = crate::strings::trimmed(rest);
            if rest.len() == 0 {
                None
            } else {
                Some(rest)
            }
        },
        None => None,
    }
}

/// The rest of a signature behind the name.
pub fn signature_detail(signature: TextRange, selection: TextRange, line_index: &LineIndex) -> (r:
    Option<String>)
    requires
        line_index.wf(),
    ensures
        r.deep_view() == detail_of(line_index@, signature, selection),
{
    match line_index.slice(selection.end as usize, signature.end as usize) {
        Some(rest) => {
            let rest = crate::strings::trim(rest.as_str());
            if rest.as_str().is_empty() {
                None
            } else {
                Some(rest)
            }
        },
        None => None,
    }
}

/// Whether one element stands under another with nothing but `where` clauses and types
/// between them, each the first node under the one above.
pub open spec fn unwraps_to(t: Seq<Element>, node: int, head: int) -> bool
    decreases head - node,
{
    node == head || (0 <= node < head && (t[node].kind == SyntaxKind::WHERE_EXPR || t[node].kind
        == SyntaxKind::TYPE_ANNOTATION) && match first_child(t, node) {
        Some(child) => node < child <= head && unwraps_to(t, child, head),
        None => false,
    })
}

/// The head of a signature is what stands under all its `where` clauses and types.
pub proof fn law_heads_stand_under_their_wrappers(t: Seq<Element>, node: int, head: int)
    requires
        0 <= node <= head < t.len(),
        unwraps_to(t, node, head),
        t[head].kind != SyntaxKind::WHERE_EXPR && t[head].kind != SyntaxKind::TYPE_ANNOTATION,
    ensures
        head_of(t, node) == head,
    decreases head - node,
{
    if node != head {
        law_heads_stand_under_their_wrappers(t, first_child(t, node)->0, head);
    }
}

/// The first node under a node is the first element directly under it that is no token.
pub proof fn law_first_child_comes_first(t: Seq<Element>, node: int, child: int)
    requires
        0 <= node < child < t[node].end <= t.len(),
        t[child].parent == node && !t[child].is_token,
        forall|k: int| node < k < child ==> (#[trigger] t[k]).parent != node || t[k].is_token,
    ensures
        first_child(t, node) == Some(child),
{
    lemma_first_child_from(t, node, node + 1, child);
}

proof fn lemma_first_child_from(t: Seq<Element>, node: int, i: int, child: int)
    requires
        0 <= node < i <= child < t[node].end <= t.len(),
        t[child].parent == node && !t[child].is_token,
        forall|k: int| node < k < child ==> (#[trigger] t[k]).parent != node || t[k].is_token,
    ensures
        child_node_from(t, node, i) == Some(child),
    decreases child - i,
{
    if i < child {
        lemma_first_child_from(t, node, i + 1, child);
    }
}

/// A definition is spelled with `=` exactly where that is its first token that is not
/// whitespace.
pub proof fn law_assignments_are_spelled_with_equals(t: Seq<Element>, node: int, token: int)
    requires
        0 <= node < token < t[node].end <= t.len(),
        t[token].parent == node && t[token].is_token,
        t[token].kind != SyntaxKind::WHITESPACE && t[token].kind != SyntaxKind::NEWLINE,
        forall|k: int|
            node < k < token ==> (#[trigger] t[k]).parent != node || !t[k].is_token || t[k].kind
                == SyntaxKind::WHITESPACE || t[k].kind == SyntaxKind::NEWLINE,
    ensures
        assigns(t, node) <==> t[token].kind == SyntaxKind::EQ,
{
    lemma_first_token_from(t, node, node + 1, token);
}

proof fn lemma_first_token_from(t: Seq<Element>, node: int, i: int, token: int)
    requires
        0 <= node < i <= token < t[node].end <= t.len(),
        t[token].parent == node && t[token].is_token,
        t[token].kind != SyntaxKind::WHITESPACE && t[token].kind != SyntaxKind::NEWLINE,
        forall|k: int|
            node < k < token ==> (#[trigger] t[k]).parent != node || !t[k].is_token || t[k].kind
                == SyntaxKind::WHITESPACE || t[k].kind == SyntaxKind::NEWLINE,
    ensures
        own_token_from(t, node, i) == Some(token),
    decreases token - i,
{
    if i < token {
        lemma_first_token_from(t, node, i + 1, token);
    }
}

/// The detail of a signature is what stands behind the name up to its end, without the
/// whitespace around it; there is none where that leaves nothing.
pub proof fn law_details_stand_behind_the_name(
    before: Seq<char>,
    rest: Seq<char>,
    behind: Seq<char>,
    signature: TextRange,
    selection: TextRange,
)
    requires
        selection.end == byte_len(before),
        signature.end == byte_len(before + rest),
    ensures
        ({
            let detail = detail_of(before + rest + behind, signature, selection);
            let shown = crate::strings::trimmed(rest);
            &&& shown.len() == 0 ==> detail is None
            &&& shown.len() > 0 ==> detail == Some(shown)
        }),
{
    law_slices_are_what_stands_between(before, rest, behind);
}

} // verus!
