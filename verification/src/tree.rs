//! Syntax trees as a list of elements.
//!
//! The elements of a tree stand in document order, each node before what it
//! holds, so that a node and all below it are one stretch of the list.

use vstd::prelude::*;

use crate::text::TextRange;

verus! {

/// What an element of a syntax tree is.
#[allow(non_camel_case_types)]
#[derive(Clone, Copy, Debug, PartialEq, Eq, Structural)]
pub enum SyntaxKind {
    // Trivia
    WHITESPACE,
    NEWLINE,
    COMMENT,
    BLOCK_COMMENT,
    // Tokens
    IDENT,
    AT,
    EQ,
    COMMA,
    SEMICOLON,
    RPAREN,
    CHAR,
    INTEGER,
    BIN_INT,
    OCT_INT,
    HEX_INT,
    FLOAT,
    FLOAT32,
    STRING_CONTENT,
    STRING_DELIM_OPEN,
    STRING_DELIM_CLOSE,
    STRING_PREFIX,
    STRING_SUFFIX,
    CMD_DELIM_OPEN,
    CMD_DELIM_CLOSE,
    // Keywords
    FUNCTION_KW,
    MACRO_KW,
    END_KW,
    IF_KW,
    ELSEIF_KW,
    ELSE_KW,
    BEGIN_KW,
    TRUE_KW,
    FALSE_KW,
    WHILE_KW,
    FOR_KW,
    LET_KW,
    QUOTE_KW,
    TRY_KW,
    CATCH_KW,
    FINALLY_KW,
    STRUCT_KW,
    MUTABLE_KW,
    MODULE_KW,
    BAREMODULE_KW,
    DO_KW,
    RETURN_KW,
    BREAK_KW,
    CONTINUE_KW,
    CONST_KW,
    GLOBAL_KW,
    LOCAL_KW,
    IMPORT_KW,
    USING_KW,
    EXPORT_KW,
    WHERE_KW,
    // Nodes
    ROOT,
    NAME,
    NONSTANDARD_IDENTIFIER,
    MACRO_NAME,
    STRING_LITERAL,
    CMD_LITERAL,
    ARG_LIST,
    ARG,
    KEYWORD_ARG,
    PARAMETERS,
    CALL_EXPR,
    DOT_CALL_EXPR,
    WHERE_EXPR,
    TYPE_ANNOTATION,
    ASSIGNMENT_EXPR,
    SIGNATURE,
    MODULE_DEF,
    /// A docstring with what it documents.
    DOC_ATTACHMENT,
    FUNCTION_DEF,
    MACRO_DEF,
    STRUCT_DEF,
    ABSTRACT_DEF,
    PRIMITIVE_DEF,
    TYPEGROUP_DEF,
    IF_EXPR,
    ELSEIF_CLAUSE,
    ELSE_CLAUSE,
    WHILE_EXPR,
    FOR_EXPR,
    LET_EXPR,
    BEGIN_EXPR,
    QUOTE_EXPR,
    TRY_EXPR,
    CATCH_CLAUSE,
    FINALLY_CLAUSE,
    DO_EXPR,
    USING_STMT,
    IMPORT_STMT,
    /// Any other token or node.
    OTHER,
}

/// A token or a node.
#[derive(Clone, Copy, Debug, PartialEq, Eq, Structural)]
pub struct Element {
    pub kind: SyntaxKind,
    pub range: TextRange,
    pub is_token: bool,
    /// The index of the node that holds it; the root's is its own.
    pub parent: usize,
    /// The index behind the last element below it.
    pub end: usize,
}

/// A syntax tree; its first element is the root.
#[derive(Debug)]
pub struct SyntaxTree {
    pub elements: Vec<Element>,
}

impl View for SyntaxTree {
    type V = Seq<Element>;

    open spec fn view(&self) -> Seq<Element> {
        self.elements@
    }
}

/// Whether one range holds another.
pub open spec fn covers(outer: TextRange, inner: TextRange) -> bool {
    outer.start <= inner.start && inner.end <= outer.end
}

/// Whether an element stands behind the node that holds it and within its
/// stretch, lies in its range, and has nothing below it where it is a token.
pub open spec fn well_placed(t: Seq<Element>, i: int) -> bool {
    let e = t[i];
    &&& e.parent < i
    &&& i < e.end <= t[e.parent as int].end
    &&& !t[e.parent as int].is_token
    &&& e.is_token ==> e.end == i + 1
    &&& covers(t[e.parent as int].range, e.range)
}

/// Whether the list is a tree: the root first, and each other element in its
/// place.
pub open spec fn is_tree(t: Seq<Element>) -> bool {
    &&& t.len() > 0
    &&& !t[0].is_token && t[0].parent == 0 && t[0].end == t.len()
    &&& forall|i: int| 0 < i < t.len() ==> #[trigger] well_placed(t, i)
    &&& forall|i: int| 0 <= i < t.len() ==> (#[trigger] t[i]).range.start <= t[i].range.end
}

impl SyntaxTree {
    /// The elements form a tree.
    pub open spec fn wf(&self) -> bool {
        is_tree(self@)
    }
}

/// Whether an element is a token that an offset touches, inside or at an end.
pub open spec fn touches(e: Element, offset: u32) -> bool {
    e.is_token && e.range.start < e.range.end && e.range.start <= offset <= e.range.end
}

/// The first index from `from` on whose element an offset touches, or the length.
pub open spec fn next_touching(t: Seq<Element>, offset: u32, from: int) -> int
    decreases t.len() - from,
{
    if from < 0 || from >= t.len() || touches(t[from], offset) {
        from
    } else {
        next_touching(t, offset, from + 1)
    }
}

/// The tokens at an offset.
#[derive(Clone, Copy, Debug, PartialEq, Eq, Structural)]
pub enum TokenAtOffset {
    Nothing,
    Single(usize),
    /// The offset lies between two.
    Between(usize, usize),
}

/// The tokens at an offset: none, one, or the two that meet there.
pub open spec fn tokens_at(t: Seq<Element>, offset: u32) -> TokenAtOffset {
    let left = next_touching(t, offset, 0);
    let right = next_touching(t, offset, left + 1);
    if left >= t.len() {
        TokenAtOffset::Nothing
    } else if right >= t.len() {
        TokenAtOffset::Single(left as usize)
    } else {
        TokenAtOffset::Between(left as usize, right as usize)
    }
}

/// An element and the nodes around it, the innermost first.
pub open spec fn ancestors(t: Seq<Element>, i: usize) -> Seq<usize>
    decreases i,
{
    if i >= t.len() {
        Seq::empty()
    } else if t[i as int].parent >= i {
        seq![i]
    } else {
        seq![i] + ancestors(t, t[i as int].parent)
    }
}

/// Where the search for the next touching token ends.
pub proof fn lemma_next_touching(t: Seq<Element>, offset: u32, from: int)
    requires
        0 <= from <= t.len(),
    ensures
        from <= next_touching(t, offset, from) <= t.len(),
        next_touching(t, offset, from) < t.len() ==> touches(
            t[next_touching(t, offset, from)],
            offset,
        ),
    decreases t.len() - from,
{
    if from < t.len() && !touches(t[from], offset) {
        lemma_next_touching(t, offset, from + 1);
    }
}

/// The elements around an element are elements of the tree.
pub proof fn lemma_ancestors_bounded(t: Seq<Element>, i: usize)
    ensures
        forall|k: int| 0 <= k < ancestors(t, i).len() ==> #[trigger] ancestors(t, i)[k] <= i
            && ancestors(t, i)[k] < t.len(),
        i < t.len() ==> ancestors(t, i).len() > 0 && ancestors(t, i)[0] == i,
    decreases i,
{
    if i < t.len() && t[i as int].parent < i {
        lemma_ancestors_bounded(t, t[i as int].parent);
        let rest = ancestors(t, t[i as int].parent);
        assert forall|k: int| 0 <= k < ancestors(t, i).len() implies #[trigger] ancestors(t, i)[k]
            <= i && ancestors(t, i)[k] < t.len() by {
            if k > 0 {
                assert(ancestors(t, i)[k] == rest[k - 1]);
            }
        }
    }
}

/// In a tree, the way outward ends at the root.
pub proof fn lemma_ancestors_reach_root(t: Seq<Element>, i: usize)
    requires
        is_tree(t),
        i < t.len(),
    ensures
        ancestors(t, i).last() == 0,
    decreases i,
{
    lemma_ancestors_bounded(t, i);
    if i > 0 {
        assert(well_placed(t, i as int));
    }
    if t[i as int].parent < i {
        lemma_ancestors_reach_root(t, t[i as int].parent);
        lemma_ancestors_bounded(t, t[i as int].parent);
        let rest = ancestors(t, t[i as int].parent);
        assert(ancestors(t, i).last() == rest.last());
    }
}

/// No stretch of a tree reaches behind its end.
pub proof fn lemma_ends_bounded(t: Seq<Element>, i: int)
    requires
        is_tree(t),
        0 <= i < t.len(),
    ensures
        i < t[i].end <= t.len(),
    decreases i,
{
    if i > 0 {
        assert(well_placed(t, i));
        lemma_ends_bounded(t, t[i].parent as int);
    }
}

impl SyntaxTree {
    fn find_touching(&self, offset: u32, from: usize) -> (r: usize)
        requires
            from <= self.elements.len(),
        ensures
            r == next_touching(self@, offset, from as int),
            from <= r <= self.elements.len(),
    {
        let mut i: usize = from;
        while i < self.elements.len()
            invariant
                from <= i <= self.elements.len(),
                next_touching(self@, offset, from as int) == next_touching(
                    self@,
                    offset,
                    i as int,
                ),
            decreases self.elements.len() - i,
        {
            let e = self.elements[i];
            if e.is_token && e.range.start < e.range.end && e.range.start <= offset && offset
                <= e.range.end {
                return i;
            }
            i = i + 1;
        }
        i
    }

    /// The tokens at an offset.
    pub fn token_at_offset(&self, offset: u32) -> (r: TokenAtOffset)
        ensures
            r == tokens_at(self@, offset),
    {
        let left = self.find_touching(offset, 0);
        if left >= self.elements.len() {
            return TokenAtOffset::Nothing;
        }
        let right = self.find_touching(offset, left + 1);
        if right >= self.elements.len() {
            TokenAtOffset::Single(left)
        } else {
            TokenAtOffset::Between(left, right)
        }
    }

    /// The element and the nodes around it, the innermost first.
    pub fn ancestors(&self, index: usize) -> (r: Vec<usize>)
        requires
            index < self.elements.len(),
        ensures
            r@ == ancestors(self@, index),
    {
        let mut out: Vec<usize> = Vec::new();
        let mut i: usize = index;
        proof {
            assert(Seq::<usize>::empty() + ancestors(self@, i) =~= ancestors(self@, index));
        }
        loop
            invariant_except_break
                i < self.elements.len(),
                out@ + ancestors(self@, i) == ancestors(self@, index),
            ensures
                out@ == ancestors(self@, index),
            decreases i,
        {
            let ghost before = out@;
            out.push(i);
            let parent = self.elements[i].parent;
            if parent >= i {
                proof {
                    assert(out@ =~= before + seq![i]);
                }
                break ;
            }
            proof {
                assert(out@ + ancestors(self@, parent) =~= before + ancestors(self@, i));
            }
            i = parent;
        }
        out
    }
}

/// The tokens at an offset are the first two that hold it or meet at it: no token before
/// the first of them does, and none between the two.
pub proof fn law_tokens_at_an_offset_hold_it(t: Seq<Element>, offset: u32, k: int)
    requires
        t.len() <= usize::MAX,
        0 <= k < t.len(),
        t[k].is_token && t[k].range.start < t[k].range.end,
        t[k].range.start <= offset && offset <= t[k].range.end,
    ensures
        match tokens_at(t, offset) {
            TokenAtOffset::Nothing => false,
            TokenAtOffset::Single(token) => token == k,
            TokenAtOffset::Between(left, right) => left < right && (k == left || k >= right),
        },
{
    lemma_next_touching(t, offset, 0);
    lemma_none_is_passed(t, offset, 0, k);
    let left = next_touching(t, offset, 0);
    lemma_next_touching(t, offset, left + 1);
    if k > left {
        lemma_none_is_passed(t, offset, left + 1, k);
    }
}

proof fn lemma_none_is_passed(t: Seq<Element>, offset: u32, from: int, k: int)
    requires
        0 <= from <= k < t.len(),
        touches(t[k], offset),
    ensures
        next_touching(t, offset, from) <= k,
    decreases k - from,
{
    if from < k && !touches(t[from], offset) {
        lemma_none_is_passed(t, offset, from + 1, k);
    }
}

/// Around an element are, from the inside out, itself, the node that holds it, and what
/// is around that one.
pub proof fn law_ancestors_lead_to_the_root(t: Seq<Element>, i: usize)
    requires
        is_tree(t),
        i < t.len(),
    ensures
        ancestors(t, i).len() > 0,
        ancestors(t, i)[0] == i,
        ancestors(t, i).last() == 0,
        forall|k: int|
            0 <= k < ancestors(t, i).len() - 1 ==> (#[trigger] t[ancestors(t, i)[k] as int]).parent
                == ancestors(t, i)[k + 1],
    decreases i,
{
    let chain = ancestors(t, i);
    if i > 0 {
        assert(well_placed(t, i as int));
        let p = t[i as int].parent;
        law_ancestors_lead_to_the_root(t, p);
        let rest = ancestors(t, p);
        assert(chain =~= seq![i] + rest);
        assert forall|k: int| 0 <= k < chain.len() - 1 implies (#[trigger] t[chain[k] as int]).parent
            == chain[k + 1] by {
            if k > 0 {
                assert(chain[k] == rest[k - 1]);
                assert(chain[k + 1] == rest[k]);
                assert(t[rest[k - 1] as int].parent == rest[k]);
            }
        }
    } else {
        assert(chain =~= seq![i]);
    }
}

} // verus!
