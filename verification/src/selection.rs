//! Selection ranges: from a position outward, along the nodes of the tree.

use vstd::prelude::*;

use crate::text::{fits, offset_at, range_at, LineIndex, Position, PositionEncoding, Range, TextRange};
use crate::text::lemma_offset_bounded;
use crate::tree::{
    ancestors, covers, is_tree, lemma_ancestors_bounded, lemma_ancestors_reach_root,
    lemma_next_touching, next_touching, tokens_at, well_placed, Element, SyntaxKind, SyntaxTree,
    TokenAtOffset,
};

verus! {

/// How good a token is to start from: names before other tokens before comments
/// before whitespace.
pub open spec fn priority(kind: SyntaxKind) -> int {
    match kind {
        SyntaxKind::WHITESPACE | SyntaxKind::NEWLINE => 0,
        SyntaxKind::COMMENT | SyntaxKind::BLOCK_COMMENT => 1,
        SyntaxKind::IDENT => 3,
        _ => 2,
    }
}

fn kind_priority(kind: SyntaxKind) -> (r: u8)
    ensures
        r == priority(kind),
{
    match kind {
        SyntaxKind::WHITESPACE | SyntaxKind::NEWLINE => 0,
        SyntaxKind::COMMENT | SyntaxKind::BLOCK_COMMENT => 1,
        SyntaxKind::IDENT => 3,
        _ => 2,
    }
}

/// Of two tokens that meet, the one to start from: the better one, and the right
/// one where both are as good.
pub open spec fn better_token(t: Seq<Element>, left: usize, right: usize) -> usize {
    if priority(t[right as int].kind) >= priority(t[left as int].kind) {
        right
    } else {
        left
    }
}

/// Of two tokens that meet, the one to start from.
pub fn pick_boundary_token(tree: &SyntaxTree, left: usize, right: usize) -> (r: usize)
    requires
        left < tree.elements.len(),
        right < tree.elements.len(),
    ensures
        r == better_token(tree@, left, right),
{
    if kind_priority(tree.elements[right].kind) >= kind_priority(tree.elements[left].kind) {
        right
    } else {
        left
    }
}

/// The token to start from at an offset.
pub open spec fn start_token(t: Seq<Element>, offset: u32) -> Option<usize> {
    match tokens_at(t, offset) {
        TokenAtOffset::Nothing => None,
        TokenAtOffset::Single(token) => Some(token),
        TokenAtOffset::Between(left, right) => Some(better_token(t, left, right)),
    }
}

/// Whether a token is a step of its own: whitespace is not.
pub open spec fn is_step(kind: SyntaxKind) -> bool {
    kind != SyntaxKind::WHITESPACE && kind != SyntaxKind::NEWLINE
}

/// A chain of ranges grown by the ranges of nodes, less those that do not differ
/// from the one before.
pub open spec fn grown(chain: Seq<TextRange>, t: Seq<Element>, nodes: Seq<usize>) -> Seq<TextRange>
    decreases nodes.len(),
{
    if nodes.len() == 0 {
        chain
    } else {
        let before = grown(chain, t, nodes.drop_last());
        let range = t[nodes.last() as int].range;
        if before.len() > 0 && before.last() == range {
            before
        } else {
            before.push(range)
        }
    }
}

/// The ranges at an offset, the innermost first: the token there, unless it is
/// whitespace, then the nodes around it.
pub open spec fn chain_at(t: Seq<Element>, offset: u32) -> Seq<TextRange> {
    match start_token(t, offset) {
        None => seq![t[0].range],
        Some(token) => grown(
            if is_step(t[token as int].kind) {
                seq![t[token as int].range]
            } else {
                Seq::empty()
            },
            t,
            ancestors(t, t[token as int].parent),
        ),
    }
}

/// The token to start from is a token of the tree.
pub proof fn lemma_start_token(t: Seq<Element>, offset: u32)
    requires
        t.len() <= usize::MAX,
    ensures
        start_token(t, offset) is Some ==> start_token(t, offset)->0 < t.len()
            && t[start_token(t, offset)->0 as int].is_token,
{
    lemma_next_touching(t, offset, 0);
    let left = next_touching(t, offset, 0);
    if left < t.len() {
        lemma_next_touching(t, offset, left + 1);
    }
}

/// Whether each range of a chain holds the one before it and differs from it.
pub open spec fn widens(chain: Seq<TextRange>) -> bool {
    forall|k: int|
        0 <= k < chain.len() - 1 ==> covers(#[trigger] chain[k + 1], chain[k]) && chain[k + 1]
            != chain[k]
}

proof fn lemma_grown_widens(chain: Seq<TextRange>, t: Seq<Element>, from: usize, n: int)
    requires
        is_tree(t),
        from < t.len(),
        widens(chain),
        chain.len() > 0 ==> covers(t[from as int].range, chain.last()),
        0 <= n <= ancestors(t, from).len(),
    ensures
        widens(grown(chain, t, ancestors(t, from).take(n))),
        n > 0 ==> grown(chain, t, ancestors(t, from).take(n)).len() > 0 && grown(
            chain,
            t,
            ancestors(t, from).take(n),
        ).last() == t[ancestors(t, from)[n - 1] as int].range,
        n == 0 ==> grown(chain, t, ancestors(t, from).take(n)) == chain,
    decreases n,
{
    let nodes = ancestors(t, from);
    if n > 0 {
        lemma_grown_widens(chain, t, from, n - 1);
        lemma_ancestors_bounded(t, from);
        lemma_ancestors_step(t, from, n - 1);
        let before = grown(chain, t, nodes.take(n - 1));
        assert(nodes.take(n).drop_last() =~= nodes.take(n - 1));
        let range = t[nodes[n - 1] as int].range;
        let after = grown(chain, t, nodes.take(n));
        if before.len() > 0 {
            if n > 1 {
                let inner = nodes[n - 2] as int;
                assert(t[inner].parent == nodes[n - 1]);
                assert(well_placed(t, inner));
                assert(covers(range, before.last()));
            } else {
                assert(nodes[0] == from);
            }
        }
        assert forall|k: int| 0 <= k < after.len() - 1 implies covers(
            #[trigger] after[k + 1],
            after[k],
        ) && after[k + 1] != after[k] by {
            if after.len() == before.len() || k < before.len() - 1 {
                assert(covers(before[k + 1], before[k]));
            }
        }
    } else {
        assert(nodes.take(0) =~= Seq::<usize>::empty());
    }
}

/// Each element of the way outward is the parent of the one before it.
proof fn lemma_ancestors_step(t: Seq<Element>, i: usize, k: int)
    requires
        is_tree(t),
        i < t.len(),
        0 <= k < ancestors(t, i).len(),
    ensures
        k > 0 ==> ancestors(t, i)[k] == t[ancestors(t, i)[k - 1] as int].parent && ancestors(
            t,
            i,
        )[k - 1] > 0,
        ancestors(t, i)[k] < t.len(),
    decreases i,
{
    lemma_ancestors_bounded(t, i);
    if i > 0 {
        assert(well_placed(t, i as int));
    }
    if k > 0 {
        let parent = t[i as int].parent;
        let rest = ancestors(t, parent);
        assert(ancestors(t, i) == seq![i] + rest);
        lemma_ancestors_bounded(t, parent);
        if k > 1 {
            lemma_ancestors_step(t, parent, k - 1);
            assert(ancestors(t, i)[k] == rest[k - 1]);
            assert(ancestors(t, i)[k - 1] == rest[k - 2]);
        } else {
            assert(ancestors(t, i)[1] == rest[0]);
            assert(ancestors(t, i)[0] == i);
        }
    }
}

/// The chain at an offset is never empty, each of its ranges strictly holds the
/// one before, and the last one is the whole document.
pub proof fn law_chain_widens(t: Seq<Element>, offset: u32)
    requires
        is_tree(t),
        t.len() <= usize::MAX,
    ensures
        chain_at(t, offset).len() > 0,
        widens(chain_at(t, offset)),
        chain_at(t, offset).last() == t[0].range,
{
    lemma_start_token(t, offset);
    match start_token(t, offset) {
        None => {},
        Some(token) => {
            let parent = t[token as int].parent;
            let start = if is_step(t[token as int].kind) {
                seq![t[token as int].range]
            } else {
                Seq::empty()
            };
            assert(token > 0);
            assert(well_placed(t, token as int));
            let nodes = ancestors(t, parent);
            lemma_ancestors_bounded(t, parent);
            lemma_ancestors_reach_root(t, parent);
            lemma_grown_widens(start, t, parent, nodes.len() as int);
            assert(nodes.take(nodes.len() as int) =~= nodes);
        },
    }
}

/// The ranges at an offset, the innermost first.
pub fn range_chain(tree: &SyntaxTree, offset: u32) -> (r: Vec<TextRange>)
    requires
        tree.wf(),
    ensures
        r@ == chain_at(tree@, offset),
        r.len() > 0,
        widens(r@),
        r@.last() == tree@[0].range,
{
    proof {
        law_chain_widens(tree@, offset);
        lemma_start_token(tree@, offset);
    }
    let token = match tree.token_at_offset(offset) {
        TokenAtOffset::Nothing => {
            return vec![tree.elements[0].range];
        },
        TokenAtOffset::Single(token) => token,
        TokenAtOffset::Between(left, right) => {
            proof {
                lemma_next_touching(tree@, offset, 0);
                lemma_next_touching(tree@, offset, next_touching(tree@, offset, 0) + 1);
            }
            pick_boundary_token(tree, left, right)
        },
    };
    let e = tree.elements[token];
    let mut chain: Vec<TextRange> = Vec::new();
    match e.kind {
        SyntaxKind::WHITESPACE | SyntaxKind::NEWLINE => {},
        _ => {
            chain.push(e.range);
        },
    }
    let ghost start = chain@;
    proof {
        assert(token > 0);
        assert(well_placed(tree@, token as int));
        assert(start =~= if is_step(e.kind) {
            seq![e.range]
        } else {
            Seq::empty()
        });
    }
    let nodes = tree.ancestors(e.parent);
    let mut i: usize = 0;
    proof {
        lemma_ancestors_bounded(tree@, e.parent);
        assert(nodes@.take(0) =~= Seq::<usize>::empty());
    }
    while i < nodes.len()
        invariant
            i <= nodes.len(),
            forall|k: int| 0 <= k < nodes.len() ==> #[trigger] nodes@[k] < tree.elements.len(),
            chain@ == grown(start, tree@, nodes@.take(i as int)),
            i > 0 ==> chain.len() > 0,
        decreases nodes.len() - i,
    {
        proof {
            assert(nodes@.take(i + 1).drop_last() =~= nodes@.take(i as int));
        }
        let range = tree.elements[nodes[i]].range;
        let count = chain.len();
        if count > 0 && chain[count - 1] == range {
        } else {
            chain.push(range);
        }
        i = i + 1;
    }
    proof {
        assert(nodes@.take(i as int) =~= nodes@);
    }
    chain
}

/// A selection with the wider one around it.
#[derive(Debug)]
pub struct SelectionRange {
    pub range: Range,
    pub parent: Option<Box<SelectionRange>>,
}

/// The ranges of a selection and all around it, the innermost first.
pub open spec fn linked(selection: SelectionRange) -> Seq<Range>
    decreases selection,
{
    match selection.parent {
        Some(parent) => seq![selection.range] + linked(*parent),
        None => seq![selection.range],
    }
}

/// Links a chain of ranges, the innermost first, into a selection.
pub fn link_chain(chain: &Vec<TextRange>, line_index: &LineIndex, encoding: PositionEncoding) -> (r:
    SelectionRange)
    requires
        line_index.wf(),
        chain.len() > 0,
    ensures
        linked(r) == Seq::new(
            chain.len() as nat,
            |i: int|
                range_at(line_index@, chain@[i].start as int, chain@[i].end as int, encoding),
        ),
{
    let ghost all = Seq::new(
        chain.len() as nat,
        |i: int| range_at(line_index@, chain@[i].start as int, chain@[i].end as int, encoding),
    );
    let mut i: usize = chain.len() - 1;
    let mut selection = SelectionRange {
        range: line_index.range(chain[i].start as usize, chain[i].end as usize, encoding),
        parent: None,
    };
    proof {
        assert(all.skip(i as int) =~= seq![all[i as int]]);
    }
    while i > 0
        invariant
            line_index.wf(),
            i < chain.len(),
            all == Seq::new(
                chain.len() as nat,
                |i: int|
                    range_at(line_index@, chain@[i].start as int, chain@[i].end as int, encoding),
            ),
            linked(selection) == all.skip(i as int),
        decreases i,
    {
        i = i - 1;
        let ghost inner = selection;
        selection =
        SelectionRange {
            range: line_index.range(chain[i].start as usize, chain[i].end as usize, encoding),
            parent: Some(Box::new(selection)),
        };
        proof {
            assert(all.skip(i as int) =~= seq![all[i as int]] + all.skip(i + 1));
        }
    }
    proof {
        assert(all.skip(0) =~= all);
    }
    selection
}

/// The selections at one position: the ranges there, the innermost first.
pub open spec fn selection_at(
    s: Seq<char>,
    t: Seq<Element>,
    position: Position,
    encoding: PositionEncoding,
) -> Seq<Range> {
    let chain = chain_at(t, offset_at(s, position, encoding) as u32);
    Seq::new(
        chain.len(),
        |i: int| range_at(s, chain[i].start as int, chain[i].end as int, encoding),
    )
}

/// The selections at each of `positions` in `text`, whose tree is `tree`.
pub fn compute_selection_ranges(
    text: &str,
    tree: &SyntaxTree,
    positions: &Vec<Position>,
    encoding: PositionEncoding,
) -> (r: Vec<SelectionRange>)
    requires
        fits(text@),
        tree.wf(),
    ensures
        r.len() == positions.len(),
        forall|i: int|
            0 <= i < r.len() ==> linked(#[trigger] r@[i]) == selection_at(
                text@,
                tree@,
                positions@[i],
                encoding,
            ),
{
    let line_index = LineIndex::new(text);
    let mut out: Vec<SelectionRange> = Vec::new();
    let mut i: usize = 0;
    while i < positions.len()
        invariant
            fits(text@),
            tree.wf(),
            line_index.wf(),
            line_index@ == text@,
            i <= positions.len(),
            out.len() == i,
            forall|k: int|
                0 <= k < i ==> linked(#[trigger] out@[k]) == selection_at(
                    text@,
                    tree@,
                    positions@[k],
                    encoding,
                ),
        decreases positions.len() - i,
    {
        proof {
            lemma_offset_bounded(text@, positions@[i as int], encoding);
        }
        let offset = line_index.position_to_byte(positions[i], encoding);
        let chain = range_chain(tree, offset as u32);
        let selection = link_chain(&chain, &line_index, encoding);
        proof {
            assert(linked(selection) =~= selection_at(
                text@,
                tree@,
                positions@[i as int],
                encoding,
            ));
        }
        out.push(selection);
        i = i + 1;
    }
    out
}

/// Whether a token is nothing but whitespace.
pub open spec fn is_blank(kind: SyntaxKind) -> bool {
    kind == SyntaxKind::WHITESPACE || kind == SyntaxKind::NEWLINE
}

/// Where two tokens meet, a name is preferred to anything else, anything else to a
/// comment, and a comment to whitespace; of two names, of two comments, of two stretches
/// of whitespace and of two other tokens the right one is taken.
pub proof fn law_names_are_selected_first(t: Seq<Element>, left: usize, right: usize)
    ensures
        ({
            let a = t[left as int].kind;
            let b = t[right as int].kind;
            let comment = |kind: SyntaxKind|
                kind == SyntaxKind::COMMENT || kind == SyntaxKind::BLOCK_COMMENT;
            let chosen = better_token(t, left, right);
            &&& b == SyntaxKind::IDENT ==> chosen == right
            &&& a == SyntaxKind::IDENT && b != SyntaxKind::IDENT ==> chosen == left
            &&& is_blank(a) ==> chosen == right
            &&& is_blank(b) && !is_blank(a) ==> chosen == left
            &&& comment(a) && !is_blank(b) ==> chosen == right
            &&& comment(b) && !is_blank(a) && !comment(a) ==> chosen == left
            &&& a != SyntaxKind::IDENT && !is_blank(b) && !comment(b) ==> chosen == right
        }),
{
}

/// Whatever holds the token under the cursor can be selected: the token itself, unless
/// it is whitespace, and every node around it; and nothing else can.
pub proof fn law_everything_around_is_selected(t: Seq<Element>, token: usize, offset: u32, k: int)
    requires
        is_tree(t),
        token < t.len(),
        start_token(t, offset) == Some(token),
    ensures
        ({
            let around = ancestors(t, t[token as int].parent);
            let chain = chain_at(t, offset);
            &&& !is_blank(t[token as int].kind) ==> chain[0] == t[token as int].range
            &&& 0 <= k < around.len() ==> chain.contains(t[around[k] as int].range)
            &&& 0 <= k < chain.len() ==> chain[k] == t[token as int].range || exists|i: int|
                0 <= i < around.len() && chain[k] == t[#[trigger] around[i] as int].range
        }),
{
    let around = ancestors(t, t[token as int].parent);
    let start = if is_step(t[token as int].kind) {
        seq![t[token as int].range]
    } else {
        Seq::empty()
    };
    lemma_grown_holds(start, t, around, k);
    lemma_grown_from(start, t, around, k);
    if !is_blank(t[token as int].kind) {
        lemma_grown_begins(start, t, around);
    }
}

proof fn lemma_grown_begins(chain: Seq<TextRange>, t: Seq<Element>, nodes: Seq<usize>)
    requires
        chain.len() > 0,
    ensures
        grown(chain, t, nodes).len() > 0,
        grown(chain, t, nodes)[0] == chain[0],
    decreases nodes.len(),
{
    if nodes.len() > 0 {
        lemma_grown_begins(chain, t, nodes.drop_last());
    }
}

proof fn lemma_grown_holds(chain: Seq<TextRange>, t: Seq<Element>, nodes: Seq<usize>, k: int)
    ensures
        0 <= k < nodes.len() ==> grown(chain, t, nodes).contains(t[nodes[k] as int].range),
    decreases nodes.len(),
{
    if 0 <= k < nodes.len() {
        let before = grown(chain, t, nodes.drop_last());
        let after = grown(chain, t, nodes);
        let range = t[nodes[k] as int].range;
        if k < nodes.len() - 1 {
            lemma_grown_holds(chain, t, nodes.drop_last(), k);
            let j = choose|j: int| 0 <= j < before.len() && before[j] == range;
            assert(after[j] == range);
        } else {
            assert(after[after.len() - 1] == range);
        }
    }
}

proof fn lemma_grown_from(chain: Seq<TextRange>, t: Seq<Element>, nodes: Seq<usize>, k: int)
    ensures
        0 <= k < grown(chain, t, nodes).len() ==> chain.contains(grown(chain, t, nodes)[k])
            || exists|i: int|
            0 <= i < nodes.len() && grown(chain, t, nodes)[k]
                == t[#[trigger] nodes[i] as int].range,
    decreases nodes.len(),
{
    if 0 <= k < grown(chain, t, nodes).len() {
        if nodes.len() == 0 {
            assert(chain.contains(chain[k]));
        } else {
            let front = nodes.drop_last();
            let before = grown(chain, t, front);
            lemma_grown_from(chain, t, front, k);
            if k < before.len() {
                if !chain.contains(before[k]) {
                    let i = choose|i: int|
                        0 <= i < front.len() && before[k] == t[#[trigger] front[i] as int].range;
                    assert(nodes[i] == front[i]);
                }
            } else {
                assert(t[nodes[nodes.len() - 1] as int].range == grown(chain, t, nodes)[k]);
            }
        }
    }
}

} // verus!
