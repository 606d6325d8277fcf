//! Formatting: from a formatted text to the edits that bring it about.

use similar::{DiffTag, TextDiff};
use vstd::prelude::*;

use crate::diagnostics::{Diagnostic, DiagnosticSeverity, DiagnosticView};
use crate::edits::{
    edit_end, edit_start, edited, edited_part, edits_ascend, edits_reach, TextEdit, TextEditView,
};
use crate::strings::{
    append_pieces, byte_len, byte_length, joined, lemma_byte_len_concat, lemma_byte_len_monotone,
    lemma_joined_split, same_text,
};
use crate::text::{
    char_index, fits, law_offset_round_trip, lemma_char_index, lemma_char_index_of_boundary,
    lemma_line_begin, lemma_offset_bounded, lemma_position_exact, offset_at, on_boundary,
    position_at, range_at, slice_at, LineIndex, Position, PositionEncoding, Range,
    TextRange,
};

verus! {

/// One step of a line diff: the lines `old_start..old_end` of the old text stand
/// where the lines `new_start..new_end` of the new text do.
#[derive(Clone, Copy, Debug, PartialEq, Eq, Structural)]
pub struct LineOp {
    pub equal: bool,
    pub old_start: usize,
    pub old_end: usize,
    pub new_start: usize,
    pub new_end: usize,
}

/// Two texts cut into lines, and the steps that lead from one to the other.
#[derive(Debug)]
pub struct LineDiff {
    pub old_lines: Vec<String>,
    pub new_lines: Vec<String>,
    pub ops: Vec<LineOp>,
}

/// What a [`LineDiff`] says.
pub struct LineDiffView {
    pub old_lines: Seq<Seq<char>>,
    pub new_lines: Seq<Seq<char>>,
    pub ops: Seq<LineOp>,
}

impl DeepView for LineDiff {
    type V = LineDiffView;

    open spec fn deep_view(&self) -> LineDiffView {
        LineDiffView {
            old_lines: self.old_lines.deep_view(),
            new_lines: self.new_lines.deep_view(),
            ops: self.ops@,
        }
    }
}

/// The line diff of two texts as `similar::TextDiff::from_lines` makes it.
pub uninterp spec fn line_diff_of(old: Seq<char>, new: Seq<char>) -> LineDiffView;

/// `similar::TextDiff::from_lines`, with the lines and the operations of its
/// result. The lines of either side, put together, are that side's text; beyond
/// that the diff is named, not described, and nothing is claimed of how its
/// operations fit the lines.
#[verifier::external_body]
fn diff_lines(old: &str, new: &str) -> (r: LineDiff)
    ensures
        r.deep_view() == line_diff_of(old@, new@),
        joined(r.deep_view().old_lines) == old@,
        joined(r.deep_view().new_lines) == new@,
{
    let diff = TextDiff::from_lines(old, new);
    LineDiff {
        old_lines: diff.iter_old_slices().map(str::to_string).collect(),
        new_lines: diff.iter_new_slices().map(str::to_string).collect(),
        ops: diff.ops().iter().map(|op| LineOp {
            equal: matches!(op.tag(), DiffTag::Equal),
            old_start: op.old_range().start,
            old_end: op.old_range().end,
            new_start: op.new_range().start,
            new_end: op.new_range().end,
        }).collect(),
    }
}

/// A run of changed lines, on either side.
#[derive(Clone, Copy, Debug, PartialEq, Eq, Structural)]
pub struct Hunk {
    pub old_start: usize,
    pub old_end: usize,
    pub new_start: usize,
    pub new_end: usize,
}

/// The hunks of a diff: its unequal steps, where two that meet on both sides are
/// one.
pub open spec fn merged(ops: Seq<LineOp>) -> Seq<Hunk>
    decreases ops.len(),
{
    if ops.len() == 0 {
        Seq::empty()
    } else {
        let before = merged(ops.drop_last());
        let op = ops.last();
        if op.equal {
            before
        } else if before.len() > 0 && before.last().old_end == op.old_start
            && before.last().new_end == op.new_start {
            before.drop_last().push(
                Hunk {
                    old_start: before.last().old_start,
                    old_end: op.old_end,
                    new_start: before.last().new_start,
                    new_end: op.new_end,
                },
            )
        } else {
            before.push(
                Hunk {
                    old_start: op.old_start,
                    old_end: op.old_end,
                    new_start: op.new_start,
                    new_end: op.new_end,
                },
            )
        }
    }
}

/// How many old lines the hunks have dealt with.
pub open spec fn hunks_reach(hunks: Seq<Hunk>) -> int {
    if hunks.len() == 0 {
        0
    } else {
        hunks.last().old_end as int
    }
}

/// Whether the hunks lie within both texts and come in the order of the old one.
pub open spec fn placed(hunks: Seq<Hunk>, old_count: nat, new_count: nat) -> bool
    decreases hunks.len(),
{
    hunks.len() == 0 || {
        &&& placed(hunks.drop_last(), old_count, new_count)
        &&& hunks_reach(hunks.drop_last()) <= hunks.last().old_start
        &&& hunks.last().old_start <= hunks.last().old_end <= old_count
        &&& hunks.last().new_start <= hunks.last().new_end <= new_count
    }
}

/// The old text with every hunk replaced, up to the end of the last hunk.
pub open spec fn rebuilt_part(
    old: Seq<Seq<char>>,
    new: Seq<Seq<char>>,
    hunks: Seq<Hunk>,
) -> Seq<char>
    decreases hunks.len(),
{
    if hunks.len() == 0 {
        Seq::empty()
    } else {
        let h = hunks.last();
        rebuilt_part(old, new, hunks.drop_last()) + joined(
            old.subrange(hunks_reach(hunks.drop_last()), h.old_start as int),
        ) + joined(new.subrange(h.new_start as int, h.new_end as int))
    }
}

/// The old text with every hunk replaced.
pub open spec fn rebuilt(old: Seq<Seq<char>>, new: Seq<Seq<char>>, hunks: Seq<Hunk>) -> Seq<char> {
    rebuilt_part(old, new, hunks) + joined(old.subrange(hunks_reach(hunks), old.len() as int))
}

/// How many bytes of the old text the hunks replace.
pub open spec fn covered(old: Seq<Seq<char>>, hunks: Seq<Hunk>) -> nat
    decreases hunks.len(),
{
    if hunks.len() == 0 {
        0
    } else {
        covered(old, hunks.drop_last()) + byte_len(
            joined(old.subrange(hunks.last().old_start as int, hunks.last().old_end as int)),
        )
    }
}

/// Whether hunks are worth sending: they turn the old text into the new one, and
/// replace no more than half of it.
pub open spec fn worth_sending(
    old: Seq<Seq<char>>,
    new: Seq<Seq<char>>,
    hunks: Seq<Hunk>,
) -> bool {
    &&& placed(hunks, old.len(), new.len())
    &&& rebuilt(old, new, hunks) == joined(new)
    &&& 2 * covered(old, hunks) <= byte_len(joined(old))
}

/// The edit that one hunk becomes, in a document `s` whose bytes from `base` on
/// are the old lines.
pub open spec fn hunk_edit(
    s: Seq<char>,
    base: int,
    old: Seq<Seq<char>>,
    new: Seq<Seq<char>>,
    hunk: Hunk,
    encoding: PositionEncoding,
) -> TextEditView {
    TextEditView {
        range: range_at(
            s,
            base + byte_len(joined(old.take(hunk.old_start as int))),
            base + byte_len(joined(old.take(hunk.old_end as int))),
            encoding,
        ),
        new_text: joined(new.subrange(hunk.new_start as int, hunk.new_end as int)),
    }
}

/// The edits for a diff, or `None` where one replacement serves better.
pub open spec fn diff_edits(
    s: Seq<char>,
    base: int,
    diff: LineDiffView,
    encoding: PositionEncoding,
) -> Option<Seq<TextEditView>> {
    let hunks = merged(diff.ops);
    if worth_sending(diff.old_lines, diff.new_lines, hunks) {
        Some(
            Seq::new(
                hunks.len(),
                |i: int|
                    hunk_edit(s, base, diff.old_lines, diff.new_lines, hunks[i], encoding),
            ),
        )
    } else {
        None
    }
}

/// The byte offset at which each line begins, with the total length behind the
/// last one.
pub fn line_offsets(lines: &Vec<String>) -> (r: Vec<usize>)
    requires
        byte_len(joined(lines.deep_view())) <= usize::MAX,
    ensures
        r.len() == lines.len() + 1,
        forall|k: int|
            0 <= k <= lines.len() ==> #[trigger] r@[k] == byte_len(
                joined(lines.deep_view().take(k)),
            ),
{
    let ghost all = lines.deep_view();
    let mut offsets: Vec<usize> = Vec::new();
    offsets.push(0);
    let mut at: usize = 0;
    let mut i: usize = 0;
    proof {
        assert(all.take(0) =~= Seq::<Seq<char>>::empty());
    }
    while i < lines.len()
        invariant
            i <= lines.len(),
            all == lines.deep_view(),
            byte_len(joined(all)) <= usize::MAX,
            at == byte_len(joined(all.take(i as int))),
            offsets.len() == i + 1,
            forall|k: int|
                0 <= k <= i ==> #[trigger] offsets@[k] == byte_len(joined(all.take(k))),
        decreases lines.len() - i,
    {
        proof {
            assert(all.take(i + 1).drop_last() =~= all.take(i as int));
            assert(all.take(all.len() as int) =~= all);
            lemma_byte_len_concat(joined(all.take(i as int)), all[i as int]);
            lemma_joined_split(all, i + 1, all.len() as int);
            lemma_byte_len_concat(
                joined(all.take(i + 1)),
                joined(all.subrange(i + 1, all.len() as int)),
            );
        }
        at = at + byte_length(lines[i].as_str());
        offsets.push(at);
        i = i + 1;
    }
    offsets
}

/// The hunks of a diff.
fn merge_ops(ops: &Vec<LineOp>) -> (r: Vec<Hunk>)
    ensures
        r@ == merged(ops@),
{
    let mut hunks: Vec<Hunk> = Vec::new();
    let mut i: usize = 0;
    proof {
        assert(ops@.take(0) =~= Seq::<LineOp>::empty());
    }
    while i < ops.len()
        invariant
            i <= ops.len(),
            hunks@ == merged(ops@.take(i as int)),
        decreases ops.len() - i,
    {
        proof {
            assert(ops@.take(i + 1).drop_last() =~= ops@.take(i as int));
        }
        let op = ops[i];
        i = i + 1;
        if !op.equal {
            let count = hunks.len();
            let meets = count > 0 && hunks[count - 1].old_end == op.old_start && hunks[count
                - 1].new_end == op.new_start;
            if meets {
                let last = hunks[count - 1];
                hunks.pop();
                hunks.push(
                    Hunk {
                        old_start: last.old_start,
                        old_end: op.old_end,
                        new_start: last.new_start,
                        new_end: op.new_end,
                    },
                );
            } else {
                hunks.push(
                    Hunk {
                        old_start: op.old_start,
                        old_end: op.old_end,
                        new_start: op.new_start,
                        new_end: op.new_end,
                    },
                );
            }
        }
    }
    proof {
        assert(ops@.take(i as int) =~= ops@);
    }
    hunks
}

proof fn lemma_placed_prefix(hunks: Seq<Hunk>, n: int, old_count: nat, new_count: nat)
    requires
        0 <= n <= hunks.len(),
        placed(hunks, old_count, new_count),
    ensures
        placed(hunks.take(n), old_count, new_count),
    decreases hunks.len() - n,
{
    if n == hunks.len() {
        assert(hunks.take(n) =~= hunks);
    } else {
        lemma_placed_prefix(hunks, n + 1, old_count, new_count);
        assert(hunks.take(n + 1).drop_last() =~= hunks.take(n));
    }
}

proof fn lemma_reach_bounded(hunks: Seq<Hunk>, old_count: nat, new_count: nat)
    requires
        placed(hunks, old_count, new_count),
    ensures
        0 <= hunks_reach(hunks) <= old_count,
{
}

/// The bytes that hunks replace are bytes of the old text.
proof fn lemma_covered_bounded(
    old: Seq<Seq<char>>,
    hunks: Seq<Hunk>,
    new_count: nat,
)
    requires
        placed(hunks, old.len(), new_count),
    ensures
        covered(old, hunks) <= byte_len(joined(old.take(hunks_reach(hunks)))),
    decreases hunks.len(),
{
    if hunks.len() > 0 {
        let before = hunks.drop_last();
        let h = hunks.last();
        lemma_covered_bounded(old, before, new_count);
        lemma_joined_split(old, hunks_reach(before), h.old_start as int);
        lemma_joined_split(old, h.old_start as int, h.old_end as int);
        lemma_byte_len_concat(
            joined(old.take(hunks_reach(before))),
            joined(old.subrange(hunks_reach(before), h.old_start as int)),
        );
        lemma_byte_len_concat(
            joined(old.take(h.old_start as int)),
            joined(old.subrange(h.old_start as int, h.old_end as int)),
        );
    }
}

/// Whether the hunks lie within both texts and turn the old one into the new.
fn hunks_rebuild(diff: &LineDiff, hunks: &Vec<Hunk>) -> (r: bool)
    ensures
        r == (placed(hunks@, diff.old_lines.len() as nat, diff.new_lines.len() as nat) && rebuilt(
            diff.deep_view().old_lines,
            diff.deep_view().new_lines,
            hunks@,
        ) == joined(diff.deep_view().new_lines)),
{
    let ghost old = diff.old_lines.deep_view();
    let ghost new = diff.new_lines.deep_view();
    let mut out = String::new();
    let mut reach: usize = 0;
    let mut i: usize = 0;
    proof {
        assert(hunks@.take(0) =~= Seq::<Hunk>::empty());
    }
    while i < hunks.len()
        invariant
            i <= hunks.len(),
            old == diff.old_lines.deep_view(),
            new == diff.new_lines.deep_view(),
            placed(hunks@.take(i as int), old.len(), new.len()),
            reach == hunks_reach(hunks@.take(i as int)),
            reach <= old.len(),
            out@ == rebuilt_part(old, new, hunks@.take(i as int)),
        decreases hunks.len() - i,
    {
        let h = hunks[i];
        proof {
            assert(hunks@.take(i + 1).drop_last() =~= hunks@.take(i as int));
        }
        let fits_old = reach <= h.old_start && h.old_start <= h.old_end && h.old_end
            <= diff.old_lines.len();
        let fits_new = h.new_start <= h.new_end && h.new_end <= diff.new_lines.len();
        if !(fits_old && fits_new) {
            proof {
                if placed(hunks@, old.len(), new.len()) {
                    lemma_placed_prefix(hunks@, i + 1, old.len(), new.len());
                }
            }
            return false;
        }
        append_pieces(&mut out, &diff.old_lines, reach, h.old_start);
        append_pieces(&mut out, &diff.new_lines, h.new_start, h.new_end);
        reach = h.old_end;
        i = i + 1;
    }
    append_pieces(&mut out, &diff.old_lines, reach, diff.old_lines.len());
    let mut target = String::new();
    append_pieces(&mut target, &diff.new_lines, 0, diff.new_lines.len());
    proof {
        assert(hunks@.take(i as int) =~= hunks@);
        assert(new.subrange(0, new.len() as int) =~= new);
        assert(target@ =~= joined(new));
    }
    same_text(out.as_str(), target.as_str())
}

/// The edits for a diff whose old lines stand at byte `base` of the document, or
/// `None` where the diff is not worth sending as hunks.
///
/// The edits, applied to the document, replace the old lines with the new ones
/// and leave the rest alone.
pub fn hunk_edits(
    line_index: &LineIndex,
    base: usize,
    diff: &LineDiff,
    encoding: PositionEncoding,
) -> (r: Option<Vec<TextEdit>>)
    requires
        line_index.wf(),
        base + byte_len(joined(diff.deep_view().old_lines)) <= usize::MAX,
    ensures
        r.deep_view() == diff_edits(line_index@, base as int, diff.deep_view(), encoding),
        r is Some ==> forall|before: Seq<char>, after: Seq<char>|
            byte_len(before) == base && line_index@ == #[trigger] (before + joined(
                diff.deep_view().old_lines,
            ) + after) ==> {
                &&& edits_ascend(line_index@, r->0.deep_view(), encoding)
                &&& edited(line_index@, r->0.deep_view(), encoding) == before + joined(
                    diff.deep_view().new_lines,
                ) + after
            },
{
    let ghost s = line_index@;
    let ghost old = diff.old_lines.deep_view();
    let ghost new = diff.new_lines.deep_view();
    let hunks = merge_ops(&diff.ops);
    if !hunks_rebuild(diff, &hunks) {
        return None;
    }
    proof {
        lemma_covered_bounded(old, hunks@, new.len());
        lemma_reach_bounded(hunks@, old.len(), new.len());
        lemma_joined_split(old, hunks_reach(hunks@), old.len() as int);
        assert(old.take(old.len() as int) =~= old);
        lemma_byte_len_concat(
            joined(old.take(hunks_reach(hunks@))),
            joined(old.subrange(hunks_reach(hunks@), old.len() as int)),
        );
    }
    let offsets = line_offsets(&diff.old_lines);
    let mut edits: Vec<TextEdit> = Vec::new();
    let mut replaced: usize = 0;
    let mut i: usize = 0;
    proof {
        assert(hunks@.take(0) =~= Seq::<Hunk>::empty());
    }
    while i < hunks.len()
        invariant
            i <= hunks.len(),
            line_index.wf(),
            s == line_index@,
            old == diff.old_lines.deep_view(),
            new == diff.new_lines.deep_view(),
            hunks@ == merged(diff.ops@),
            base + byte_len(joined(old)) <= usize::MAX,
            placed(hunks@, old.len(), new.len()),
            covered(old, hunks@) <= byte_len(joined(old)),
            replaced == covered(old, hunks@.take(i as int)),
            offsets.len() == old.len() + 1,
            forall|k: int|
                0 <= k <= old.len() ==> #[trigger] offsets@[k] == byte_len(joined(old.take(k))),
            edits.len() == i,
            forall|k: int|
                0 <= k < i ==> #[trigger] edits@[k].deep_view() == hunk_edit(
                    s,
                    base as int,
                    old,
                    new,
                    hunks@[k],
                    encoding,
                ),
        decreases hunks.len() - i,
    {
        let h = hunks[i];
        proof {
            lemma_placed_prefix(hunks@, i + 1, old.len(), new.len());
            assert(hunks@.take(i + 1).drop_last() =~= hunks@.take(i as int));
            lemma_covered_monotone(old, hunks@, i + 1);
            lemma_joined_split(old, h.old_start as int, h.old_end as int);
            lemma_byte_len_concat(
                joined(old.take(h.old_start as int)),
                joined(old.subrange(h.old_start as int, h.old_end as int)),
            );
            lemma_joined_split(old, h.old_end as int, old.len() as int);
            assert(old.take(old.len() as int) =~= old);
            lemma_byte_len_concat(
                joined(old.take(h.old_end as int)),
                joined(old.subrange(h.old_end as int, old.len() as int)),
            );
        }
        let start = offsets[h.old_start];
        let end = offsets[h.old_end];
        replaced = replaced + (end - start);
        let mut new_text = String::new();
        append_pieces(&mut new_text, &diff.new_lines, h.new_start, h.new_end);
        proof {
            assert(new_text@ =~= joined(new.subrange(h.new_start as int, h.new_end as int)));
        }
        edits.push(
            TextEdit { range: line_index.range(base + start, base + end, encoding), new_text },
        );
        i = i + 1;
    }
    proof {
        assert(hunks@.take(i as int) =~= hunks@);
        assert(edits.deep_view() =~= Seq::new(
            hunks@.len(),
            |k: int| hunk_edit(s, base as int, old, new, hunks@[k], encoding),
        ));
    }
    let total = offsets[diff.old_lines.len()];
    proof {
        assert(old.take(old.len() as int) =~= old);
    }
    if replaced > total - replaced {
        return None;
    }
    proof {
        assert forall|before: Seq<char>, after: Seq<char>|
            byte_len(before) == base && s == #[trigger] (before + joined(old) + after) implies {
            &&& edits_ascend(s, edits.deep_view(), encoding)
            &&& edited(s, edits.deep_view(), encoding) == before + joined(new) + after
        } by {
            line_index.lemma_fits();
            lemma_edits_rebuild(s, before, after, old, new, hunks@, edits.deep_view(), encoding);
        }
    }
    Some(edits)
}

proof fn lemma_covered_monotone(old: Seq<Seq<char>>, hunks: Seq<Hunk>, n: int)
    requires
        0 <= n <= hunks.len(),
    ensures
        covered(old, hunks.take(n)) <= covered(old, hunks),
    decreases hunks.len() - n,
{
    if n == hunks.len() {
        assert(hunks.take(n) =~= hunks);
    } else {
        lemma_covered_monotone(old, hunks, n + 1);
        assert(hunks.take(n + 1).drop_last() =~= hunks.take(n));
    }
}

/// The offset in front of old line `k` leads to a position and back to the
/// character there.
proof fn lemma_line_boundary(
    s: Seq<char>,
    before: Seq<char>,
    after: Seq<char>,
    old: Seq<Seq<char>>,
    k: int,
    encoding: PositionEncoding,
)
    requires
        fits(s),
        s == before + joined(old) + after,
        0 <= k <= old.len(),
    ensures
        ({
            let at = before.len() + joined(old.take(k)).len();
            let offset = byte_len(before) + byte_len(joined(old.take(k)));
            &&& at <= s.len()
            &&& s.take(at as int) == before + joined(old.take(k))
            &&& char_index(s, offset_at(s, position_at(s, offset as int, encoding), encoding) as int)
                == at
        }),
{
    let head = joined(old.take(k));
    let at = (before.len() + head.len()) as int;
    lemma_joined_split(old, k, old.len() as int);
    assert(old.take(old.len() as int) =~= old);
    assert(s.take(at) =~= before + head);
    lemma_byte_len_concat(before, head);
    lemma_char_index_of_boundary(s, at);
    law_offset_round_trip(s, byte_len(s.take(at)) as int, encoding);
}

proof fn lemma_edits_rebuild_part(
    s: Seq<char>,
    before: Seq<char>,
    after: Seq<char>,
    old: Seq<Seq<char>>,
    new: Seq<Seq<char>>,
    hunks: Seq<Hunk>,
    edits: Seq<TextEditView>,
    encoding: PositionEncoding,
)
    requires
        fits(s),
        s == before + joined(old) + after,
        placed(hunks, old.len(), new.len()),
        edits.len() == hunks.len(),
        forall|k: int|
            0 <= k < hunks.len() ==> #[trigger] edits[k] == hunk_edit(
                s,
                byte_len(before) as int,
                old,
                new,
                hunks[k],
                encoding,
            ),
    ensures
        edits_ascend(s, edits, encoding),
        hunks.len() > 0 ==> edits_reach(s, edits, encoding) == before.len() + joined(
            old.take(hunks_reach(hunks)),
        ).len(),
        hunks.len() > 0 ==> edited_part(s, edits, encoding) == before + rebuilt_part(
            old,
            new,
            hunks,
        ),
    decreases hunks.len(),
{
    if hunks.len() > 0 {
        let h = hunks.last();
        let rest = hunks.drop_last();
        lemma_edits_rebuild_part(
            s,
            before,
            after,
            old,
            new,
            rest,
            edits.drop_last(),
            encoding,
        );
        let edit = edits.last();
        lemma_line_boundary(s, before, after, old, h.old_start as int, encoding);
        lemma_line_boundary(s, before, after, old, h.old_end as int, encoding);
        lemma_joined_split(old, hunks_reach(rest), h.old_start as int);
        lemma_joined_split(old, h.old_start as int, h.old_end as int);
        let from = before.len() + joined(old.take(hunks_reach(rest))).len();
        let start = edit_start(s, edit, encoding);
        assert(start == before.len() + joined(old.take(h.old_start as int)).len());
        assert(edit_end(s, edit, encoding) == before.len() + joined(
            old.take(h.old_end as int),
        ).len());
        let gap = joined(old.subrange(hunks_reach(rest), h.old_start as int));
        assert(s.take(start) == before + joined(old.take(hunks_reach(rest))) + gap) by {
            assert(before + (joined(old.take(hunks_reach(rest))) + gap) =~= before + joined(
                old.take(hunks_reach(rest)),
            ) + gap);
        }
        if rest.len() == 0 {
            assert(old.take(0) =~= Seq::<Seq<char>>::empty());
            assert(s.take(start) =~= before + gap);
            assert(s.subrange(0, start) =~= s.take(start));
            assert(edited_part(s, edits.drop_last(), encoding) == Seq::<char>::empty());
            assert(edited_part(s, edits, encoding) =~= before + gap + edit.new_text);
            assert(rebuilt_part(old, new, rest) == Seq::<char>::empty());
            assert(before + gap + edit.new_text =~= before + rebuilt_part(old, new, hunks));
        } else {
            assert(s.subrange(from as int, start) =~= gap) by {
                assert(s.take(start).skip(from as int) =~= gap);
                assert(s.subrange(from as int, start) =~= s.take(start).skip(from as int));
            }
            let done = rebuilt_part(old, new, rest);
            assert(edits_reach(s, edits.drop_last(), encoding) == from);
            assert(edited_part(s, edits, encoding) == before + done + gap + edit.new_text);
            assert(before + done + gap + edit.new_text =~= before + (done + gap
                + edit.new_text));
        }
    }
}

/// Hunks that turn the old lines into the new ones give edits that turn the
/// document with the old lines into the one with the new lines.
proof fn lemma_edits_rebuild(
    s: Seq<char>,
    before: Seq<char>,
    after: Seq<char>,
    old: Seq<Seq<char>>,
    new: Seq<Seq<char>>,
    hunks: Seq<Hunk>,
    edits: Seq<TextEditView>,
    encoding: PositionEncoding,
)
    requires
        fits(s),
        s == before + joined(old) + after,
        placed(hunks, old.len(), new.len()),
        rebuilt(old, new, hunks) == joined(new),
        edits.len() == hunks.len(),
        forall|k: int|
            0 <= k < hunks.len() ==> #[trigger] edits[k] == hunk_edit(
                s,
                byte_len(before) as int,
                old,
                new,
                hunks[k],
                encoding,
            ),
    ensures
        edits_ascend(s, edits, encoding),
        edited(s, edits, encoding) == before + joined(new) + after,
{
    lemma_edits_rebuild_part(s, before, after, old, new, hunks, edits, encoding);
    let reach = hunks_reach(hunks);
    lemma_reach_bounded(hunks, old.len(), new.len());
    let tail = joined(old.subrange(reach, old.len() as int));
    assert(old.take(old.len() as int) =~= old);
    lemma_joined_split(old, reach, old.len() as int);
    if hunks.len() == 0 {
        assert(old.subrange(0, old.len() as int) =~= old);
        assert(rebuilt(old, new, hunks) =~= joined(old));
        assert(edited(s, edits, encoding) =~= s);
    } else {
        let at = edits_reach(s, edits, encoding);
        assert(s.skip(at) =~= tail + after);
        assert(edited(s, edits, encoding) =~= before + rebuilt(old, new, hunks) + after);
    }
}

/// The edits turning the slice `old` of the document at byte `base` into `new`,
/// line by line, or `None` where one replacement serves better.
pub fn line_diff_edits(
    line_index: &LineIndex,
    base: usize,
    old: &str,
    new: &str,
    encoding: PositionEncoding,
) -> (r: Option<Vec<TextEdit>>)
    requires
        line_index.wf(),
        base + byte_len(old@) <= usize::MAX,
    ensures
        r.deep_view() == diff_edits(line_index@, base as int, line_diff_of(old@, new@), encoding),
        r is Some ==> forall|before: Seq<char>, after: Seq<char>|
            byte_len(before) == base && line_index@ == #[trigger] (before + old@ + after) ==> {
                &&& edits_ascend(line_index@, r->0.deep_view(), encoding)
                &&& edited(line_index@, r->0.deep_view(), encoding) == before + new@ + after
            },
{
    let diff = diff_lines(old, new);
    hunk_edits(line_index, base, &diff, encoding)
}

/// The one edit that replaces the bytes `start..end` of a document.
pub open spec fn replacement(
    s: Seq<char>,
    start: int,
    end: int,
    new_text: Seq<char>,
    encoding: PositionEncoding,
) -> TextEditView {
    TextEditView { range: range_at(s, start, end, encoding), new_text }
}

/// What replacing one stretch of a document between two character boundaries
/// makes of it.
proof fn lemma_replacement(
    s: Seq<char>,
    start: int,
    end: int,
    new_text: Seq<char>,
    encoding: PositionEncoding,
)
    requires
        fits(s),
        0 <= start <= end,
        on_boundary(s, start),
        on_boundary(s, end),
    ensures
        edits_ascend(s, seq![replacement(s, start, end, new_text, encoding)], encoding),
        edited(s, seq![replacement(s, start, end, new_text, encoding)], encoding) == s.take(
            char_index(s, start),
        ) + new_text + s.skip(char_index(s, end)),
{
    let edits = seq![replacement(s, start, end, new_text, encoding)];
    law_offset_round_trip(s, start, encoding);
    law_offset_round_trip(s, end, encoding);
    lemma_char_index(s, start);
    lemma_char_index(s, end);
    let a = char_index(s, start);
    let b = char_index(s, end);
    if b < a {
        lemma_byte_len_monotone(s, b + 1, a);
    }
    assert(edits.drop_last() =~= Seq::<TextEditView>::empty());
    assert(edits.last() == edits[0]);
    assert(edits_ascend(s, edits.drop_last(), encoding));
    assert(s.subrange(0, a) =~= s.take(a));
    assert(edited_part(s, edits.drop_last(), encoding) == Seq::<char>::empty());
    assert(Seq::<char>::empty() + s.take(a) =~= s.take(a));
}

/// The edits turning `text` into `formatted`: none where they are equal, the
/// changed lines where they are few, one replacement of the document otherwise.
/// Applied to `text`, they give `formatted`.
pub fn edits_for_formatted(
    text: &str,
    formatted: String,
    encoding: PositionEncoding,
) -> (r: Vec<TextEdit>)
    requires
        fits(text@),
    ensures
        r.deep_view() == formatted_edits(text@, formatted@, encoding),
        edits_ascend(text@, r.deep_view(), encoding),
        edited(text@, r.deep_view(), encoding) == formatted@,
{
    if same_text(formatted.as_str(), text) {
        let none: Vec<TextEdit> = Vec::new();
        proof {
            assert(none.deep_view() =~= Seq::<TextEditView>::empty());
            assert(edited(text@, none.deep_view(), encoding) =~= text@);
        }
        return none;
    }
    let line_index = LineIndex::new(text);
    proof {
        let e = Seq::<char>::empty();
        assert(e + text@ + e =~= text@);
        assert(e + formatted@ + e =~= formatted@);
        assert(byte_len(e) == 0);
    }
    if let Some(edits) = line_diff_edits(&line_index, 0, text, formatted.as_str(), encoding) {
        return edits;
    }
    let length = line_index.byte_length();
    let ghost wanted = formatted@;
    let edits = vec![TextEdit {
        range: Range {
            start: Position { line: 0, character: 0 },
            end: line_index.byte_to_position(length, encoding),
        },
        new_text: formatted,
    }];
    proof {
        let s = text@;
        assert(s.take(0) =~= Seq::<char>::empty());
        assert(s.take(s.len() as int) =~= s);
        lemma_char_index_of_boundary(s, 0);
        lemma_char_index_of_boundary(s, s.len() as int);
        lemma_start_position(s, encoding);
        lemma_replacement(s, 0, byte_len(s) as int, wanted, encoding);
        assert(edits.deep_view() =~= seq![
            replacement(s, 0, byte_len(s) as int, wanted, encoding),
        ]);
        assert(Seq::<char>::empty() + wanted + s.skip(s.len() as int) =~= wanted);
    }
    edits
}

proof fn lemma_start_position(s: Seq<char>, encoding: PositionEncoding)
    requires
        fits(s),
    ensures
        position_at(s, 0, encoding) == (Position { line: 0, character: 0 }),
{
    assert(s.take(0) =~= Seq::<char>::empty());
    lemma_char_index_of_boundary(s, 0);
    lemma_position_exact(s, 0, encoding);
    lemma_line_begin(s, 0);
    assert(s.subrange(0, 0) =~= Seq::<char>::empty());
}

/// The edits turning a document into its formatted form.
pub open spec fn formatted_edits(
    s: Seq<char>,
    formatted: Seq<char>,
    encoding: PositionEncoding,
) -> Seq<TextEditView> {
    if formatted == s {
        Seq::empty()
    } else {
        match diff_edits(s, 0, line_diff_of(s, formatted), encoding) {
            Some(edits) => edits,
            None => seq![replacement(s, 0, byte_len(s) as int, formatted, encoding)],
        }
    }
}

/// The edits that format `text`, given what the formatter made of it. `None`
/// where it rejected the text.
pub fn compute_format_edits(
    text: &str,
    formatted: Option<String>,
    encoding: PositionEncoding,
) -> (r: Option<Vec<TextEdit>>)
    requires
        fits(text@),
    ensures
        r is Some <==> formatted is Some,
        r is Some ==> {
            &&& r->0.deep_view() == formatted_edits(text@, formatted->0@, encoding)
            &&& edits_ascend(text@, r->0.deep_view(), encoding)
            &&& edited(text@, r->0.deep_view(), encoding) == formatted->0@
        },
{
    match formatted {
        Some(formatted) => Some(edits_for_formatted(text, formatted, encoding)),
        None => None,
    }
}

/// The formatted form of the statements that a selection touches, with the span
/// of the document that it replaces.
#[derive(Debug)]
pub struct RangeFormatted {
    pub range: TextRange,
    pub text: String,
}

/// What the formatter made of a selection.
#[derive(Debug)]
pub enum RangeOutcome {
    /// It rejected the document.
    Rejected,
    /// The selection touches no statement.
    Nothing,
    Formatted(RangeFormatted),
}

/// The edits that put a formatted span in place of the bytes `start..end`.
pub open spec fn range_formatted_edits(
    s: Seq<char>,
    start: int,
    end: int,
    formatted: Seq<char>,
    encoding: PositionEncoding,
) -> Seq<TextEditView> {
    let single = seq![replacement(s, start, end, formatted, encoding)];
    match slice_at(s, start, end) {
        Some(old) => if old == formatted {
            Seq::empty()
        } else {
            match diff_edits(s, start, line_diff_of(old, formatted), encoding) {
                Some(edits) => edits,
                None => single,
            }
        },
        None => single,
    }
}

/// The edits replacing a formatted span: none where it is formatted already, the
/// changed lines where they are few, one replacement of the span otherwise.
/// Where the span lies between characters of `text`, the edits replace it with
/// the formatted text and leave the rest alone.
pub fn edits_for_range_formatted(
    text: &str,
    formatted: RangeFormatted,
    encoding: PositionEncoding,
) -> (r: Vec<TextEdit>)
    requires
        fits(text@),
    ensures
        r.deep_view() == range_formatted_edits(
            text@,
            formatted.range.start as int,
            formatted.range.end as int,
            formatted.text@,
            encoding,
        ),
        slice_at(text@, formatted.range.start as int, formatted.range.end as int) is Some ==> {
            &&& edits_ascend(text@, r.deep_view(), encoding)
            &&& edited(text@, r.deep_view(), encoding) == text@.take(
                char_index(text@, formatted.range.start as int),
            ) + formatted.text@ + text@.skip(char_index(text@, formatted.range.end as int))
        },
{
    let start = formatted.range.start as usize;
    let end = formatted.range.end as usize;
    let line_index = LineIndex::new(text);
    let ghost s = text@;
    let ghost wanted = formatted.text@;
    let old = line_index.slice(start, end);
    if let Some(old) = &old {
        proof {
            lemma_char_index(s, start as int);
            lemma_char_index(s, end as int);
            let a = char_index(s, start as int);
            let b = char_index(s, end as int);
            if b < a {
                lemma_byte_len_monotone(s, b + 1, a);
            }
            assert(s.take(a) + s.subrange(a, b) + s.skip(b) =~= s);
            assert(s.take(b) =~= s.take(a) + s.subrange(a, b));
            lemma_byte_len_concat(s.take(a), s.subrange(a, b));
        }
        if same_text(old.as_str(), formatted.text.as_str()) {
            let none: Vec<TextEdit> = Vec::new();
            proof {
                assert(none.deep_view() =~= Seq::<TextEditView>::empty());
                assert(edited(s, none.deep_view(), encoding) =~= s);
            }
            return none;
        }
        let lines = line_diff_edits(
            &line_index,
            start,
            old.as_str(),
            formatted.text.as_str(),
            encoding,
        );
        if let Some(edits) = lines {
            return edits;
        }
    }
    let edits = vec![TextEdit {
        range: line_index.range(start, end, encoding),
        new_text: formatted.text,
    }];
    proof {
        assert(edits.deep_view() =~= seq![
            replacement(s, start as int, end as int, wanted, encoding),
        ]);
        if slice_at(s, start as int, end as int) is Some {
            lemma_replacement(s, start as int, end as int, wanted, encoding);
        }
    }
    edits
}

/// The edits that format the statements a selection touches, given what the
/// formatter made of them. `None` where it rejected the document; no edits where
/// there is nothing to format. Where the formatted span lies between characters of
/// `text`, the edits replace it with the formatted text and leave the rest alone.
pub fn compute_format_range_edits(
    text: &str,
    formatted: RangeOutcome,
    encoding: PositionEncoding,
) -> (r: Option<Vec<TextEdit>>)
    requires
        fits(text@),
    ensures
        r.deep_view() == match formatted {
            RangeOutcome::Rejected => None,
            RangeOutcome::Nothing => Some(Seq::empty()),
            RangeOutcome::Formatted(f) => Some(
                range_formatted_edits(
                    text@,
                    f.range.start as int,
                    f.range.end as int,
                    f.text@,
                    encoding,
                ),
            ),
        },
        match formatted {
            RangeOutcome::Rejected => true,
            RangeOutcome::Nothing => edits_ascend(text@, r->0.deep_view(), encoding) && edited(
                text@,
                r->0.deep_view(),
                encoding,
            ) == text@,
            RangeOutcome::Formatted(f) => slice_at(
                text@,
                f.range.start as int,
                f.range.end as int,
            ) is Some ==> {
                &&& edits_ascend(text@, r->0.deep_view(), encoding)
                &&& edited(text@, r->0.deep_view(), encoding) == text@.take(
                    char_index(text@, f.range.start as int),
                ) + f.text@ + text@.skip(char_index(text@, f.range.end as int))
            },
        },
{
    match formatted {
        RangeOutcome::Rejected => None,
        RangeOutcome::Nothing => {
            let none: Vec<TextEdit> = Vec::new();
            proof {
                assert(none.deep_view() =~= Seq::<TextEditView>::empty());
            }
            Some(none)
        },
        RangeOutcome::Formatted(formatted) => Some(
            edits_for_range_formatted(text, formatted, encoding),
        ),
    }
}

/// The bytes that a selection covers, whichever of its ends comes first, held to
/// the document.
pub fn lsp_range_to_text_range(text: &str, range: Range, encoding: PositionEncoding) -> (r:
    TextRange)
    requires
        fits(text@),
    ensures
        r.start <= r.end <= byte_len(text@),
        ({
            let a = offset_at(text@, range.start, encoding);
            let b = offset_at(text@, range.end, encoding);
            if a <= b {
                r.start == a && r.end == b
            } else {
                r.start == b && r.end == a
            }
        }),
{
    let line_index = LineIndex::new(text);
    let start = line_index.position_to_byte(range.start, encoding);
    let end = line_index.position_to_byte(range.end, encoding);
    proof {
        lemma_offset_bounded(text@, range.start, encoding);
        lemma_offset_bounded(text@, range.end, encoding);
    }
    if start <= end {
        TextRange { start: start as u32, end: end as u32 }
    } else {
        TextRange { start: end as u32, end: start as u32 }
    }
}

/// A finding of the parser, in byte offsets.
#[derive(Debug)]
pub struct ParseDiagnostic {
    pub start: usize,
    pub end: usize,
    pub message: String,
}

/// The diagnostic that a finding of the parser becomes.
pub open spec fn parse_diagnostic(
    s: Seq<char>,
    finding: ParseDiagnostic,
    encoding: PositionEncoding,
) -> DiagnosticView {
    DiagnosticView {
        range: range_at(s, finding.start as int, finding.end as int, encoding),
        severity: DiagnosticSeverity::Error,
        code: None,
        source: "fatou"@,
        message: finding.message@,
        unnecessary: false,
    }
}

/// The parser's findings in `text` as diagnostics.
pub fn parse_diagnostics_to_lsp(
    diagnostics: &Vec<ParseDiagnostic>,
    text: &str,
    encoding: PositionEncoding,
) -> (r: Vec<Diagnostic>)
    requires
        fits(text@),
    ensures
        r.deep_view() == Seq::new(
            diagnostics.len() as nat,
            |i: int| parse_diagnostic(text@, diagnostics@[i], encoding),
        ),
{
    let line_index = LineIndex::new(text);
    let mut out: Vec<Diagnostic> = Vec::new();
    let mut i: usize = 0;
    while i < diagnostics.len()
        invariant
            line_index.wf(),
            line_index@ == text@,
            i <= diagnostics.len(),
            out.len() == i,
            forall|k: int|
                0 <= k < i ==> #[trigger] out@[k].deep_view() == parse_diagnostic(
                    text@,
                    diagnostics@[k],
                    encoding,
                ),
        decreases diagnostics.len() - i,
    {
        let finding = &diagnostics[i];
        out.push(
            Diagnostic {
                range: line_index.range(finding.start, finding.end, encoding),
                severity: DiagnosticSeverity::Error,
                code: None,
                source: "fatou".to_owned(),
                message: finding.message.clone(),
                unnecessary: false,
            },
        );
        i = i + 1;
    }
    proof {
        assert(out.deep_view() =~= Seq::new(
            diagnostics.len() as nat,
            |i: int| parse_diagnostic(text@, diagnostics@[i], encoding),
        ));
    }
    out
}

/// Lines that stay are in no edit, and changes that meet in both texts are one edit;
/// changes that are apart are edits of their own.
pub proof fn law_changes_that_meet_are_one_edit(ops: Seq<LineOp>, a: LineOp, b: LineOp, c: LineOp)
    requires
        !a.equal && !b.equal && c.equal,
        merged(ops).len() == 0 || merged(ops).last().old_end != a.old_start
            || merged(ops).last().new_end != a.new_start,
    ensures
        merged(ops.push(c)) == merged(ops),
        merged(ops.push(a)) == merged(ops).push(
            Hunk {
                old_start: a.old_start,
                old_end: a.old_end,
                new_start: a.new_start,
                new_end: a.new_end,
            },
        ),
        a.old_end == b.old_start && a.new_end == b.new_start ==> merged(ops.push(a).push(b))
            == merged(ops).push(
            Hunk {
                old_start: a.old_start,
                old_end: b.old_end,
                new_start: a.new_start,
                new_end: b.new_end,
            },
        ),
        a.old_end != b.old_start || a.new_end != b.new_start ==> merged(ops.push(a).push(b)).len()
            == merged(ops).len() + 2,
{
    assert(ops.push(c).drop_last() =~= ops);
    assert(ops.push(a).drop_last() =~= ops);
    assert(ops.push(a).push(b).drop_last() =~= ops.push(a));
    let one = merged(ops.push(a));
    assert(one.drop_last() =~= merged(ops));
}

/// One changed stretch of lines that turns the old text into the new one is sent alone
/// where it replaces no more than half of the old text, and not otherwise.
pub proof fn law_a_small_change_is_sent_alone(
    s: Seq<char>,
    base: int,
    diff: LineDiffView,
    hunk: Hunk,
    encoding: PositionEncoding,
)
    requires
        merged(diff.ops) == seq![hunk],
        hunk.old_start <= hunk.old_end <= diff.old_lines.len(),
        hunk.new_start <= hunk.new_end <= diff.new_lines.len(),
        joined(diff.old_lines.take(hunk.old_start as int)) + joined(
            diff.new_lines.subrange(hunk.new_start as int, hunk.new_end as int),
        ) + joined(diff.old_lines.skip(hunk.old_end as int)) == joined(diff.new_lines),
    ensures
        ({
            let old = diff.old_lines;
            let edits = diff_edits(s, base, diff, encoding);
            let gone = byte_len(
                joined(old.subrange(hunk.old_start as int, hunk.old_end as int)),
            );
            &&& 2 * gone > byte_len(joined(old)) ==> edits is None
            &&& 2 * gone <= byte_len(joined(old)) ==> edits is Some && edits->0.len() == 1
                && edits->0[0].new_text == joined(
                diff.new_lines.subrange(hunk.new_start as int, hunk.new_end as int),
            ) && edits->0[0].range == range_at(
                s,
                base + byte_len(joined(old.take(hunk.old_start as int))),
                base + byte_len(joined(old.take(hunk.old_end as int))),
                encoding,
            )
        }),
{
    let old = diff.old_lines;
    let new = diff.new_lines;
    let hunks = seq![hunk];
    let none = hunks.drop_last();
    assert(none =~= Seq::<Hunk>::empty());
    assert(hunks.last() == hunk);
    assert(placed(none, old.len(), new.len()));
    assert(hunks_reach(none) == 0);
    assert(placed(hunks, old.len(), new.len()));
    assert(covered(old, none) == 0);
    assert(old.subrange(0, hunk.old_start as int) =~= old.take(hunk.old_start as int));
    assert(old.subrange(hunk.old_end as int, old.len() as int) =~= old.skip(hunk.old_end as int));
    assert(rebuilt_part(old, new, none) =~= Seq::<char>::empty());
    assert(rebuilt(old, new, hunks) =~= joined(old.take(hunk.old_start as int)) + joined(
        new.subrange(hunk.new_start as int, hunk.new_end as int),
    ) + joined(old.skip(hunk.old_end as int)));
}

} // verus!
