//! Text edits and what a client makes of them.

use vstd::prelude::*;

use crate::text::{char_index, offset_at, PositionEncoding, Range};

verus! {

/// The replacement of one stretch of a document.
#[derive(Debug)]
pub struct TextEdit {
    pub range: Range,
    pub new_text: String,
}

/// What a [`TextEdit`] says.
pub struct TextEditView {
    pub range: Range,
    pub new_text: Seq<char>,
}

impl DeepView for TextEdit {
    type V = TextEditView;

    open spec fn deep_view(&self) -> TextEditView {
        TextEditView { range: self.range, new_text: self.new_text@ }
    }
}

/// The character at which an edit begins, in the document it was made for.
pub open spec fn edit_start(s: Seq<char>, edit: TextEditView, encoding: PositionEncoding) -> int {
    char_index(s, offset_at(s, edit.range.start, encoding) as int)
}

/// The character behind the last one that an edit replaces.
pub open spec fn edit_end(s: Seq<char>, edit: TextEditView, encoding: PositionEncoding) -> int {
    char_index(s, offset_at(s, edit.range.end, encoding) as int)
}

/// How much of the document a list of edits has dealt with: all up to the end
/// of the last one.
pub open spec fn edits_reach(
    s: Seq<char>,
    edits: Seq<TextEditView>,
    encoding: PositionEncoding,
) -> int {
    if edits.len() == 0 {
        0
    } else {
        edit_end(s, edits.last(), encoding)
    }
}

/// Whether edits come in the order of the document and none overlaps the next.
pub open spec fn edits_ascend(
    s: Seq<char>,
    edits: Seq<TextEditView>,
    encoding: PositionEncoding,
) -> bool
    decreases edits.len(),
{
    edits.len() == 0 || {
        &&& edits_ascend(s, edits.drop_last(), encoding)
        &&& edits_reach(s, edits.drop_last(), encoding) <= edit_start(s, edits.last(), encoding)
        &&& edit_start(s, edits.last(), encoding) <= edit_end(s, edits.last(), encoding)
    }
}

/// The new document up to the end of the last edit.
pub open spec fn edited_part(
    s: Seq<char>,
    edits: Seq<TextEditView>,
    encoding: PositionEncoding,
) -> Seq<char>
    decreases edits.len(),
{
    if edits.len() == 0 {
        Seq::empty()
    } else {
        edited_part(s, edits.drop_last(), encoding) + s.subrange(
            edits_reach(s, edits.drop_last(), encoding),
            edit_start(s, edits.last(), encoding),
        ) + edits.last().new_text
    }
}

/// The document that a client holds once it has applied the edits, all of whose
/// ranges speak of the document as it was before.
pub open spec fn edited(
    s: Seq<char>,
    edits: Seq<TextEditView>,
    encoding: PositionEncoding,
) -> Seq<char> {
    edited_part(s, edits, encoding) + s.skip(edits_reach(s, edits, encoding))
}

} // verus!
