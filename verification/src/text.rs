//! Offsets and positions in a document.
//!
//! Inside the server a place is a byte offset; on the wire it is a line and a
//! column counted in the units that client and server agreed on.

use vstd::prelude::*;

use crate::chars::char_is_whitespace;
use crate::strings::{
    byte_len, chars_of, lemma_byte_len_concat, lemma_byte_len_monotone,
    text_between, utf8_width,
};

verus! {

/// The unit in which a column is counted.
#[derive(Clone, Copy, Debug, PartialEq, Eq, Structural)]
pub enum PositionEncoding {
    Utf8,
    Utf16,
}

/// A place in a document: line and column, both counted from zero.
#[derive(Clone, Copy, Debug, PartialEq, Eq, Structural)]
pub struct Position {
    pub line: u32,
    pub character: u32,
}

/// A stretch of a document, the end excluded.
#[derive(Clone, Copy, Debug, PartialEq, Eq, Structural)]
pub struct Range {
    pub start: Position,
    pub end: Position,
}

/// A stretch of a document in byte offsets, the end excluded.
#[derive(Clone, Copy, Debug, PartialEq, Eq, Structural)]
pub struct TextRange {
    pub start: u32,
    pub end: u32,
}

impl DeepView for TextRange {
    type V = TextRange;

    open spec fn deep_view(&self) -> TextRange {
        *self
    }
}

/// How many units one character takes in a column count.
pub open spec fn unit_width(c: char, encoding: PositionEncoding) -> nat {
    match encoding {
        PositionEncoding::Utf8 => utf8_width(c),
        PositionEncoding::Utf16 => if (c as u32) < 0x10000 {
            1
        } else {
            2
        },
    }
}

/// How many units a text takes in a column count.
pub open spec fn units(s: Seq<char>, encoding: PositionEncoding) -> nat
    decreases s.len(),
{
    if s.len() == 0 {
        0
    } else {
        units(s.drop_last(), encoding) + unit_width(s.last(), encoding)
    }
}

/// How many line feeds a text holds.
pub open spec fn newlines(s: Seq<char>) -> nat
    decreases s.len(),
{
    if s.len() == 0 {
        0
    } else {
        newlines(s.drop_last()) + if s.last() == '\n' {
            1nat
        } else {
            0
        }
    }
}

/// Where line `line` of a text begins, as a number of characters: the shortest
/// prefix that holds that many line feeds. The length of the text where it has
/// fewer lines.
pub open spec fn line_begin(s: Seq<char>, line: nat) -> int
    decreases s.len(),
{
    if s.len() > 0 && newlines(s.drop_last()) >= line {
        line_begin(s.drop_last(), line)
    } else {
        s.len() as int
    }
}

/// How many whole characters of a text lie before a byte offset.
pub open spec fn char_index(s: Seq<char>, offset: int) -> int
    decreases s.len(),
{
    if s.len() == 0 || byte_len(s) <= offset {
        s.len() as int
    } else {
        char_index(s.drop_last(), offset)
    }
}

/// The position of the character with index `i`.
pub open spec fn char_position(s: Seq<char>, i: int, encoding: PositionEncoding) -> Position {
    let line = newlines(s.take(i));
    Position {
        line: line as u32,
        character: units(s.subrange(line_begin(s, line), i), encoding) as u32,
    }
}

/// The position of a byte offset: that of the character which holds it, and the
/// end of the text for an offset past it.
pub open spec fn position_at(s: Seq<char>, offset: int, encoding: PositionEncoding) -> Position {
    char_position(s, char_index(s, offset), encoding)
}

/// The range between two byte offsets.
pub open spec fn range_at(
    s: Seq<char>,
    start: int,
    end: int,
    encoding: PositionEncoding,
) -> Range {
    Range { start: position_at(s, start, encoding), end: position_at(s, end, encoding) }
}

/// The character `column` units behind character `i`, no further than the end
/// of its line; a column inside a character counts as the character's start.
pub open spec fn column_index(
    s: Seq<char>,
    i: int,
    column: int,
    encoding: PositionEncoding,
) -> int
    decreases s.len() - i,
{
    if i < 0 || i >= s.len() || s[i] == '\n' || column < unit_width(s[i], encoding) {
        i
    } else {
        column_index(s, i + 1, column - unit_width(s[i], encoding), encoding)
    }
}

/// The byte offset of a position, held to the end of its line and to the end of
/// the text.
pub open spec fn offset_at(s: Seq<char>, position: Position, encoding: PositionEncoding) -> nat {
    byte_len(
        s.take(
            column_index(
                s,
                line_begin(s, position.line as nat),
                position.character as int,
                encoding,
            ),
        ),
    )
}

/// Whether a text is short enough for 32-bit offsets and positions.
pub open spec fn fits(s: Seq<char>) -> bool {
    byte_len(s) <= u32::MAX
}

/// Whether a byte offset falls between two characters of a text, or at one of
/// its ends.
pub open spec fn on_boundary(s: Seq<char>, offset: int) -> bool {
    byte_len(s.take(char_index(s, offset))) == offset
}

/// The text between two byte offsets, where both fall between characters and the
/// first is not behind the second.
pub open spec fn slice_at(s: Seq<char>, start: int, end: int) -> Option<Seq<char>> {
    if start <= end && on_boundary(s, start) && on_boundary(s, end) {
        Some(s.subrange(char_index(s, start), char_index(s, end)))
    } else {
        None
    }
}

/// Where the line of character `i` ends: at its line feed, or with the text.
pub open spec fn line_end(s: Seq<char>, i: int) -> int
    decreases s.len() - i,
{
    if i < 0 || i >= s.len() || s[i] == '\n' {
        i
    } else {
        line_end(s, i + 1)
    }
}

/// The line that holds a byte offset, without its line feed.
pub open spec fn line_around(s: Seq<char>, offset: int) -> Seq<char> {
    let i = char_index(s, offset);
    s.subrange(line_begin(s, newlines(s.take(i))), line_end(s, i))
}

proof fn lemma_line_end_from(s: Seq<char>, from: int, i: int)
    requires
        0 <= from <= i <= s.len(),
        forall|j: int| from <= j < i ==> #[trigger] s[j] != '\n',
    ensures
        line_end(s, from) == line_end(s, i),
    decreases i - from,
{
    if from < i {
        lemma_line_end_from(s, from + 1, i);
    }
}

/// Whether only whitespace stands before a byte offset on its line.
pub open spec fn blank_before(s: Seq<char>, offset: int) -> bool {
    let i = char_index(s, offset);
    forall|j: int|
        line_begin(s, newlines(s.take(i))) <= j < i ==> char_is_whitespace(#[trigger] s[j])
}

/// What one more character adds to the line feeds and the bytes of a prefix.
pub proof fn lemma_newlines_step(s: Seq<char>, i: int)
    requires
        0 <= i < s.len(),
    ensures
        newlines(s.take(i + 1)) == newlines(s.take(i)) + if s[i] == '\n' {
            1nat
        } else {
            0
        },
        byte_len(s.take(i + 1)) == byte_len(s.take(i)) + utf8_width(s[i]),
{
    assert(s.take(i + 1).drop_last() =~= s.take(i));
}

/// A longer prefix holds at least as many line feeds, and no text holds more
/// line feeds than bytes.
pub proof fn lemma_newlines_monotone(s: Seq<char>, i: int, j: int)
    requires
        0 <= i <= j <= s.len(),
    ensures
        newlines(s.take(i)) <= newlines(s.take(j)),
    decreases j - i,
{
    if i < j {
        lemma_newlines_monotone(s, i, j - 1);
        lemma_newlines_step(s, j - 1);
    }
}

proof fn lemma_newlines_bounded(s: Seq<char>)
    ensures
        newlines(s) <= s.len() <= byte_len(s),
    decreases s.len(),
{
    if s.len() > 0 {
        lemma_newlines_bounded(s.drop_last());
    }
}

proof fn lemma_units_bounded(s: Seq<char>, encoding: PositionEncoding)
    ensures
        units(s, encoding) <= byte_len(s),
    decreases s.len(),
{
    if s.len() > 0 {
        lemma_units_bounded(s.drop_last(), encoding);
    }
}

proof fn lemma_part_bounded(s: Seq<char>, i: int, j: int, encoding: PositionEncoding)
    requires
        0 <= i <= j <= s.len(),
    ensures
        units(s.subrange(i, j), encoding) <= byte_len(s),
{
    lemma_units_bounded(s.subrange(i, j), encoding);
    assert(s.take(j) =~= s.take(i) + s.subrange(i, j));
    lemma_byte_len_concat(s.take(i), s.subrange(i, j));
    lemma_byte_len_monotone(s, j, s.len() as int);
}

/// What `line_begin` means: the line begins right behind its line feed, and the
/// prefix up to there holds exactly the line feeds of the lines above.
pub proof fn lemma_line_begin(s: Seq<char>, line: nat)
    requires
        line <= newlines(s),
    ensures
        0 <= line_begin(s, line) <= s.len(),
        newlines(s.take(line_begin(s, line))) == line,
        line_begin(s, line) > 0 ==> s[line_begin(s, line) - 1] == '\n',
        line == 0 ==> line_begin(s, line) == 0,
    decreases s.len(),
{
    if s.len() > 0 {
        let p = s.drop_last();
        if newlines(p) >= line {
            lemma_line_begin(p, line);
            assert(p.take(line_begin(p, line)) =~= s.take(line_begin(p, line)));
        } else {
            assert(s.take(s.len() as int) =~= s);
        }
    } else {
        assert(s.take(0) =~= s);
    }
}

/// A line feed at index `i` begins the next line right behind it.
proof fn lemma_line_begin_after(s: Seq<char>, i: int)
    requires
        0 <= i < s.len(),
        s[i] == '\n',
    ensures
        line_begin(s, newlines(s.take(i)) + 1) == i + 1,
    decreases s.len(),
{
    let line = newlines(s.take(i)) + 1;
    let p = s.drop_last();
    if i == s.len() - 1 {
        assert(s.take(i) =~= p);
    } else {
        assert(p.take(i) =~= s.take(i));
        assert(p.take(p.len() as int) =~= p);
        lemma_newlines_step(p, i);
        lemma_newlines_monotone(p, i + 1, p.len() as int);
        lemma_line_begin_after(p, i);
    }
}

/// Line beginnings do not change when the text grows behind them.
proof fn lemma_line_begin_take(s: Seq<char>, i: int, line: nat)
    requires
        0 <= i <= s.len(),
        line <= newlines(s.take(i)),
    ensures
        line_begin(s.take(i), line) == line_begin(s, line),
    decreases s.len() - i,
{
    if i < s.len() {
        let t = s.take(i + 1);
        assert(t.drop_last() =~= s.take(i));
        lemma_newlines_step(s, i);
        lemma_line_begin_take(s, i + 1, line);
    } else {
        assert(s.take(i) =~= s);
    }
}

/// The line of character `i` begins at or before it, and no line feed lies
/// between.
pub proof fn lemma_own_line(s: Seq<char>, i: int)
    requires
        0 <= i <= s.len(),
    ensures
        0 <= line_begin(s, newlines(s.take(i))) <= i,
        forall|j: int|
            line_begin(s, newlines(s.take(i))) <= j < i ==> #[trigger] s[j] != '\n',
{
    let line = newlines(s.take(i));
    lemma_line_begin_take(s, i, line);
    lemma_line_begin(s.take(i), line);
    let b = line_begin(s, line);
    assert(s.take(i).take(b) =~= s.take(b));
    assert forall|j: int| b <= j < i implies #[trigger] s[j] != '\n' by {
        if s[j] == '\n' {
            lemma_newlines_step(s, j);
            lemma_newlines_monotone(s, b, j);
            lemma_newlines_monotone(s, j + 1, i);
        }
    }
}

/// What `char_index` means: the last character boundary at or before the offset.
pub proof fn lemma_char_index(s: Seq<char>, offset: int)
    requires
        offset >= 0,
    ensures
        0 <= char_index(s, offset) <= s.len(),
        byte_len(s.take(char_index(s, offset))) <= offset,
        char_index(s, offset) < s.len() ==> offset < byte_len(
            s.take(char_index(s, offset) + 1),
        ),
    decreases s.len(),
{
    if s.len() == 0 || byte_len(s) <= offset {
        assert(s.take(s.len() as int) =~= s);
    } else {
        let p = s.drop_last();
        lemma_char_index(p, offset);
        let i = char_index(p, offset);
        assert(p.take(i) =~= s.take(i));
        if i < p.len() {
            assert(p.take(i + 1) =~= s.take(i + 1));
        } else {
            assert(s.take(i + 1) =~= s);
        }
    }
}

/// The boundary that `char_index` names is the only one of its kind.
pub proof fn lemma_char_index_is(s: Seq<char>, offset: int, i: int)
    requires
        0 <= i <= s.len(),
        byte_len(s.take(i)) <= offset,
        i < s.len() ==> offset < byte_len(s.take(i + 1)),
    ensures
        char_index(s, offset) == i,
{
    lemma_char_index(s, offset);
    let k = char_index(s, offset);
    if i < k {
        lemma_byte_len_monotone(s, i + 1, k);
    } else if k < i {
        lemma_byte_len_monotone(s, k + 1, i);
    }
}

/// The byte offset in front of character `i` is that of character `i`.
pub proof fn lemma_char_index_of_boundary(s: Seq<char>, i: int)
    requires
        0 <= i <= s.len(),
    ensures
        char_index(s, byte_len(s.take(i)) as int) == i,
{
    if i < s.len() {
        lemma_newlines_step(s, i);
    }
    lemma_char_index_is(s, byte_len(s.take(i)) as int, i);
}

/// The `u32` fields of a position hold the true counts of a text that fits.
pub proof fn lemma_position_exact(s: Seq<char>, i: int, encoding: PositionEncoding)
    requires
        fits(s),
        0 <= i <= s.len(),
    ensures
        char_position(s, i, encoding).line == newlines(s.take(i)),
        char_position(s, i, encoding).character == units(
            s.subrange(line_begin(s, newlines(s.take(i))), i),
            encoding,
        ),
{
    lemma_own_line(s, i);
    assert(s.take(s.len() as int) =~= s);
    lemma_newlines_monotone(s, i, s.len() as int);
    lemma_newlines_bounded(s);
    lemma_part_bounded(s, line_begin(s, newlines(s.take(i))), i, encoding);
}

/// A column lies within the text.
proof fn lemma_column_index_bounded(
    s: Seq<char>,
    i: int,
    column: int,
    encoding: PositionEncoding,
)
    requires
        0 <= i <= s.len(),
    ensures
        i <= column_index(s, i, column, encoding) <= s.len(),
    decreases s.len() - i,
{
    if !(i >= s.len() || s[i] == '\n' || column < unit_width(s[i], encoding)) {
        lemma_column_index_bounded(s, i + 1, column - unit_width(s[i], encoding), encoding);
    }
}

/// Every position has an offset within the text, between two characters.
pub proof fn lemma_offset_bounded(s: Seq<char>, position: Position, encoding: PositionEncoding)
    ensures
        offset_at(s, position, encoding) <= byte_len(s),
        on_boundary(s, offset_at(s, position, encoding) as int),
{
    let line = position.line as nat;
    if line <= newlines(s) {
        lemma_line_begin(s, line);
    } else {
        lemma_past_last_line(s, line);
    }
    lemma_column_index_bounded(
        s,
        line_begin(s, line),
        position.character as int,
        encoding,
    );
    let i = column_index(s, line_begin(s, line), position.character as int, encoding);
    lemma_byte_len_monotone(s, i, s.len() as int);
    lemma_char_index_of_boundary(s, i);
}

/// A slice ends within the text.
pub proof fn lemma_slice_bounded(s: Seq<char>, start: int, end: int)
    requires
        0 <= start,
        slice_at(s, start, end) is Some,
    ensures
        start + byte_len(slice_at(s, start, end)->0) == end,
        end <= byte_len(s),
{
    lemma_char_index(s, start);
    lemma_char_index(s, end);
    let a = char_index(s, start);
    let b = char_index(s, end);
    if b < a {
        lemma_byte_len_monotone(s, b + 1, a);
    }
    assert(s.take(b) =~= s.take(a) + s.subrange(a, b));
    lemma_byte_len_concat(s.take(a), s.subrange(a, b));
    lemma_byte_len_monotone(s, b, s.len() as int);
}

proof fn lemma_column_index_back(
    s: Seq<char>,
    from: int,
    i: int,
    encoding: PositionEncoding,
)
    requires
        0 <= from <= i <= s.len(),
        forall|j: int| from <= j < i ==> #[trigger] s[j] != '\n',
    ensures
        column_index(s, from, units(s.subrange(from, i), encoding) as int, encoding) == i,
    decreases i - from,
{
    if from == i {
        assert(s.subrange(from, i) =~= Seq::<char>::empty());
    } else {
        lemma_units_front(s.subrange(from, i), encoding);
        assert(s.subrange(from, i).drop_first() =~= s.subrange(from + 1, i));
        lemma_column_index_back(s, from + 1, i, encoding);
    }
}

proof fn lemma_units_front(s: Seq<char>, encoding: PositionEncoding)
    requires
        s.len() > 0,
    ensures
        units(s, encoding) == unit_width(s[0], encoding) + units(s.drop_first(), encoding),
    decreases s.len(),
{
    let t = s.drop_first();
    if t.len() > 0 {
        lemma_units_front(s.drop_last(), encoding);
        assert(s.drop_last().drop_first() =~= t.drop_last());
    } else {
        assert(s.drop_last() =~= Seq::<char>::empty());
        assert(t =~= Seq::<char>::empty());
    }
}

/// An offset between two characters survives the way to a position and back.
pub proof fn law_offset_round_trip(s: Seq<char>, offset: int, encoding: PositionEncoding)
    requires
        fits(s),
        offset >= 0,
        on_boundary(s, offset),
    ensures
        offset_at(s, position_at(s, offset, encoding), encoding) == offset,
{
    let i = char_index(s, offset);
    lemma_char_index(s, offset);
    lemma_own_line(s, i);
    lemma_position_exact(s, i, encoding);
    lemma_column_index_back(s, line_begin(s, newlines(s.take(i))), i, encoding);
}

/// Two offsets in order have positions in order, line before column.
pub proof fn law_positions_ascend(s: Seq<char>, a: int, b: int, encoding: PositionEncoding)
    requires
        fits(s),
        0 <= a <= b,
    ensures
        position_before(position_at(s, a, encoding), position_at(s, b, encoding)),
{
    let i = char_index(s, a);
    let j = char_index(s, b);
    lemma_char_index(s, a);
    lemma_char_index(s, b);
    if j < i {
        lemma_byte_len_monotone(s, j + 1, i);
    }
    lemma_position_exact(s, i, encoding);
    lemma_position_exact(s, j, encoding);
    lemma_newlines_monotone(s, i, j);
    lemma_own_line(s, i);
    lemma_own_line(s, j);
    if newlines(s.take(i)) == newlines(s.take(j)) {
        let from = line_begin(s, newlines(s.take(i)));
        lemma_units_extend(s, from, i, j, encoding);
    }
}

/// Positions of characters in order are in order.
pub proof fn lemma_char_positions_ascend(s: Seq<char>, i: int, j: int, encoding: PositionEncoding)
    requires
        fits(s),
        0 <= i <= j <= s.len(),
    ensures
        position_before(char_position(s, i, encoding), char_position(s, j, encoding)),
{
    lemma_char_index_of_boundary(s, i);
    lemma_char_index_of_boundary(s, j);
    lemma_byte_len_monotone(s, i, j);
    law_positions_ascend(s, byte_len(s.take(i)) as int, byte_len(s.take(j)) as int, encoding);
}

proof fn lemma_units_extend(s: Seq<char>, from: int, i: int, j: int, encoding: PositionEncoding)
    requires
        0 <= from <= i <= j <= s.len(),
    ensures
        units(s.subrange(from, i), encoding) <= units(s.subrange(from, j), encoding),
    decreases j - i,
{
    if i < j {
        lemma_units_extend(s, from, i, j - 1, encoding);
        assert(s.subrange(from, j).drop_last() =~= s.subrange(from, j - 1));
    }
}

/// Whether one position is at or before another.
pub open spec fn position_before(a: Position, b: Position) -> bool {
    a.line < b.line || (a.line == b.line && a.character <= b.character)
}

/// The length in bytes of the UTF-8 form of `c`.
pub fn char_bytes(c: char) -> (r: usize)
    ensures
        r == utf8_width(c),
{
    let code = c as u32;
    if code < 0x80 {
        1
    } else if code < 0x800 {
        2
    } else if code < 0x10000 {
        3
    } else {
        4
    }
}

/// How many units `c` takes in a column count.
pub fn char_units(c: char, encoding: PositionEncoding) -> (r: u32)
    ensures
        r == unit_width(c, encoding),
{
    match encoding {
        PositionEncoding::Utf8 => char_bytes(c) as u32,
        PositionEncoding::Utf16 => if (c as u32) < 0x10000 {
            1
        } else {
            2
        },
    }
}

/// A document with the places where its lines begin.
pub struct LineIndex {
    chars: Vec<char>,
    starts: Vec<usize>,
    offsets: Vec<usize>,
    length: usize,
}

impl View for LineIndex {
    type V = Seq<char>;

    closed spec fn view(&self) -> Seq<char> {
        self.chars@
    }
}

impl LineIndex {
    /// The tables agree with the text, and the text fits.
    pub closed spec fn wf(&self) -> bool {
        &&& fits(self.chars@)
        &&& self.length == byte_len(self.chars@)
        &&& self.starts.len() == newlines(self.chars@) + 1
        &&& self.offsets.len() == self.starts.len()
        &&& forall|k: int|
            0 <= k < self.starts.len() ==> #[trigger] self.starts@[k] == line_begin(
                self.chars@,
                k as nat,
            )
        &&& forall|k: int|
            0 <= k < self.offsets.len() ==> #[trigger] self.offsets@[k] == byte_len(
                self.chars@.take(line_begin(self.chars@, k as nat)),
            )
    }

    /// A text with a well-formed index fits.
    pub proof fn lemma_fits(&self)
        requires
            self.wf(),
        ensures
            fits(self@),
    {
    }

    /// Indexes the lines of `text`.
    pub fn new(text: &str) -> (r: LineIndex)
        requires
            fits(text@),
        ensures
            r.wf(),
            r@ == text@,
    {
        let chars = chars_of(text);
        let mut starts: Vec<usize> = Vec::new();
        let mut offsets: Vec<usize> = Vec::new();
        starts.push(0);
        offsets.push(0);
        let mut i: usize = 0;
        let mut length: usize = 0;
        proof {
            assert(chars@.take(0) =~= Seq::<char>::empty());
        }
        while i < chars.len()
            invariant
                i <= chars.len(),
                fits(chars@),
                length == byte_len(chars@.take(i as int)),
                starts.len() == newlines(chars@.take(i as int)) + 1,
                offsets.len() == starts.len(),
                forall|k: int|
                    0 <= k < starts.len() ==> #[trigger] starts@[k] == line_begin(
                        chars@.take(i as int),
                        k as nat,
                    ),
                forall|k: int|
                    0 <= k < offsets.len() ==> #[trigger] offsets@[k] == byte_len(
                        chars@.take(line_begin(chars@.take(i as int), k as nat)),
                    ),
            decreases chars.len() - i,
        {
            proof {
                assert(chars@.take(i + 1).drop_last() =~= chars@.take(i as int));
                lemma_byte_len_monotone(chars@, i as int, i + 1);
                lemma_byte_len_monotone(chars@, i + 1, chars.len() as int);
            }
            let c = chars[i];
            length = length + char_bytes(c);
            i = i + 1;
            if c == '\n' {
                starts.push(i);
                offsets.push(length);
                proof {
                    lemma_line_begin_after(chars@.take(i as int), i - 1);
                    assert(chars@.take(i as int).take(i - 1) =~= chars@.take(i - 1));
                }
            }
        }
        proof {
            assert(chars@.take(i as int) =~= chars@);
        }
        LineIndex { chars, starts, offsets, length }
    }

    /// The last line that begins at or before byte `offset`.
    fn line_at(&self, offset: usize) -> (r: usize)
        requires
            self.wf(),
        ensures
            r < self.starts.len(),
            self.offsets@[r as int] <= offset,
            r + 1 < self.starts.len() ==> offset < self.offsets@[r + 1],
    {
        let mut low: usize = 0;
        let mut high: usize = self.offsets.len();
        proof {
            lemma_line_begin(self.chars@, 0);
            assert(self.chars@.take(0) =~= Seq::<char>::empty());
        }
        while low + 1 < high
            invariant
                self.wf(),
                low < high <= self.offsets.len(),
                self.offsets@[low as int] <= offset,
                high < self.offsets.len() ==> offset < self.offsets@[high as int],
            decreases high - low,
        {
            let middle: usize = low + (high - low) / 2;
            if self.offsets[middle] <= offset {
                low = middle;
            } else {
                high = middle;
            }
        }
        low
    }

    /// The position of a byte offset.
    pub fn byte_to_position(&self, offset: usize, encoding: PositionEncoding) -> (r: Position)
        requires
            self.wf(),
        ensures
            r == position_at(self@, offset as int, encoding),
    {
        let ghost s = self.chars@;
        let line = self.line_at(offset);
        proof {
            lemma_line_begin(s, line as nat);
            lemma_newlines_bounded(s);
        }
        let start = self.starts[line];
        let mut i: usize = start;
        let mut at: usize = self.offsets[line];
        let mut column: u32 = 0;
        proof {
            assert(s.subrange(start as int, start as int) =~= Seq::<char>::empty());
            lemma_byte_len_monotone(s, start as int, s.len() as int);
            if start < s.len() {
                lemma_newlines_step(s, start as int);
                lemma_byte_len_monotone(s, start + 1, s.len() as int);
            }
        }
        while i < self.chars.len() && at + char_bytes(self.chars[i]) <= offset
            invariant
                self.wf(),
                s == self.chars@,
                line < self.starts.len(),
                start == line_begin(s, line as nat),
                start <= i <= s.len(),
                newlines(s.take(i as int)) == line,
                at == byte_len(s.take(i as int)),
                at <= offset,
                at <= u32::MAX,
                column == units(s.subrange(start as int, i as int), encoding),
                line + 1 < self.starts.len() ==> offset < self.offsets@[line + 1],
                i < s.len() ==> at + utf8_width(s[i as int]) <= u32::MAX,
                u32::MAX <= usize::MAX,
            decreases self.chars.len() - i,
        {
            proof {
                lemma_newlines_step(s, i as int);
                assert(s.take(i + 1).take(i as int) =~= s.take(i as int));
                if s[i as int] == '\n' {
                    lemma_line_begin_after(s, i as int);
                    lemma_newlines_monotone(s, i + 1, s.len() as int);
                    assert(s.take(s.len() as int) =~= s);
                    assert(self.starts@[line + 1] == i + 1);
                    assert(self.offsets@[line + 1] == byte_len(s.take(i + 1)));
                }
                assert(s.subrange(start as int, i + 1).drop_last() =~= s.subrange(
                    start as int,
                    i as int,
                ));
                lemma_part_bounded(s, start as int, i + 1, encoding);
                lemma_byte_len_monotone(s, i + 1, s.len() as int);
                if i + 1 < s.len() {
                    lemma_newlines_step(s, i + 1);
                    lemma_byte_len_monotone(s, i + 2, s.len() as int);
                }
            }
            let c = self.chars[i];
            at = at + char_bytes(c);
            column = column + char_units(c, encoding);
            i = i + 1;
        }
        proof {
            if i < s.len() {
                lemma_newlines_step(s, i as int);
            }
            lemma_char_index_is(s, offset as int, i as int);
            lemma_position_exact(s, i as int, encoding);
        }
        Position { line: line as u32, character: column }
    }

    /// The byte offset of a position.
    pub fn position_to_byte(&self, position: Position, encoding: PositionEncoding) -> (r: usize)
        requires
            self.wf(),
        ensures
            r == offset_at(self@, position, encoding),
    {
        let ghost s = self.chars@;
        let line = position.line as usize;
        if line >= self.starts.len() {
            proof {
                lemma_past_last_line(s, position.line as nat);
                assert(s.take(s.len() as int) =~= s);
            }
            return self.length;
        }
        proof {
            lemma_line_begin(s, line as nat);
        }
        let mut i: usize = self.starts[line];
        let mut at: usize = self.offsets[line];
        let mut left: u32 = position.character;
        while i < self.chars.len() && self.chars[i] != '\n' && char_units(self.chars[i], encoding)
            <= left
            invariant
                self.wf(),
                s == self.chars@,
                i <= s.len(),
                at == byte_len(s.take(i as int)),
                column_index(s, i as int, left as int, encoding) == column_index(
                    s,
                    line_begin(s, position.line as nat),
                    position.character as int,
                    encoding,
                ),
            decreases self.chars.len() - i,
        {
            proof {
                lemma_newlines_step(s, i as int);
                lemma_byte_len_monotone(s, i + 1, s.len() as int);
            }
            let c = self.chars[i];
            at = at + char_bytes(c);
            left = left - char_units(c, encoding);
            i = i + 1;
        }
        at
    }

    /// The character that begins at byte `offset`, where one does or the text
    /// ends.
    fn boundary(&self, offset: usize) -> (r: Option<usize>)
        requires
            self.wf(),
        ensures
            r is Some <==> on_boundary(self@, offset as int),
            r is Some ==> r->0 == char_index(self@, offset as int),
    {
        let ghost s = self.chars@;
        let line = self.line_at(offset);
        proof {
            lemma_line_begin(s, line as nat);
        }
        let mut i: usize = self.starts[line];
        let mut at: usize = self.offsets[line];
        proof {
            lemma_byte_len_monotone(s, i as int, s.len() as int);
        }
        while i < self.chars.len() && at < offset
            invariant
                self.wf(),
                s == self.chars@,
                i <= s.len(),
                at == byte_len(s.take(i as int)),
                at <= u32::MAX,
                at > offset ==> i > 0 && byte_len(s.take(i - 1)) < offset,
            decreases self.chars.len() - i,
        {
            proof {
                lemma_newlines_step(s, i as int);
                lemma_byte_len_monotone(s, i + 1, s.len() as int);
            }
            at = at + char_bytes(self.chars[i]);
            i = i + 1;
        }
        proof {
            if at == offset {
                lemma_char_index_of_boundary(s, i as int);
            } else if at > offset {
                lemma_char_index_is(s, offset as int, i - 1);
            } else {
                lemma_char_index_is(s, offset as int, i as int);
            }
        }
        if at == offset {
            Some(i)
        } else {
            None
        }
    }

    /// The text between two byte offsets, where both fall between characters and
    /// the first is not behind the second.
    pub fn slice(&self, start: usize, end: usize) -> (r: Option<String>)
        requires
            self.wf(),
        ensures
            r.deep_view() == slice_at(self@, start as int, end as int),
    {
        if start > end {
            return None;
        }
        match (self.boundary(start), self.boundary(end)) {
            (Some(from), Some(to)) => {
                proof {
                    lemma_char_index(self@, start as int);
                    lemma_char_index(self@, end as int);
                    if to < from {
                        lemma_byte_len_monotone(self@, to + 1, from as int);
                    }
                }
                Some(text_between(&self.chars, from, to))
            },
            _ => None,
        }
    }

    /// Whether only whitespace stands before byte `offset` on its line.
    pub fn blank_before(&self, offset: usize) -> (r: bool)
        requires
            self.wf(),
        ensures
            r == blank_before(self@, offset as int),
    {
        let ghost s = self.chars@;
        let ghost target = char_index(s, offset as int);
        let ghost from = line_begin(s, newlines(s.take(target)));
        let line = self.byte_to_position(offset, PositionEncoding::Utf8).line as usize;
        proof {
            lemma_char_index(s, offset as int);
            lemma_position_exact(s, target, PositionEncoding::Utf8);
            lemma_own_line(s, target);
            assert(s.take(s.len() as int) =~= s);
            lemma_newlines_monotone(s, target, s.len() as int);
            lemma_byte_len_monotone(s, from, s.len() as int);
            if from < s.len() {
                lemma_newlines_step(s, from);
                lemma_byte_len_monotone(s, from + 1, s.len() as int);
            }
        }
        let mut i: usize = self.starts[line];
        let mut at: usize = self.offsets[line];
        while i < self.chars.len() && at + char_bytes(self.chars[i]) <= offset
            invariant
                self.wf(),
                s == self.chars@,
                target == char_index(s, offset as int),
                from == line_begin(s, newlines(s.take(target))),
                0 <= from <= i <= target <= s.len(),
                at == byte_len(s.take(i as int)),
                at <= u32::MAX,
                forall|j: int| from <= j < i ==> char_is_whitespace(#[trigger] s[j]),
                i < s.len() ==> at + utf8_width(s[i as int]) <= u32::MAX,
                u32::MAX <= usize::MAX,
            decreases self.chars.len() - i,
        {
            proof {
                lemma_newlines_step(s, i as int);
                lemma_char_index(s, offset as int);
                if target <= i {
                    lemma_byte_len_monotone(s, target + 1, i + 1);
                }
                lemma_byte_len_monotone(s, i + 1, s.len() as int);
                if i + 1 < s.len() {
                    lemma_newlines_step(s, i + 1);
                    lemma_byte_len_monotone(s, i + 2, s.len() as int);
                }
            }
            let c = self.chars[i];
            if !c.is_whitespace() {
                return false;
            }
            at = at + char_bytes(c);
            i = i + 1;
        }
        proof {
            lemma_char_index(s, offset as int);
            if i < target {
                lemma_newlines_step(s, i as int);
                lemma_byte_len_monotone(s, i + 1, target);
            }
        }
        true
    }

    /// The text of the line that holds byte `offset`, without its line feed.
    pub fn line_text(&self, offset: usize) -> (r: String)
        requires
            self.wf(),
        ensures
            r@ == line_around(self@, offset as int),
    {
        let ghost s = self.chars@;
        let ghost target = char_index(s, offset as int);
        let line = self.byte_to_position(offset, PositionEncoding::Utf8).line as usize;
        proof {
            lemma_char_index(s, offset as int);
            lemma_position_exact(s, target, PositionEncoding::Utf8);
            lemma_own_line(s, target);
            assert(s.take(s.len() as int) =~= s);
            lemma_newlines_monotone(s, target, s.len() as int);
            lemma_line_end_from(s, line_begin(s, newlines(s.take(target))), target);
        }
        let start = self.starts[line];
        let mut end: usize = start;
        while end < self.chars.len() && self.chars[end] != '\n'
            invariant
                s == self.chars@,
                start <= end <= s.len(),
                line_end(s, start as int) == line_end(s, end as int),
            decreases s.len() - end,
        {
            end = end + 1;
        }
        text_between(&self.chars, start, end)
    }

    /// The characters of the document.
    pub fn chars(&self) -> (r: &Vec<char>)
        ensures
            r@ == self@,
    {
        &self.chars
    }

    /// How many whole characters lie before byte `offset`, and how many bytes
    /// these take.
    pub fn char_at(&self, offset: usize) -> (r: (usize, usize))
        requires
            self.wf(),
        ensures
            r.0 == char_index(self@, offset as int),
            r.0 <= self@.len(),
            r.1 == byte_len(self@.take(r.0 as int)),
    {
        let ghost s = self.chars@;
        let line = self.line_at(offset);
        proof {
            lemma_line_begin(s, line as nat);
            lemma_char_index(s, offset as int);
        }
        let mut i: usize = self.starts[line];
        let mut at: usize = self.offsets[line];
        proof {
            lemma_byte_len_monotone(s, i as int, s.len() as int);
            if i < s.len() {
                lemma_newlines_step(s, i as int);
                lemma_byte_len_monotone(s, i + 1, s.len() as int);
            }
        }
        while i < self.chars.len() && at + char_bytes(self.chars[i]) <= offset
            invariant
                self.wf(),
                s == self.chars@,
                i <= s.len(),
                at == byte_len(s.take(i as int)),
                at <= offset,
                at <= u32::MAX,
                i < s.len() ==> at + utf8_width(s[i as int]) <= u32::MAX,
                u32::MAX <= usize::MAX,
            decreases self.chars.len() - i,
        {
            proof {
                lemma_newlines_step(s, i as int);
                lemma_byte_len_monotone(s, i + 1, s.len() as int);
                if i + 1 < s.len() {
                    lemma_newlines_step(s, i + 1);
                    lemma_byte_len_monotone(s, i + 2, s.len() as int);
                }
            }
            at = at + char_bytes(self.chars[i]);
            i = i + 1;
        }
        proof {
            if i < s.len() {
                lemma_newlines_step(s, i as int);
            }
            lemma_char_index_is(s, offset as int, i as int);
        }
        (i, at)
    }

    /// The length of the document in bytes.
    pub fn byte_length(&self) -> (r: usize)
        requires
            self.wf(),
        ensures
            r == byte_len(self@),
    {
        self.length
    }

    /// The range between two byte offsets.
    pub fn range(&self, start: usize, end: usize, encoding: PositionEncoding) -> (r: Range)
        requires
            self.wf(),
        ensures
            r == range_at(self@, start as int, end as int, encoding),
    {
        Range {
            start: self.byte_to_position(start, encoding),
            end: self.byte_to_position(end, encoding),
        }
    }
}

proof fn lemma_past_last_line(s: Seq<char>, line: nat)
    requires
        line > newlines(s),
    ensures
        line_begin(s, line) == s.len(),
{
    if s.len() > 0 {
        assert(newlines(s.drop_last()) <= newlines(s));
    }
}

/// Positions count lines by line feeds and columns by units: the text begins at the
/// first column of the first line, the place behind a line feed is the first column of
/// the next line, and any other character is as wide as its UTF-8 or UTF-16 form. An
/// offset inside a character is at its start.
pub proof fn law_positions_advance_by_character(
    s: Seq<char>,
    i: int,
    k: int,
    encoding: PositionEncoding,
)
    requires
        fits(s),
        0 <= i < s.len(),
        0 <= k < byte_len(s.take(i + 1)) - byte_len(s.take(i)),
    ensures
        ({
            let start = byte_len(s.take(i)) as int;
            let a = position_at(s, start, encoding);
            let b = position_at(s, byte_len(s.take(i + 1)) as int, encoding);
            let code = s[i] as u32;
            let wide = match encoding {
                PositionEncoding::Utf16 => if code < 0x10000 {
                    1int
                } else {
                    2
                },
                PositionEncoding::Utf8 => if code < 0x80 {
                    1int
                } else if code < 0x800 {
                    2
                } else if code < 0x10000 {
                    3
                } else {
                    4
                },
            };
            &&& position_at(s, 0, encoding) == (Position { line: 0, character: 0 })
            &&& s[i] == '\n' ==> b.line == a.line + 1 && b.character == 0
            &&& s[i] != '\n' ==> b.line == a.line && b.character == a.character + wide
            &&& position_at(s, start + k, encoding) == a
        }),
{
    let start = byte_len(s.take(i)) as int;
    lemma_char_index_of_boundary(s, 0);
    lemma_char_index_of_boundary(s, i);
    lemma_char_index_of_boundary(s, i + 1);
    lemma_char_index_is(s, start + k, i);
    lemma_newlines_step(s, i);
    assert(s.take(0) =~= Seq::<char>::empty());
    lemma_line_begin(s, 0);
    assert(s.subrange(0, 0) =~= Seq::<char>::empty());
    lemma_position_exact(s, 0, encoding);
    lemma_position_exact(s, i, encoding);
    lemma_position_exact(s, i + 1, encoding);
    let line = newlines(s.take(i));
    lemma_own_line(s, i);
    if s[i] == '\n' {
        lemma_line_begin_after(s, i);
        assert(s.subrange(i + 1, i + 1) =~= Seq::<char>::empty());
    } else {
        let begin = line_begin(s, line);
        assert(s.subrange(begin, i + 1).drop_last() =~= s.subrange(begin, i));
    }
}

/// A column behind the end of its line counts as that end, and a line behind the last
/// one as the end of the text.
pub proof fn law_positions_are_held_to_the_text(
    head: Seq<char>,
    line: Seq<char>,
    tail: Seq<char>,
    position: Position,
    encoding: PositionEncoding,
)
    requires
        head.len() == 0 || head.last() == '\n',
        forall|i: int| 0 <= i < line.len() ==> #[trigger] line[i] != '\n',
        tail.len() == 0 || tail[0] == '\n',
    ensures
        ({
            let s = head + line + tail;
            &&& position.line == newlines(head) && position.character >= units(line, encoding)
                ==> offset_at(s, position, encoding) == byte_len(head + line)
            &&& position.line > newlines(s) ==> offset_at(s, position, encoding) == byte_len(s)
        }),
{
    let s = head + line + tail;
    let at = position.line as nat;
    if position.line > newlines(s) {
        lemma_past_last_line(s, at);
        assert(s.take(s.len() as int) =~= s);
    }
    if position.line == newlines(head) && position.character >= units(line, encoding) {
        let from = head.len() as int;
        assert(s.take(from) =~= head);
        if from > 0 {
            lemma_newlines_step(s, from - 1);
            assert(s[from - 1] == '\n');
            lemma_line_begin_after(s, from - 1);
            assert(s.take(from - 1 + 1) =~= head);
        } else {
            lemma_line_begin(s, 0);
        }
        assert(line_begin(s, at) == from);
        assert forall|j: int| from <= j < from + line.len() implies #[trigger] s[j] != '\n' by {
            assert(s[j] == line[j - from]);
        }
        assert(s.subrange(from, from + line.len()) =~= line);
        lemma_column_held(s, from, from + line.len(), position.character as int, encoding);
        assert(s.take(from + line.len()) =~= head + line);
    }
}

proof fn lemma_column_held(
    s: Seq<char>,
    i: int,
    end: int,
    column: int,
    encoding: PositionEncoding,
)
    requires
        0 <= i <= end <= s.len(),
        forall|j: int| i <= j < end ==> #[trigger] s[j] != '\n',
        end < s.len() ==> s[end] == '\n',
        column >= units(s.subrange(i, end), encoding),
    ensures
        column_index(s, i, column, encoding) == end,
    decreases end - i,
{
    if i < end {
        let part = s.subrange(i, end);
        lemma_units_front(part, encoding);
        assert(part.drop_first() =~= s.subrange(i + 1, end));
        lemma_column_held(s, i + 1, end, column - unit_width(s[i], encoding), encoding);
    }
}

/// The text between two offsets is what stands between them.
pub proof fn law_slices_are_what_stands_between(a: Seq<char>, b: Seq<char>, c: Seq<char>)
    ensures
        slice_at(a + b + c, byte_len(a) as int, byte_len(a + b) as int) == Some(b),
{
    let s = a + b + c;
    let i = a.len() as int;
    let j = (a + b).len() as int;
    assert(s.take(i) =~= a);
    assert(s.take(j) =~= a + b);
    lemma_char_index_of_boundary(s, i);
    lemma_char_index_of_boundary(s, j);
    lemma_byte_len_monotone(s, i, j);
    assert(s.subrange(i, j) =~= b);
}

/// The line around an offset is all between the line feeds around it, and what stands
/// before the offset on it is blank exactly where it holds nothing but whitespace.
pub proof fn law_lines_lie_between_line_feeds(
    head: Seq<char>,
    left: Seq<char>,
    right: Seq<char>,
    tail: Seq<char>,
)
    requires
        head.len() == 0 || head.last() == '\n',
        forall|i: int| 0 <= i < left.len() ==> #[trigger] left[i] != '\n',
        forall|i: int| 0 <= i < right.len() ==> #[trigger] right[i] != '\n',
        tail.len() == 0 || tail[0] == '\n',
    ensures
        ({
            let s = head + left + right + tail;
            let offset = byte_len(head + left) as int;
            &&& line_around(s, offset) == left + right
            &&& blank_before(s, offset) <==> forall|i: int|
                0 <= i < left.len() ==> char_is_whitespace(#[trigger] left[i])
        }),
{
    let s = head + left + right + tail;
    let from = head.len() as int;
    let at = from + left.len();
    let end = at + right.len();
    let offset = byte_len(head + left) as int;
    assert(s.take(at) =~= head + left);
    lemma_char_index_of_boundary(s, at);
    lemma_own_line(s, at);
    let begin = line_begin(s, newlines(s.take(at)));
    lemma_newlines_monotone(s, at, s.len() as int);
    assert(s.take(s.len() as int) =~= s);
    lemma_line_begin(s, newlines(s.take(at)));
    assert forall|j: int| from <= j < at implies #[trigger] s[j] != '\n' by {
        assert(s[j] == left[j - from]);
    }
    if from > 0 {
        assert(s[from - 1] == '\n');
    }
    assert(begin == from);
    assert forall|j: int| at <= j < end implies #[trigger] s[j] != '\n' by {
        assert(s[j] == right[j - at]);
    }
    lemma_line_end_from(s, at, end);
    if end < s.len() {
        assert(s[end] == tail[0]);
    }
    assert(s.subrange(begin, end) =~= left + right);
    if blank_before(s, offset) {
        assert forall|i: int| 0 <= i < left.len() implies char_is_whitespace(#[trigger] left[i]) by {
            assert(s[from + i] == left[i]);
        }
    }
    if forall|i: int| 0 <= i < left.len() ==> char_is_whitespace(#[trigger] left[i]) {
        assert forall|j: int| begin <= j < at implies char_is_whitespace(#[trigger] s[j]) by {
            assert(s[j] == left[j - from]);
        }
    }
}

} // verus!
