//! Documents within documents: the Markdown of a docstring, and the Julia code in
//! its fences, each with coordinates of its own.

use vstd::prelude::*;

use crate::chars::char_is_whitespace;
use crate::folding::{source_of, SourceMap};
use crate::search::{
    first_found, first_index, law_first_found_is_first, lemma_first_found_from,
    lemma_first_found_stays, lemma_first_found_step, lemma_first_index, lemma_first_index_is,
};
use crate::semantic::{contains_inclusive, range_contains};
use crate::strings::{
    byte_len, holds_text, lemma_byte_len_monotone, same_text, text_between, trim, trimmed,
};
use crate::text::{
    char_bytes, char_index, fits, lemma_char_index, lemma_char_index_of_boundary,
    lemma_newlines_step, lemma_slice_bounded, offset_at, on_boundary, range_at, slice_at, LineIndex, PositionEncoding, Range, TextRange,
};

verus! {

/// A docstring's text as it is shown: without the whitespace around it, and not
/// at all where that leaves nothing.
pub open spec fn rendered(text: Seq<char>) -> Option<Seq<char>> {
    if trimmed(text).len() == 0 {
        None
    } else {
        Some(trimmed(text))
    }
}

/// A docstring's text as it is shown.
pub fn render(text: &str) -> (r: Option<String>)
    ensures
        r.deep_view() == rendered(text@),
{
    let text = trim(text);
    if text.as_str().is_empty() {
        None
    } else {
        Some(text)
    }
}

/// Whether a byte of a decoded docstring comes from a byte of the source.
pub open spec fn byte_holds(map: SourceMap, d: int, offset: u32) -> bool {
    map.starts@[d] <= offset < map.ends@[d]
}

/// The first byte from `d` on that comes from a byte of the source.
pub open spec fn decoded_from(map: SourceMap, offset: u32, d: int) -> Option<u32>
    decreases map.starts.len() - d,
{
    if d < 0 || d >= map.starts.len() || d >= map.ends.len() || d >= u32::MAX {
        None
    } else if byte_holds(map, d, offset) {
        Some(d as u32)
    } else if d == map.starts.len() - 1 && offset == map.ends@[d] {
        Some((d + 1) as u32)
    } else {
        decoded_from(map, offset, d + 1)
    }
}

/// The place in a decoded docstring of a place in the source: the byte that comes
/// from there, or the end.
pub open spec fn decoded_of(map: SourceMap, offset: u32) -> Option<u32> {
    decoded_from(map, offset, 0)
}

/// A byte of the source that a docstring was decoded from stands for a byte of the
/// docstring that leads back to it; only the end of the docstring stands for none.
pub proof fn law_decoded_offset_leads_back(map: SourceMap, offset: u32)
    requires
        map.starts.len() == map.ends.len(),
        decoded_of(map, offset) is Some,
    ensures
        ({
            let d = decoded_of(map, offset)->0;
            ||| d == map.starts.len()
            ||| d < map.starts.len() && byte_holds(map, d as int, offset) && source_of(
                map,
                TextRange { start: d, end: (d + 1) as u32 },
            ) == Some(TextRange { start: map.starts@[d as int], end: map.ends@[d as int] })
        }),
{
    lemma_decoded_from(map, offset, 0);
}

proof fn lemma_decoded_from(map: SourceMap, offset: u32, d: int)
    requires
        map.starts.len() == map.ends.len(),
        0 <= d,
        decoded_from(map, offset, d) is Some,
    ensures
        ({
            let found = decoded_from(map, offset, d)->0;
            ||| found == map.starts.len()
            ||| found < map.starts.len() && found < u32::MAX && byte_holds(
                map,
                found as int,
                offset,
            )
        }),
    decreases map.starts.len() - d,
{
    if d < map.starts.len() && !byte_holds(map, d, offset) && !(d == map.starts.len() - 1 && offset
        == map.ends@[d]) {
        lemma_decoded_from(map, offset, d + 1);
    }
}

impl SourceMap {
    /// The place in the decoded docstring of a place in the source.
    pub fn decoded_offset(&self, offset: u32) -> (r: Option<u32>)
        ensures
            r == decoded_of(*self, offset),
    {
        let mut d: usize = 0;
        while d < self.starts.len() && d < self.ends.len() && d < 0xffff_ffff
            invariant
                d <= self.starts.len(),
                d <= 0xffff_ffff,
                decoded_of(*self, offset) == decoded_from(*self, offset, d as int),
            decreases self.starts.len() - d,
        {
            if self.starts[d] <= offset && offset < self.ends[d] {
                return Some(d as u32);
            }
            if d == self.starts.len() - 1 && offset == self.ends[d] {
                return Some((d + 1) as u32);
            }
            d = d + 1;
        }
        None
    }
}

/// The target of an `@ref` link.
#[derive(Debug)]
pub struct RefTarget {
    pub range: TextRange,
    pub target: String,
}

/// A link with its destination.
#[derive(Debug)]
pub struct AnchorLink {
    pub range: TextRange,
    pub destination: String,
}

/// A reference to a footnote.
#[derive(Debug)]
pub struct FootnoteRef {
    pub range: TextRange,
    pub id: String,
}

/// A place that anchors lead to, under an id: a heading, or a place that is marked
/// with one. The label is what it is offered as: the title of a heading, the id of
/// a mark.
#[derive(Debug)]
pub struct DocAnchor {
    pub id: String,
    pub label: String,
    pub range: TextRange,
}

/// The definition of a footnote.
#[derive(Debug)]
pub struct FootnoteDef {
    pub id: String,
    pub range: TextRange,
}

/// A docstring whose text is known, with what its Markdown holds.
#[derive(Debug)]
pub struct DocText {
    pub text: String,
    pub map: SourceMap,
    pub refs: Vec<RefTarget>,
    pub links: Vec<AnchorLink>,
    pub footnotes: Vec<FootnoteRef>,
    pub anchors: Vec<DocAnchor>,
    pub notes: Vec<FootnoteDef>,
    /// The content of each Julia fence.
    pub fences: Vec<TextRange>,
    /// Where what it documents begins in the source.
    pub target_start: u32,
}

impl DocText {
    /// The text fits.
    pub open spec fn wf(&self) -> bool {
        fits(self.text@)
    }
}

/// Whether every docstring is valid.
pub open spec fn docs_wf(docs: Seq<DocText>) -> bool {
    forall|i: int| 0 <= i < docs.len() ==> (#[trigger] docs[i]).wf()
}

/// That a docstring comes from a place in the source.
pub open spec fn doc_spans(offset: u32) -> spec_fn(DocText) -> bool {
    |doc: DocText| decoded_of(doc.map, offset) is Some
}

/// The first docstring that comes from `offset`, or the number of docstrings.
pub fn documentation_at(docs: &Vec<DocText>, offset: u32) -> (r: usize)
    ensures
        r == first_index(docs@, doc_spans(offset)),
        r <= docs.len(),
{
    let ghost here = doc_spans(offset);
    let mut at: usize = 0;
    while at < docs.len() && docs[at].map.decoded_offset(offset).is_none()
        invariant
            at <= docs.len(),
            here == doc_spans(offset),
            forall|k: int| 0 <= k < at ==> !here(#[trigger] docs@[k]),
        decreases docs.len() - at,
    {
        at = at + 1;
    }
    proof {
        lemma_first_index_is(docs@, here, at as int);
    }
    at
}

/// A `@ref` target under the cursor, and the place of the cursor in it.
#[derive(Debug)]
pub struct ExplicitRef {
    pub target: String,
    pub range: TextRange,
    pub offset: u32,
}

/// What an [`ExplicitRef`] says.
pub struct RefView {
    pub target: Seq<char>,
    pub range: TextRange,
    pub offset: u32,
}

impl DeepView for ExplicitRef {
    type V = RefView;

    open spec fn deep_view(&self) -> RefView {
        RefView { target: self.target@, range: self.range, offset: self.offset }
    }
}

/// That the target of a link spans an offset.
pub open spec fn ref_spans(offset: u32) -> spec_fn(RefTarget) -> bool {
    |target: RefTarget| contains_inclusive(target.range, offset)
}

/// Where the line that is open at character `i` begins: behind the last line feed
/// or carriage return.
pub open spec fn open_line(s: Seq<char>, i: int) -> int
    decreases i,
{
    if i <= 0 || s[i - 1] == '\n' || s[i - 1] == '\r' {
        i
    } else {
        open_line(s, i - 1)
    }
}

/// The last place from `from` on where a marker stands that ends at `i` at the
/// latest.
pub open spec fn last_marker(s: Seq<char>, marker: Seq<char>, from: int, i: int) -> Option<int>
    decreases i + 1,
{
    if i < 0 || i - marker.len() < from || from < 0 {
        None
    } else if s.subrange(i - marker.len(), i) == marker {
        Some(i - marker.len())
    } else {
        last_marker(s, marker, from, i - 1)
    }
}

/// How many brackets are open at the end of a text, or `None` where one closes
/// that was not opened.
pub open spec fn open_brackets(s: Seq<char>) -> Option<nat>
    decreases s.len(),
{
    if s.len() == 0 {
        Some(0)
    } else {
        match open_brackets(s.drop_last()) {
            Some(depth) => if s.last() == '(' {
                Some(depth + 1)
            } else if s.last() == ')' {
                if depth == 0 {
                    None
                } else {
                    Some((depth - 1) as nat)
                }
            } else {
                Some(depth)
            },
            None => None,
        }
    }
}

/// The first character from `i` on that is not whitespace, before `end`.
pub open spec fn past_blanks(s: Seq<char>, i: int, end: int) -> int
    decreases end - i,
{
    if i >= end || i < 0 || !char_is_whitespace(s[i]) {
        i
    } else {
        past_blanks(s, i + 1, end)
    }
}

/// The target of a link that is still being written: what stands between the last
/// `(@ref` of the line and the cursor, where a blank follows the marker and the
/// bracket has not been closed.
pub open spec fn partial_ref(s: Seq<char>, offset: u32) -> Option<RefView> {
    let end = char_index(s, offset as int);
    let marker = "(@ref"@;
    if !on_boundary(s, offset as int) {
        None
    } else {
        match last_marker(s, marker, open_line(s, end), end) {
            Some(at) => {
                let after = at + marker.len();
                let start = past_blanks(s, after, end);
                if after < end && char_is_whitespace(s[after]) && open_brackets(
                    s.subrange(after, end),
                ) is Some {
                    let from = byte_len(s.take(start)) as u32;
                    Some(
                        RefView {
                            target: s.subrange(start, end),
                            range: TextRange { start: from, end: offset },
                            offset: (offset - from) as u32,
                        },
                    )
                } else {
                    None
                }
            },
            None => None,
        }
    }
}

/// The `@ref` target at a place of a docstring: that of a link, or that of a link
/// which is still being written.
pub open spec fn explicit_ref_at(doc: DocText, offset: u32) -> Option<RefView> {
    let at = first_index(doc.refs@, ref_spans(offset));
    if at < doc.refs.len() {
        let found = doc.refs@[at];
        Some(
            RefView {
                target: found.target@,
                range: found.range,
                offset: (offset - found.range.start) as u32,
            },
        )
    } else {
        partial_ref(doc.text@, offset)
    }
}

proof fn lemma_open_line(s: Seq<char>, i: int)
    requires
        0 <= i <= s.len(),
    ensures
        0 <= open_line(s, i) <= i,
    decreases i,
{
    if !(i <= 0 || s[i - 1] == '\n' || s[i - 1] == '\r') {
        lemma_open_line(s, i - 1);
    }
}

fn find_open_line(chars: &Vec<char>, end: usize) -> (r: usize)
    requires
        end <= chars.len(),
    ensures
        r == open_line(chars@, end as int),
        r <= end,
{
    let mut i: usize = end;
    while i > 0 && chars[i - 1] != '\n' && chars[i - 1] != '\r'
        invariant
            i <= end <= chars.len(),
            open_line(chars@, end as int) == open_line(chars@, i as int),
        decreases i,
    {
        i = i - 1;
    }
    i
}

fn find_last_marker(chars: &Vec<char>, from: usize, end: usize) -> (r: Option<usize>)
    requires
        from <= end <= chars.len(),
    ensures
        match r {
            Some(at) => last_marker(chars@, "(@ref"@, from as int, end as int) == Some(at as int)
                && from <= at && at + 5 <= end,
            None => last_marker(chars@, "(@ref"@, from as int, end as int) is None,
        },
{
    let ghost s = chars@;
    let ghost marker = "(@ref"@;
    proof {
        reveal_strlit("(@ref");
    }
    let mut i: usize = end;
    while i >= 5 && i - 5 >= from
        invariant
            s == chars@,
            marker == "(@ref"@,
            marker.len() == 5,
            marker[0] == '(' && marker[1] == '@' && marker[2] == 'r' && marker[3] == 'e'
                && marker[4] == 'f',
            i <= end <= chars.len(),
            last_marker(s, marker, from as int, end as int) == last_marker(
                s,
                marker,
                from as int,
                i as int,
            ),
        decreases i,
    {
        let found = chars[i - 5] == '(' && chars[i - 4] == '@' && chars[i - 3] == 'r' && chars[i
            - 2] == 'e' && chars[i - 1] == 'f';
        proof {
            let here = s.subrange(i - 5, i as int);
            if found {
                assert(here =~= marker);
            } else if here == marker {
                assert(here[0] == '(' && here[1] == '@' && here[2] == 'r' && here[3] == 'e'
                    && here[4] == 'f');
            }
        }
        if found {
            return Some(i - 5);
        }
        i = i - 1;
    }
    None
}

fn brackets_stay_open(chars: &Vec<char>, from: usize, end: usize) -> (r: bool)
    requires
        from <= end <= chars.len(),
    ensures
        r == (open_brackets(chars@.subrange(from as int, end as int)) is Some),
{
    let ghost s = chars@;
    let mut depth: usize = 0;
    let mut i: usize = from;
    proof {
        assert(s.subrange(from as int, from as int) =~= Seq::<char>::empty());
    }
    while i < end
        invariant
            s == chars@,
            from <= i <= end <= s.len(),
            depth <= i - from,
            open_brackets(s.subrange(from as int, i as int)) == Some(depth as nat),
        decreases end - i,
    {
        proof {
            assert(s.subrange(from as int, i + 1).drop_last() =~= s.subrange(
                from as int,
                i as int,
            ));
        }
        let c = chars[i];
        if c == '(' {
            depth = depth + 1;
        } else if c == ')' {
            if depth == 0 {
                proof {
                    lemma_brackets_stay_closed(s, from as int, i + 1, end as int);
                }
                return false;
            }
            depth = depth - 1;
        }
        i = i + 1;
    }
    true
}

proof fn lemma_brackets_stay_closed(s: Seq<char>, from: int, i: int, end: int)
    requires
        0 <= from <= i <= end <= s.len(),
        open_brackets(s.subrange(from, i)) is None,
    ensures
        open_brackets(s.subrange(from, end)) is None,
    decreases end - i,
{
    if i < end {
        assert(s.subrange(from, i + 1).drop_last() =~= s.subrange(from, i));
        lemma_brackets_stay_closed(s, from, i + 1, end);
    }
}

fn skip_blanks(chars: &Vec<char>, from: usize, end: usize) -> (r: usize)
    requires
        from <= end <= chars.len(),
    ensures
        r == past_blanks(chars@, from as int, end as int),
        from <= r <= end,
{
    let mut i: usize = from;
    while i < end && chars[i].is_whitespace()
        invariant
            from <= i <= end <= chars.len(),
            past_blanks(chars@, from as int, end as int) == past_blanks(
                chars@,
                i as int,
                end as int,
            ),
        decreases end - i,
    {
        i = i + 1;
    }
    i
}

/// The number of bytes that the characters `from..to` take.
pub fn bytes_between(chars: &Vec<char>, from: usize, to: usize) -> (r: usize)
    requires
        from <= to <= chars.len(),
        fits(chars@),
    ensures
        r == byte_len(chars@.take(to as int)) - byte_len(chars@.take(from as int)),
{
    let ghost s = chars@;
    let mut total: usize = 0;
    let mut i: usize = from;
    while i < to
        invariant
            s == chars@,
            fits(s),
            from <= i <= to <= s.len(),
            total == byte_len(s.take(i as int)) - byte_len(s.take(from as int)),
        decreases to - i,
    {
        proof {
            lemma_newlines_step(s, i as int);
            lemma_byte_len_monotone(s, i + 1, s.len() as int);
        }
        total = total + char_bytes(chars[i]);
        i = i + 1;
    }
    total
}

fn find_partial_ref(line_index: &LineIndex, offset: u32) -> (r: Option<ExplicitRef>)
    requires
        line_index.wf(),
    ensures
        r.deep_view() == partial_ref(line_index@, offset),
{
    let ghost s = line_index@;
    proof {
        line_index.lemma_fits();
        lemma_char_index(s, offset as int);
    }
    let (end, at_end) = line_index.char_at(offset as usize);
    if at_end != offset as usize {
        return None;
    }
    let chars = line_index.chars();
    let line = find_open_line(chars, end);
    let at = match find_last_marker(chars, line, end) {
        Some(at) => at,
        None => {
            return None;
        },
    };
    proof {
        reveal_strlit("(@ref");
    }
    let after: usize = at + 5;
    if after >= end || !chars[after].is_whitespace() || !brackets_stay_open(chars, after, end) {
        return None;
    }
    let start = skip_blanks(chars, after, end);
    let tail = bytes_between(chars, start, end) as u32;
    proof {
        lemma_byte_len_monotone(s, start as int, end as int);
        lemma_byte_len_monotone(s, end as int, s.len() as int);
    }
    let from = offset - tail;
    Some(
        ExplicitRef {
            target: text_between(chars, start, end),
            range: TextRange { start: from, end: offset },
            offset: tail,
        },
    )
}

impl DocText {
    /// The `@ref` target at byte `offset` of the docstring.
    pub fn explicit_ref(&self, offset: u32) -> (r: Option<ExplicitRef>)
        requires
            self.wf(),
        ensures
            r.deep_view() == explicit_ref_at(*self, offset),
    {
        let ghost here = ref_spans(offset);
        let mut at: usize = 0;
        while at < self.refs.len() && !range_contains(self.refs[at].range, offset)
            invariant
                at <= self.refs.len(),
                here == ref_spans(offset),
                forall|k: int| 0 <= k < at ==> !here(#[trigger] self.refs@[k]),
            decreases self.refs.len() - at,
        {
            at = at + 1;
        }
        proof {
            lemma_first_index_is(self.refs@, here, at as int);
        }
        if at < self.refs.len() {
            let found = &self.refs[at];
            return Some(
                ExplicitRef {
                    target: found.target.clone(),
                    range: found.range,
                    offset: offset - found.range.start,
                },
            );
        }
        let line_index = LineIndex::new(self.text.as_str());
        find_partial_ref(&line_index, offset)
    }
}

/// A reference within Markdown.
#[derive(Debug)]
pub enum MarkdownReference {
    Anchor(String),
    Footnote(String),
}

/// What a [`MarkdownReference`] says.
pub enum MarkdownView {
    Anchor(Seq<char>),
    Footnote(Seq<char>),
}

impl DeepView for MarkdownReference {
    type V = MarkdownView;

    open spec fn deep_view(&self) -> MarkdownView {
        match *self {
            MarkdownReference::Anchor(id) => MarkdownView::Anchor(id@),
            MarkdownReference::Footnote(id) => MarkdownView::Footnote(id@),
        }
    }
}

/// The anchor that a link leads to from an offset: what stands behind the `#` of
/// its destination.
pub open spec fn anchor_at(offset: u32) -> spec_fn(AnchorLink) -> Option<MarkdownView> {
    |link: AnchorLink|
        if link.destination@.len() > 0 && link.destination@[0] == '#' && contains_inclusive(
            link.range,
            offset,
        ) {
            Some(MarkdownView::Anchor(link.destination@.skip(1)))
        } else {
            None
        }
}

/// The footnote that a reference leads to from an offset.
pub open spec fn footnote_at(offset: u32) -> spec_fn(FootnoteRef) -> Option<MarkdownView> {
    |note: FootnoteRef|
        if contains_inclusive(note.range, offset) {
            Some(MarkdownView::Footnote(note.id@))
        } else {
            None
        }
}

/// The anchor or the footnote that is referred to at a place of a docstring.
pub open spec fn reference_at(doc: DocText, offset: u32) -> Option<MarkdownView> {
    match first_found(doc.links@, anchor_at(offset)) {
        Some(anchor) => Some(anchor),
        None => first_found(doc.footnotes@, footnote_at(offset)),
    }
}

impl DocText {
    /// The anchor or the footnote that is referred to at byte `offset`.
    pub fn markdown_reference(&self, offset: u32) -> (r: Option<MarkdownReference>)
        ensures
            r.deep_view() == reference_at(*self, offset),
    {
        let ghost anchor = anchor_at(offset);
        let ghost links = self.links@;
        let mut i: usize = 0;
        proof {
            assert(links.take(0) =~= Seq::<AnchorLink>::empty());
        }
        while i < self.links.len()
            invariant
                i <= links.len(),
                links == self.links@,
                anchor == anchor_at(offset),
                first_found(links.take(i as int), anchor) is None,
            decreases links.len() - i,
        {
            proof {
                lemma_first_found_step(links, anchor, i as int);
            }
            let link = &self.links[i];
            let chars = crate::strings::chars_of(link.destination.as_str());
            if chars.len() > 0 && chars[0] == '#' && range_contains(link.range, offset) {
                let id = text_between(&chars, 1, chars.len());
                proof {
                    assert(id@ =~= link.destination@.skip(1));
                    lemma_first_found_stays(links, anchor, i + 1);
                }
                return Some(MarkdownReference::Anchor(id));
            }
            i = i + 1;
        }
        let ghost note = footnote_at(offset);
        let ghost notes = self.footnotes@;
        let mut j: usize = 0;
        proof {
            assert(links.take(i as int) =~= links);
            assert(notes.take(0) =~= Seq::<FootnoteRef>::empty());
        }
        while j < self.footnotes.len()
            invariant
                j <= notes.len(),
                notes == self.footnotes@,
                note == footnote_at(offset),
                first_found(notes.take(j as int), note) is None,
                first_found(self.links@, anchor_at(offset)) is None,
            decreases notes.len() - j,
        {
            proof {
                lemma_first_found_step(notes, note, j as int);
            }
            let found = &self.footnotes[j];
            if range_contains(found.range, offset) {
                proof {
                    lemma_first_found_stays(notes, note, j + 1);
                }
                return Some(MarkdownReference::Footnote(found.id.clone()));
            }
            j = j + 1;
        }
        proof {
            assert(notes.take(j as int) =~= notes);
        }
        None
    }
}

/// The Julia code of a fence, with the place of the cursor in it.
#[derive(Debug)]
pub struct EmbeddedJulia {
    pub text: String,
    pub range: TextRange,
    pub offset: u32,
}

/// What [`EmbeddedJulia`] says.
pub struct EmbeddedView {
    pub text: Seq<char>,
    pub range: TextRange,
    pub offset: u32,
}

impl DeepView for EmbeddedJulia {
    type V = EmbeddedView;

    open spec fn deep_view(&self) -> EmbeddedView {
        EmbeddedView { text: self.text@, range: self.range, offset: self.offset }
    }
}

/// The code of a fence that spans an offset, where its content can be cut out.
pub open spec fn fence_at(text: Seq<char>, offset: u32) -> spec_fn(TextRange) -> Option<
    EmbeddedView,
> {
    |range: TextRange|
        if contains_inclusive(range, offset) {
            match slice_at(text, range.start as int, range.end as int) {
                Some(code) => Some(
                    EmbeddedView { text: code, range, offset: (offset - range.start) as u32 },
                ),
                None => None,
            }
        } else {
            None
        }
}

/// The Julia code at a place of a docstring.
pub open spec fn embedded_at(doc: DocText, offset: u32) -> Option<EmbeddedView> {
    first_found(doc.fences@, fence_at(doc.text@, offset))
}

impl DocText {
    /// The Julia code at byte `offset` of the docstring.
    pub fn embedded_julia(&self, offset: u32) -> (r: Option<EmbeddedJulia>)
        requires
            self.wf(),
        ensures
            r.deep_view() == embedded_at(*self, offset),
    {
        let ghost find = fence_at(self.text@, offset);
        let ghost fences = self.fences@;
        let line_index = LineIndex::new(self.text.as_str());
        let mut i: usize = 0;
        proof {
            assert(fences.take(0) =~= Seq::<TextRange>::empty());
        }
        while i < self.fences.len()
            invariant
                i <= fences.len(),
                fences == self.fences@,
                line_index.wf(),
                line_index@ == self.text@,
                find == fence_at(self.text@, offset),
                first_found(fences.take(i as int), find) is None,
            decreases fences.len() - i,
        {
            proof {
                lemma_first_found_step(fences, find, i as int);
            }
            let range = self.fences[i];
            if range_contains(range, offset) {
                if let Some(text) = line_index.slice(range.start as usize, range.end as usize) {
                    proof {
                        lemma_first_found_stays(fences, find, i + 1);
                    }
                    return Some(EmbeddedJulia { text, range, offset: offset - range.start });
                }
            }
            i = i + 1;
        }
        proof {
            assert(fences.take(i as int) =~= fences);
        }
        None
    }
}

/// The `@ref` target at a place in the source of docstrings.
pub open spec fn ref_under(docs: Seq<DocText>, offset: u32) -> Option<RefView> {
    let at = first_index(docs, doc_spans(offset));
    if at < docs.len() {
        explicit_ref_at(docs[at], decoded_of(docs[at].map, offset)->0)
    } else {
        None
    }
}

/// The anchor or the footnote that is referred to at a place in the source of
/// docstrings: what a `@ref` link names, or else a link within the document or a
/// footnote.
pub open spec fn reference_under(docs: Seq<DocText>, offset: u32) -> Option<MarkdownView> {
    let at = first_index(docs, doc_spans(offset));
    match ref_under(docs, offset) {
        Some(explicit) => Some(MarkdownView::Anchor(explicit.target)),
        None => if at < docs.len() {
            reference_at(docs[at], decoded_of(docs[at].map, offset)->0)
        } else {
            None
        },
    }
}

/// The Julia code at a place in the source of docstrings, with the docstring that
/// holds it.
pub open spec fn code_at(docs: Seq<DocText>, offset: u32) -> Option<(int, EmbeddedView)> {
    let at = first_index(docs, doc_spans(offset));
    if at < docs.len() {
        match embedded_at(docs[at], decoded_of(docs[at].map, offset)->0) {
            Some(code) => Some((at, code)),
            None => None,
        }
    } else {
        None
    }
}

/// The `@ref` target at `offset` of the source.
pub fn find_ref(docs: &Vec<DocText>, offset: u32) -> (r: Option<ExplicitRef>)
    requires
        docs_wf(docs@),
    ensures
        r.deep_view() == ref_under(docs@, offset),
{
    let at = documentation_at(docs, offset);
    if at < docs.len() {
        match docs[at].map.decoded_offset(offset) {
            Some(decoded) => docs[at].explicit_ref(decoded),
            None => {
                proof {
                    lemma_first_index(docs@, doc_spans(offset));
                }
                None
            },
        }
    } else {
        None
    }
}

/// The anchor or the footnote that is referred to at `offset` of the source.
pub fn find_reference(docs: &Vec<DocText>, offset: u32) -> (r: Option<MarkdownReference>)
    requires
        docs_wf(docs@),
    ensures
        r.deep_view() == reference_under(docs@, offset),
{
    if let Some(explicit) = find_ref(docs, offset) {
        return Some(MarkdownReference::Anchor(explicit.target));
    }
    let at = documentation_at(docs, offset);
    if at < docs.len() {
        match docs[at].map.decoded_offset(offset) {
            Some(decoded) => docs[at].markdown_reference(decoded),
            None => {
                proof {
                    lemma_first_index(docs@, doc_spans(offset));
                }
                None
            },
        }
    } else {
        None
    }
}

/// The Julia code at `offset` of the source, with the docstring that holds it.
pub fn find_code(docs: &Vec<DocText>, offset: u32) -> (r: Option<(usize, EmbeddedJulia)>)
    requires
        docs_wf(docs@),
    ensures
        match r {
            Some((at, code)) => code_at(docs@, offset) == Some((at as int, code.deep_view())) && at
                < docs.len(),
            None => code_at(docs@, offset) is None,
        },
{
    let at = documentation_at(docs, offset);
    if at < docs.len() {
        match docs[at].map.decoded_offset(offset) {
            Some(decoded) => match docs[at].embedded_julia(decoded) {
                Some(code) => Some((at, code)),
                None => None,
            },
            None => {
                proof {
                    lemma_first_index(docs@, doc_spans(offset));
                }
                None
            },
        }
    } else {
        None
    }
}

/// The Julia code of docstrings that fit does too.
pub proof fn lemma_code_fits(docs: Seq<DocText>, offset: u32)
    requires
        docs_wf(docs),
    ensures
        match code_at(docs, offset) {
            Some((_, code)) => fits(code.text),
            None => true,
        },
{
    let at = first_index(docs, doc_spans(offset));
    lemma_first_index(docs, doc_spans(offset));
    if at < docs.len() {
        let doc = docs[at];
        assert(doc.wf());
        let decoded = decoded_of(doc.map, offset)->0;
        if embedded_at(doc, decoded) is Some {
            let i = lemma_first_found_from(doc.fences@, fence_at(doc.text@, decoded));
            let range = doc.fences@[i];
            lemma_slice_bounded(doc.text@, range.start as int, range.end as int);
        }
    }
}

/// Where an anchor of an id stands in the source.
pub open spec fn anchor_source(map: SourceMap, id: Seq<char>) -> spec_fn(DocAnchor) -> Option<
    TextRange,
> {
    |anchor: DocAnchor|
        if anchor.id@ == id {
            source_of(map, anchor.range)
        } else {
            None
        }
}

/// Where the definition of a footnote stands in the source.
pub open spec fn note_source(map: SourceMap, id: Seq<char>) -> spec_fn(FootnoteDef) -> Option<
    TextRange,
> {
    |note: FootnoteDef|
        if note.id@ == id {
            source_of(map, note.range)
        } else {
            None
        }
}

/// Where the first anchor or footnote that a reference leads to stands in a
/// docstring.
pub open spec fn target_in(reference: MarkdownView) -> spec_fn(DocText) -> Option<TextRange> {
    |doc: DocText|
        match reference {
            MarkdownView::Anchor(id) => first_found(doc.anchors@, anchor_source(doc.map, id)),
            MarkdownView::Footnote(id) => first_found(doc.notes@, note_source(doc.map, id)),
        }
}

/// Where the reference at a place in the source leads: to the first anchor or
/// footnote of its id among all docstrings.
pub open spec fn markdown_target(docs: Seq<DocText>, offset: u32) -> Option<TextRange> {
    match reference_under(docs, offset) {
        Some(reference) => first_found(docs, target_in(reference)),
        None => None,
    }
}

impl DocText {
    /// Where the first anchor or footnote that a reference leads to stands.
    pub fn target_of(&self, reference: &MarkdownReference) -> (r: Option<TextRange>)
        ensures
            r == target_in(reference.deep_view())(*self),
    {
        match reference {
            MarkdownReference::Anchor(id) => {
                let ghost find = anchor_source(self.map, id@);
                let ghost all = self.anchors@;
                let mut i: usize = 0;
                proof {
                    assert(all.take(0) =~= Seq::<DocAnchor>::empty());
                }
                while i < self.anchors.len()
                    invariant
                        i <= all.len(),
                        all == self.anchors@,
                        find == anchor_source(self.map, id@),
                        reference.deep_view() == MarkdownView::Anchor(id@),
                        first_found(all.take(i as int), find) is None,
                    decreases all.len() - i,
                {
                    proof {
                        lemma_first_found_step(all, find, i as int);
                    }
                    let anchor = &self.anchors[i];
                    if same_text(anchor.id.as_str(), id.as_str()) {
                        if let Some(range) = self.map.source_range(anchor.range) {
                            proof {
                                lemma_first_found_stays(all, find, i + 1);
                            }
                            return Some(range);
                        }
                    }
                    i = i + 1;
                }
                proof {
                    assert(all.take(i as int) =~= all);
                }
                None
            },
            MarkdownReference::Footnote(id) => {
                let ghost find = note_source(self.map, id@);
                let ghost all = self.notes@;
                let mut i: usize = 0;
                proof {
                    assert(all.take(0) =~= Seq::<FootnoteDef>::empty());
                }
                while i < self.notes.len()
                    invariant
                        i <= all.len(),
                        all == self.notes@,
                        find == note_source(self.map, id@),
                        reference.deep_view() == MarkdownView::Footnote(id@),
                        first_found(all.take(i as int), find) is None,
                    decreases all.len() - i,
                {
                    proof {
                        lemma_first_found_step(all, find, i as int);
                    }
                    let note = &self.notes[i];
                    if same_text(note.id.as_str(), id.as_str()) {
                        if let Some(range) = self.map.source_range(note.range) {
                            proof {
                                lemma_first_found_stays(all, find, i + 1);
                            }
                            return Some(range);
                        }
                    }
                    i = i + 1;
                }
                proof {
                    assert(all.take(i as int) =~= all);
                }
                None
            },
        }
    }
}

/// Where the reference at `offset` of the source leads.
pub fn markdown_definition(docs: &Vec<DocText>, offset: u32) -> (r: Option<TextRange>)
    requires
        docs_wf(docs@),
    ensures
        r == markdown_target(docs@, offset),
{
    let reference = match find_reference(docs, offset) {
        Some(reference) => reference,
        None => {
            return None;
        },
    };
    let ghost find = target_in(reference.deep_view());
    let ghost all = docs@;
    let mut i: usize = 0;
    proof {
        assert(all.take(0) =~= Seq::<DocText>::empty());
    }
    while i < docs.len()
        invariant
            i <= all.len(),
            all == docs@,
            find == target_in(reference.deep_view()),
            reference_under(docs@, offset) == Some(reference.deep_view()),
            first_found(all.take(i as int), find) is None,
        decreases all.len() - i,
    {
        proof {
            lemma_first_found_step(all, find, i as int);
        }
        if let Some(range) = docs[i].target_of(&reference) {
            proof {
                lemma_first_found_stays(all, find, i + 1);
            }
            return Some(range);
        }
        i = i + 1;
    }
    proof {
        assert(all.take(i as int) =~= all);
    }
    None
}

/// Labels with one more, unless it is among them.
pub open spec fn with_label(labels: Seq<Seq<char>>, label: Seq<char>) -> Seq<Seq<char>> {
    if labels.contains(label) {
        labels
    } else {
        labels.push(label)
    }
}

/// Labels with those of anchors.
pub open spec fn with_labels(labels: Seq<Seq<char>>, anchors: Seq<DocAnchor>) -> Seq<Seq<char>>
    decreases anchors.len(),
{
    if anchors.len() == 0 {
        labels
    } else {
        with_label(with_labels(labels, anchors.drop_last()), anchors.last().label@)
    }
}

/// The labels of all anchors, each once, in the order of the document.
pub open spec fn labels_in(docs: Seq<DocText>) -> Seq<Seq<char>>
    decreases docs.len(),
{
    if docs.len() == 0 {
        Seq::empty()
    } else {
        with_labels(labels_in(docs.drop_last()), docs.last().anchors@)
    }
}

proof fn lemma_with_labels(labels: Seq<Seq<char>>, anchors: Seq<DocAnchor>)
    requires
        labels.no_duplicates(),
    ensures
        with_labels(labels, anchors).no_duplicates(),
        forall|label: Seq<char>|
            labels.contains(label) ==> #[trigger] with_labels(labels, anchors).contains(label),
        forall|i: int|
            0 <= i < anchors.len() ==> with_labels(labels, anchors).contains(
                (#[trigger] anchors[i]).label@,
            ),
    decreases anchors.len(),
{
    if anchors.len() > 0 {
        let front = anchors.drop_last();
        lemma_with_labels(labels, front);
        let before = with_labels(labels, front);
        let last = anchors.last().label@;
        let after = with_labels(labels, anchors);
        assert forall|label: Seq<char>| before.contains(label) implies #[trigger] after.contains(
            label,
        ) by {
            let k = choose|k: int| 0 <= k < before.len() && before[k] == label;
            assert(after[k] == label);
        }
        if !before.contains(last) {
            assert(after[before.len() as int] == last);
            assert forall|i: int, j: int|
                0 <= i < after.len() && 0 <= j < after.len() && i != j implies after[i]
                != after[j] by {
                if i == before.len() {
                    assert(before[j] == after[j]);
                } else if j == before.len() {
                    assert(before[i] == after[i]);
                }
            }
        }
        assert forall|i: int| 0 <= i < anchors.len() implies after.contains(
            (#[trigger] anchors[i]).label@,
        ) by {
            if i < front.len() {
                assert(front[i] == anchors[i]);
                assert(before.contains(front[i].label@));
            }
        }
    }
}

/// No label is offered twice, and the label of every anchor is offered.
pub proof fn law_labels_are_offered_once(docs: Seq<DocText>)
    ensures
        labels_in(docs).no_duplicates(),
        forall|d: int, i: int|
            0 <= d < docs.len() && 0 <= i < docs[d].anchors.len() ==> labels_in(docs).contains(
                (#[trigger] docs[d].anchors@[i]).label@,
            ),
    decreases docs.len(),
{
    if docs.len() > 0 {
        let front = docs.drop_last();
        law_labels_are_offered_once(front);
        lemma_with_labels(labels_in(front), docs.last().anchors@);
        assert forall|d: int, i: int|
            0 <= d < docs.len() && 0 <= i < docs[d].anchors.len() implies labels_in(docs).contains(
            (#[trigger] docs[d].anchors@[i]).label@,
        ) by {
            if d < front.len() {
                assert(front[d] == docs[d]);
                assert(labels_in(front).contains(front[d].anchors@[i].label@));
            }
        }
    }
}

/// The labels of all anchors, each once, in the order of the document.
pub fn anchor_labels(docs: &Vec<DocText>) -> (r: Vec<String>)
    ensures
        r.deep_view() == labels_in(docs@),
{
    let mut out: Vec<String> = Vec::new();
    let mut d: usize = 0;
    proof {
        assert(docs@.take(0) =~= Seq::<DocText>::empty());
        assert(out.deep_view() =~= Seq::<Seq<char>>::empty());
    }
    while d < docs.len()
        invariant
            d <= docs.len(),
            out.deep_view() == labels_in(docs@.take(d as int)),
        decreases docs.len() - d,
    {
        let ghost start = out.deep_view();
        let anchors = &docs[d].anchors;
        let mut i: usize = 0;
        proof {
            assert(anchors@.take(0) =~= Seq::<DocAnchor>::empty());
        }
        while i < anchors.len()
            invariant
                i <= anchors.len(),
                out.deep_view() == with_labels(start, anchors@.take(i as int)),
            decreases anchors.len() - i,
        {
            let ghost before = out.deep_view();
            if !holds_text(&out, anchors[i].label.as_str()) {
                out.push(anchors[i].label.clone());
                proof {
                    assert(out.deep_view() =~= before.push(anchors@[i as int].label@));
                }
            }
            i = i + 1;
            proof {
                assert(anchors@.take(i as int).drop_last() =~= anchors@.take(i - 1));
            }
        }
        d = d + 1;
        proof {
            assert(anchors@.take(i as int) =~= anchors@);
            assert(docs@.take(d as int).drop_last() =~= docs@.take(d - 1));
        }
    }
    proof {
        assert(docs@.take(d as int) =~= docs@);
    }
    out
}

/// A range of the code of a fence, as a range of the source: `None` where it
/// leaves the docstring.
pub open spec fn fence_source(map: SourceMap, fence: TextRange, range: TextRange) -> Option<
    TextRange,
> {
    if fence.start + range.start <= u32::MAX && fence.start + range.end <= u32::MAX {
        source_of(
            map,
            TextRange {
                start: (fence.start + range.start) as u32,
                end: (fence.start + range.end) as u32,
            },
        )
    } else {
        None
    }
}

impl EmbeddedJulia {
    /// A range of the code as a range of the source.
    pub fn source_range(&self, map: &SourceMap, range: TextRange) -> (r: Option<TextRange>)
        ensures
            r == fence_source(*map, self.range, range),
    {
        let base = self.range.start as u64;
        let start = base + range.start as u64;
        let end = base + range.end as u64;
        if start <= 0xffff_ffff && end <= 0xffff_ffff {
            map.source_range(TextRange { start: start as u32, end: end as u32 })
        } else {
            None
        }
    }

    /// A range of the code in lines and columns as a range of the source.
    /// `line_index` is that of the code.
    pub fn source_range_from_lsp(
        &self,
        map: &SourceMap,
        range: Range,
        line_index: &LineIndex,
        encoding: PositionEncoding,
    ) -> (r: Option<TextRange>)
        requires
            line_index.wf(),
        ensures
            r == fence_source(
                *map,
                self.range,
                TextRange {
                    start: offset_at(line_index@, range.start, encoding) as u32,
                    end: offset_at(line_index@, range.end, encoding) as u32,
                },
            ),
    {
        proof {
            line_index.lemma_fits();
            crate::text::lemma_offset_bounded(line_index@, range.start, encoding);
            crate::text::lemma_offset_bounded(line_index@, range.end, encoding);
        }
        let start = line_index.position_to_byte(range.start, encoding);
        let end = line_index.position_to_byte(range.end, encoding);
        self.source_range(map, TextRange { start: start as u32, end: end as u32 })
    }
}

/// A range of the source in lines and columns.
pub fn lsp_range(range: TextRange, line_index: &LineIndex, encoding: PositionEncoding) -> (r: Range)
    requires
        line_index.wf(),
    ensures
        r == range_at(line_index@, range.start as int, range.end as int, encoding),
{
    line_index.range(range.start as usize, range.end as usize, encoding)
}

/// A reference in Markdown is that of the first link to an anchor that the cursor
/// touches, named by what stands behind its `#`; without one it is that of the first
/// footnote that the cursor touches.
pub proof fn law_references_are_what_is_touched(doc: DocText, offset: u32, k: int)
    ensures
        ({
            let links = doc.links@;
            let notes = doc.footnotes@;
            let touched = |range: TextRange| range.start <= offset && offset <= range.end;
            let anchors = |i: int|
                touched(links[i].range) && links[i].destination@.len() > 0
                    && links[i].destination@[0] == '#';
            let noted = |i: int| touched(notes[i].range);
            let none = forall|i: int| 0 <= i < links.len() ==> !#[trigger] anchors(i);
            &&& 0 <= k < links.len() && anchors(k) && (forall|i: int|
                0 <= i < k ==> !#[trigger] anchors(i)) ==> reference_at(doc, offset) == Some(
                MarkdownView::Anchor(links[k].destination@.skip(1)),
            )
            &&& none && 0 <= k < notes.len() && noted(k) && (forall|i: int|
                0 <= i < k ==> !#[trigger] noted(i)) ==> reference_at(doc, offset) == Some(
                MarkdownView::Footnote(notes[k].id@),
            )
            &&& none && (forall|i: int| 0 <= i < notes.len() ==> !#[trigger] noted(i))
                ==> reference_at(doc, offset) is None
        }),
{
    let links = doc.links@;
    let notes = doc.footnotes@;
    let touched = |range: TextRange| range.start <= offset && offset <= range.end;
    let anchors = |i: int|
        touched(links[i].range) && links[i].destination@.len() > 0 && links[i].destination@[0]
            == '#';
    let noted = |i: int| touched(notes[i].range);
    let f = anchor_at(offset);
    let g = footnote_at(offset);
    assert forall|i: int| 0 <= i < links.len() implies (f(#[trigger] links[i]) is Some) == anchors(
        i,
    ) by {}
    assert forall|i: int| 0 <= i < notes.len() implies (g(#[trigger] notes[i]) is Some) == noted(
        i,
    ) by {}
    law_first_found_is_first(links, f, k);
    law_first_found_is_first(notes, g, k);
    if forall|i: int| 0 <= i < links.len() ==> !#[trigger] anchors(i) {
        assert forall|i: int| 0 <= i < links.len() implies f(#[trigger] links[i]) is None by {
            assert(!anchors(i));
        }
    }
    if forall|i: int| 0 <= i < notes.len() ==> !#[trigger] noted(i) {
        assert forall|i: int| 0 <= i < notes.len() implies g(#[trigger] notes[i]) is None by {
            assert(!noted(i));
        }
    }
    if 0 <= k < links.len() && anchors(k) && (forall|i: int|
        0 <= i < k ==> !#[trigger] anchors(i)) {
        assert forall|i: int| 0 <= i < k implies f(#[trigger] links[i]) is None by {
            assert(!anchors(i));
        }
        assert(f(links[k]) is Some);
    }
    if 0 <= k < notes.len() && noted(k) && (forall|i: int| 0 <= i < k ==> !#[trigger] noted(i)) {
        assert forall|i: int| 0 <= i < k implies g(#[trigger] notes[i]) is None by {
            assert(!noted(i));
        }
        assert(g(notes[k]) is Some);
    }
}

/// A reference leads to an anchor, or a footnote, of its id that stands in the source of
/// a docstring; it leads nowhere only where no docstring has one.
pub proof fn law_references_lead_to_their_target(
    docs: Seq<DocText>,
    reference: MarkdownView,
    d: int,
    i: int,
)
    requires
        0 <= d < docs.len(),
        match reference {
            MarkdownView::Anchor(id) => 0 <= i < docs[d].anchors.len() && docs[d].anchors@[i].id@
                == id && source_of(docs[d].map, docs[d].anchors@[i].range) is Some,
            MarkdownView::Footnote(id) => 0 <= i < docs[d].notes.len() && docs[d].notes@[i].id@ == id
                && source_of(docs[d].map, docs[d].notes@[i].range) is Some,
        },
    ensures
        first_found(docs, target_in(reference)) is Some,
        exists|e: int, j: int|
            #![trigger docs[e].anchors@[j]]
            #![trigger docs[e].notes@[j]]
            0 <= e < docs.len() && match reference {
                MarkdownView::Anchor(id) => 0 <= j < docs[e].anchors.len()
                    && docs[e].anchors@[j].id@ == id && first_found(docs, target_in(reference))
                    == source_of(docs[e].map, docs[e].anchors@[j].range),
                MarkdownView::Footnote(id) => 0 <= j < docs[e].notes.len()
                    && docs[e].notes@[j].id@ == id && first_found(docs, target_in(reference))
                    == source_of(docs[e].map, docs[e].notes@[j].range),
            },
{
    let f = target_in(reference);
    match reference {
        MarkdownView::Anchor(id) => {
            let g = anchor_source(docs[d].map, id);
            lemma_something_found(docs[d].anchors@, g, i);
            lemma_something_found(docs, f, d);
            let e = lemma_first_found_from(docs, f);
            let h = anchor_source(docs[e].map, id);
            let j = lemma_first_found_from(docs[e].anchors@, h);
            assert(docs[e].anchors@[j].id@ == id);
        },
        MarkdownView::Footnote(id) => {
            let g = note_source(docs[d].map, id);
            lemma_something_found(docs[d].notes@, g, i);
            lemma_something_found(docs, f, d);
            let e = lemma_first_found_from(docs, f);
            let h = note_source(docs[e].map, id);
            let j = lemma_first_found_from(docs[e].notes@, h);
            assert(docs[e].notes@[j].id@ == id);
        },
    }
}

proof fn lemma_something_found<T, U>(s: Seq<T>, f: spec_fn(T) -> Option<U>, i: int)
    requires
        0 <= i < s.len(),
        f(s[i]) is Some,
    ensures
        first_found(s, f) is Some,
    decreases s.len(),
{
    if i < s.len() - 1 {
        lemma_something_found(s.drop_last(), f, i);
    }
}

/// The code at a place of a docstring is that of the first fence that the place touches,
/// whole, with the place counted from its start.
pub proof fn law_code_is_what_the_fence_holds(doc: DocText, offset: u32, k: int)
    requires
        0 <= k < doc.fences.len(),
        doc.fences@[k].start <= offset && offset <= doc.fences@[k].end,
        slice_at(doc.text@, doc.fences@[k].start as int, doc.fences@[k].end as int) is Some,
        forall|i: int|
            0 <= i < k ==> offset < (#[trigger] doc.fences@[i]).start || doc.fences@[i].end
                < offset,
    ensures
        embedded_at(doc, offset) == Some(
            EmbeddedView {
                text: slice_at(
                    doc.text@,
                    doc.fences@[k].start as int,
                    doc.fences@[k].end as int,
                )->0,
                range: doc.fences@[k],
                offset: (offset - doc.fences@[k].start) as u32,
            },
        ),
{
    let f = fence_at(doc.text@, offset);
    assert forall|i: int| 0 <= i < k implies f(#[trigger] doc.fences@[i]) is None by {}
    law_first_found_is_first(doc.fences@, f, k);
}

/// The target of a finished `@ref` link is the first that the cursor touches, with the
/// place of the cursor in it.
pub proof fn law_finished_references_are_found(doc: DocText, offset: u32, k: int)
    requires
        0 <= k < doc.refs.len(),
        doc.refs@[k].range.start <= offset && offset <= doc.refs@[k].range.end,
        forall|i: int|
            0 <= i < k ==> offset < (#[trigger] doc.refs@[i]).range.start || doc.refs@[i].range.end
                < offset,
    ensures
        explicit_ref_at(doc, offset) == Some(
            RefView {
                target: doc.refs@[k].target@,
                range: doc.refs@[k].range,
                offset: (offset - doc.refs@[k].range.start) as u32,
            },
        ),
{
    assert forall|i: int| 0 <= i < k implies !ref_spans(offset)(#[trigger] doc.refs@[i]) by {}
    lemma_first_index_is(doc.refs@, ref_spans(offset), k);
}

/// Behind `(@ref` and a blank, what is being written up to the cursor is the target of a
/// reference: here it holds no bracket, blank, line break or sigil.
pub proof fn law_unfinished_references_are_found(
    before: Seq<char>,
    blank: char,
    target: Seq<char>,
    after: Seq<char>,
)
    requires
        char_is_whitespace(blank) && blank != '\n' && blank != '\r' && blank != '(' && blank != ')',
        forall|i: int|
            0 <= i < target.len() ==> {
                let c = #[trigger] target[i];
                c != '(' && c != ')' && c != '\n' && c != '\r' && !char_is_whitespace(c)
            },
        fits(before + "(@ref"@ + seq![blank] + target + after),
    ensures
        ({
            let head = before + "(@ref"@ + seq![blank];
            let s = head + target + after;
            partial_ref(s, byte_len(head + target) as u32) == Some(
                RefView {
                    target,
                    range: TextRange {
                        start: byte_len(head) as u32,
                        end: byte_len(head + target) as u32,
                    },
                    offset: (byte_len(head + target) - byte_len(head)) as u32,
                },
            )
        }),
{
    let marker = "(@ref"@;
    reveal_strlit("(@ref");
    let head = before + marker + seq![blank];
    let s = head + target + after;
    let end = (head + target).len() as int;
    let at = before.len() as int;
    let behind = at + marker.len();
    assert(s.take(end) =~= head + target);
    assert(s.take(head.len() as int) =~= head);
    assert(s.take(s.len() as int) =~= s);
    lemma_byte_len_monotone(s, end, s.len() as int);
    lemma_byte_len_monotone(s, head.len() as int, end);
    lemma_char_index_of_boundary(s, end);
    assert forall|j: int| 0 <= j < 5 implies s[at + j] == marker[j] by {}
    assert(s[behind] == blank);
    assert forall|j: int| head.len() <= j < end implies s[j] == target[j - head.len()] by {}
    let from = open_line(s, end);
    lemma_line_is_open(s, at, end);
    assert(from <= at);
    assert(s.subrange(at, behind) =~= marker);
    lemma_marker_is_last(s, marker, from, at, end);
    assert(past_blanks(s, behind, end) == head.len()) by {
        if head.len() < end {
            assert(s[head.len() as int] == target[0]);
        }
        assert(past_blanks(s, behind + 1, end) == behind + 1);
    }
    lemma_no_brackets(s.subrange(behind, end));
    assert(s.subrange(head.len() as int, end) =~= target);
}

proof fn lemma_line_is_open(s: Seq<char>, at: int, i: int)
    requires
        0 <= at <= i <= s.len(),
        forall|j: int| at <= j < i ==> (#[trigger] s[j]) != '\n' && s[j] != '\r',
    ensures
        0 <= open_line(s, i) <= at,
    decreases i - at,
{
    if i > at {
        lemma_line_is_open(s, at, i - 1);
    } else {
        lemma_open_line_before(s, at);
    }
}

proof fn lemma_open_line_before(s: Seq<char>, i: int)
    requires
        0 <= i <= s.len(),
    ensures
        0 <= open_line(s, i) <= i,
    decreases i,
{
    if i > 0 {
        lemma_open_line_before(s, i - 1);
    }
}

proof fn lemma_marker_is_last(s: Seq<char>, marker: Seq<char>, from: int, at: int, i: int)
    requires
        marker.len() > 0,
        0 <= from <= at,
        at + marker.len() <= i <= s.len(),
        s.subrange(at, at + marker.len()) == marker,
        forall|j: int| at < j < i ==> (#[trigger] s[j]) != marker[0],
    ensures
        last_marker(s, marker, from, i) == Some(at),
    decreases i,
{
    if i > at + marker.len() {
        let place = i - marker.len();
        if s.subrange(place, i) == marker {
            assert(s.subrange(place, i)[0] == s[place]);
            assert(false);
        }
        lemma_marker_is_last(s, marker, from, at, i - 1);
    }
}

proof fn lemma_no_brackets(s: Seq<char>)
    requires
        forall|j: int| 0 <= j < s.len() ==> (#[trigger] s[j]) != '(' && s[j] != ')',
    ensures
        open_brackets(s) == Some(0nat),
    decreases s.len(),
{
    if s.len() > 0 {
        assert(s.last() == s[s.len() - 1]);
        lemma_no_brackets(s.drop_last());
    }
}

/// A reference ends with its line: where no bracket is opened between the last line break
/// and the cursor, none is being written there.
pub proof fn law_references_end_with_their_line(
    before: Seq<char>,
    end: char,
    line: Seq<char>,
    after: Seq<char>,
)
    requires
        end == '\n' || end == '\r',
        forall|i: int| 0 <= i < line.len() ==> (#[trigger] line[i]) != '(',
        fits(before + seq![end] + line + after),
    ensures
        partial_ref(
            before + seq![end] + line + after,
            byte_len(before + seq![end] + line) as u32,
        ) is None,
{
    let marker = "(@ref"@;
    reveal_strlit("(@ref");
    let head = before + seq![end];
    let s = head + line + after;
    let stop = (head + line).len() as int;
    assert(s.take(stop) =~= head + line);
    assert(s.take(s.len() as int) =~= s);
    lemma_byte_len_monotone(s, stop, s.len() as int);
    lemma_char_index_of_boundary(s, stop);
    assert(s[before.len() as int] == end);
    lemma_line_opens_behind(s, head.len() as int, stop);
    assert forall|j: int| head.len() <= j < stop implies (#[trigger] s[j]) != '(' by {
        assert(s[j] == line[j - head.len()]);
    }
    lemma_no_marker(s, marker, open_line(s, stop), stop);
}

proof fn lemma_line_opens_behind(s: Seq<char>, at: int, i: int)
    requires
        0 < at <= i <= s.len(),
        s[at - 1] == '\n' || s[at - 1] == '\r',
    ensures
        at <= open_line(s, i) <= i,
    decreases i - at,
{
    if i > at && s[i - 1] != '\n' && s[i - 1] != '\r' {
        lemma_line_opens_behind(s, at, i - 1);
    }
}

proof fn lemma_no_marker(s: Seq<char>, marker: Seq<char>, from: int, i: int)
    requires
        marker.len() > 0,
        0 <= from <= i <= s.len(),
        forall|j: int| from <= j < i ==> (#[trigger] s[j]) != marker[0],
    ensures
        last_marker(s, marker, from, i) is None,
    decreases i,
{
    if i - marker.len() >= from {
        let place = i - marker.len();
        if s.subrange(place, i) == marker {
            assert(s.subrange(place, i)[0] == s[place]);
            assert(false);
        }
        lemma_no_marker(s, marker, from, i - 1);
    }
}

/// A reference whose bracket has been closed is not being written any more.
pub proof fn law_closed_references_are_finished(
    before: Seq<char>,
    target: Seq<char>,
    rest: Seq<char>,
    after: Seq<char>,
)
    requires
        forall|i: int| 0 <= i < target.len() ==> (#[trigger] target[i]) != '(' && target[i] != ')',
        forall|i: int| 0 <= i < rest.len() ==> (#[trigger] rest[i]) != '(',
        forall|i: int|
            0 <= i < target.len() ==> (#[trigger] target[i]) != '\n' && target[i] != '\r',
        forall|i: int| 0 <= i < rest.len() ==> (#[trigger] rest[i]) != '\n' && rest[i] != '\r',
        fits(before + "(@ref"@ + target + ")"@ + rest + after),
    ensures
        partial_ref(
            before + "(@ref"@ + target + ")"@ + rest + after,
            byte_len(before + "(@ref"@ + target + ")"@ + rest) as u32,
        ) is None,
{
    let marker = "(@ref"@;
    reveal_strlit("(@ref");
    reveal_strlit(")");
    let written = before + marker + target + ")"@ + rest;
    let s = written + after;
    let stop = written.len() as int;
    let at = before.len() as int;
    let behind = at + marker.len();
    assert(s.take(stop) =~= written);
    assert(s.take(s.len() as int) =~= s);
    lemma_byte_len_monotone(s, stop, s.len() as int);
    lemma_char_index_of_boundary(s, stop);
    let close = behind + target.len();
    assert forall|j: int| 0 <= j < 5 implies s[at + j] == marker[j] by {}
    assert forall|j: int| behind <= j < close implies s[j] == target[j - behind] by {}
    assert(s[close] == ')');
    assert forall|j: int| close < j < stop implies s[j] == rest[j - close - 1] by {}
    lemma_line_is_open(s, at, stop);
    assert(s.subrange(at, behind) =~= marker);
    lemma_marker_is_last(s, marker, open_line(s, stop), at, stop);
    let part = s.subrange(behind, stop);
    lemma_closed(part, target.len() as int);
}

proof fn lemma_closed(s: Seq<char>, close: int)
    requires
        0 <= close < s.len(),
        s[close] == ')',
        forall|j: int| 0 <= j < close ==> (#[trigger] s[j]) != '(' && s[j] != ')',
    ensures
        open_brackets(s) is None,
    decreases s.len(),
{
    let front = s.drop_last();
    if close == s.len() - 1 {
        assert forall|j: int| 0 <= j < front.len() implies (#[trigger] front[j]) != '(' && front[j]
            != ')' by {
            assert(front[j] == s[j]);
        }
        lemma_no_brackets(front);
        assert(s.last() == ')');
    } else {
        assert(front[close] == ')');
        assert forall|j: int| 0 <= j < close implies (#[trigger] front[j]) != '(' && front[j]
            != ')' by {
            assert(front[j] == s[j]);
        }
        lemma_closed(front, close);
    }
}

} // verus!
