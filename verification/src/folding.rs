//! Folding ranges: blocks and their branches, runs of comments, groups of
//! imports, and the sections and containers of docstrings.
//!
//! Folds are of whole lines, through the closing line of what is folded.

use vstd::prelude::*;

use crate::text::{
    blank_before, fits, offset_at, position_at, slice_at, LineIndex, Position, PositionEncoding,
    TextRange,
};
use crate::text::lemma_offset_bounded;
use crate::tree::{Element, SyntaxKind, SyntaxTree};

verus! {

/// What a fold is of, where it is not code.
#[derive(Clone, Copy, Debug, PartialEq, Eq, Structural)]
pub enum FoldingRangeKind {
    Comment,
    Imports,
    Region,
}

/// A range of lines that can be folded.
#[derive(Clone, Copy, Debug, PartialEq, Eq, Structural)]
pub struct FoldingRange {
    pub start_line: u32,
    pub end_line: u32,
    pub kind: Option<FoldingRangeKind>,
}

/// The line that holds a byte.
pub open spec fn line_at(s: Seq<char>, offset: int) -> u32 {
    position_at(s, offset, PositionEncoding::Utf8).line
}

/// The line that holds the last byte before an offset: an offset at the start of
/// a line belongs to the line above.
pub open spec fn last_line(s: Seq<char>, end: int) -> u32 {
    let position = position_at(s, end, PositionEncoding::Utf8);
    if position.character == 0 && position.line > 0 {
        (position.line - 1) as u32
    } else {
        position.line
    }
}

/// The folds of a range: one, where it spans more than one line.
pub open spec fn folds_over(
    s: Seq<char>,
    range: TextRange,
    kind: Option<FoldingRangeKind>,
) -> Seq<FoldingRange> {
    let start_line = line_at(s, range.start as int);
    let end_line = last_line(s, range.end as int);
    if end_line > start_line {
        seq![FoldingRange { start_line, end_line, kind }]
    } else {
        Seq::empty()
    }
}

/// A document whose lines are known.
pub struct Ctx {
    pub line_index: LineIndex,
}

impl Ctx {
    /// The lines are those of the text.
    pub open spec fn wf(&self) -> bool {
        self.line_index.wf()
    }

    /// The document `text`.
    pub fn new(text: &str) -> (r: Ctx)
        requires
            fits(text@),
        ensures
            r.wf(),
            r.line_index@ == text@,
    {
        Ctx { line_index: LineIndex::new(text) }
    }

    /// The line that holds the byte at `offset`.
    pub fn line_of(&self, offset: usize) -> (r: u32)
        requires
            self.wf(),
        ensures
            r == line_at(self.line_index@, offset as int),
    {
        self.line_index.byte_to_position(offset, PositionEncoding::Utf8).line
    }

    /// The line that holds the last byte of `range`.
    pub fn end_line(&self, range: TextRange) -> (r: u32)
        requires
            self.wf(),
        ensures
            r == last_line(self.line_index@, range.end as int),
    {
        let position = self.line_index.byte_to_position(
            range.end as usize,
            PositionEncoding::Utf8,
        );
        if position.character == 0 && position.line > 0 {
            position.line - 1
        } else {
            position.line
        }
    }

    /// Adds a fold over `range`, where it spans more than one line.
    pub fn push_fold(
        &self,
        out: &mut Vec<FoldingRange>,
        range: TextRange,
        kind: Option<FoldingRangeKind>,
    )
        requires
            self.wf(),
        ensures
            final(out)@ == old(out)@ + folds_over(self.line_index@, range, kind),
    {
        let ghost before = out@;
        let start_line = self.line_of(range.start as usize);
        let end_line = self.end_line(range);
        if end_line > start_line {
            out.push(FoldingRange { start_line, end_line, kind });
            proof {
                assert(out@ =~= before + folds_over(self.line_index@, range, kind));
            }
        } else {
            proof {
                assert(out@ =~= before + folds_over(self.line_index@, range, kind));
            }
        }
    }

    /// Whether only whitespace stands before the token at `offset` on its line.
    pub fn leads_its_line(&self, offset: usize) -> (r: bool)
        requires
            self.wf(),
        ensures
            r == blank_before(self.line_index@, offset as int),
    {
        self.line_index.blank_before(offset)
    }
}

/// Whether a node folds by itself, and as what.
pub open spec fn fold_kind(kind: SyntaxKind) -> Option<Option<FoldingRangeKind>> {
    match kind {
        SyntaxKind::MODULE_DEF
        | SyntaxKind::FUNCTION_DEF
        | SyntaxKind::MACRO_DEF
        | SyntaxKind::STRUCT_DEF
        | SyntaxKind::ABSTRACT_DEF
        | SyntaxKind::PRIMITIVE_DEF
        | SyntaxKind::IF_EXPR
        | SyntaxKind::ELSEIF_CLAUSE
        | SyntaxKind::ELSE_CLAUSE
        | SyntaxKind::WHILE_EXPR
        | SyntaxKind::FOR_EXPR
        | SyntaxKind::LET_EXPR
        | SyntaxKind::BEGIN_EXPR
        | SyntaxKind::QUOTE_EXPR
        | SyntaxKind::TYPEGROUP_DEF
        | SyntaxKind::TRY_EXPR
        | SyntaxKind::CATCH_CLAUSE
        | SyntaxKind::FINALLY_CLAUSE
        | SyntaxKind::DO_EXPR => Some(None),
        SyntaxKind::USING_STMT | SyntaxKind::IMPORT_STMT => Some(Some(FoldingRangeKind::Imports)),
        _ => None,
    }
}

fn fold_kind_of(kind: SyntaxKind) -> (r: Option<Option<FoldingRangeKind>>)
    ensures
        r == fold_kind(kind),
{
    match kind {
        SyntaxKind::MODULE_DEF
        | SyntaxKind::FUNCTION_DEF
        | SyntaxKind::MACRO_DEF
        | SyntaxKind::STRUCT_DEF
        | SyntaxKind::ABSTRACT_DEF
        | SyntaxKind::PRIMITIVE_DEF
        | SyntaxKind::IF_EXPR
        | SyntaxKind::ELSEIF_CLAUSE
        | SyntaxKind::ELSE_CLAUSE
        | SyntaxKind::WHILE_EXPR
        | SyntaxKind::FOR_EXPR
        | SyntaxKind::LET_EXPR
        | SyntaxKind::BEGIN_EXPR
        | SyntaxKind::QUOTE_EXPR
        | SyntaxKind::TYPEGROUP_DEF
        | SyntaxKind::TRY_EXPR
        | SyntaxKind::CATCH_CLAUSE
        | SyntaxKind::FINALLY_CLAUSE
        | SyntaxKind::DO_EXPR => Some(None),
        SyntaxKind::USING_STMT | SyntaxKind::IMPORT_STMT => Some(Some(FoldingRangeKind::Imports)),
        _ => None,
    }
}

/// A run of statements or comments: its lines and how many it holds.
#[derive(Clone, Copy, Debug, PartialEq, Eq, Structural)]
pub struct Run {
    pub start_line: u32,
    pub end_line: u32,
    pub several: bool,
}

/// The folds of a run that has ended: one, where it holds several and spans more
/// than one line.
pub open spec fn run_folds(run: Option<Run>, kind: FoldingRangeKind) -> Seq<FoldingRange> {
    match run {
        Some(run) => if run.several && run.end_line > run.start_line {
            seq![
                FoldingRange {
                    start_line: run.start_line,
                    end_line: run.end_line,
                    kind: Some(kind),
                },
            ]
        } else {
            Seq::empty()
        },
        None => Seq::empty(),
    }
}

fn flush_run(run: Option<Run>, kind: FoldingRangeKind, out: &mut Vec<FoldingRange>)
    ensures
        final(out)@ == old(out)@ + run_folds(run, kind),
{
    let ghost before = out@;
    if let Some(run) = run {
        if run.several && run.end_line > run.start_line {
            out.push(
                FoldingRange {
                    start_line: run.start_line,
                    end_line: run.end_line,
                    kind: Some(kind),
                },
            );
        }
    }
    proof {
        assert(out@ =~= before + run_folds(run, kind));
    }
}

/// A walk over elements: the folds so far, and the run in progress.
pub struct Walk {
    pub folds: Seq<FoldingRange>,
    pub run: Option<Run>,
}

/// Whether an element is an import statement.
pub open spec fn is_import(e: Element) -> bool {
    e.kind == SyntaxKind::USING_STMT || e.kind == SyntaxKind::IMPORT_STMT
}

/// One child of a node in the search for groups of imports: an import joins the
/// run where it starts on the line below its end, and starts a new one otherwise;
/// anything else ends the run.
pub open spec fn import_step(s: Seq<char>, walk: Walk, e: Element) -> Walk {
    let start = line_at(s, e.range.start as int);
    let end = last_line(s, e.range.end as int);
    if !is_import(e) {
        Walk {
            folds: walk.folds + run_folds(walk.run, FoldingRangeKind::Imports),
            run: None,
        }
    } else if walk.run is Some && start == walk.run->0.end_line + 1 {
        Walk {
            folds: walk.folds,
            run: Some(Run { start_line: walk.run->0.start_line, end_line: end, several: true }),
        }
    } else {
        Walk {
            folds: walk.folds + run_folds(walk.run, FoldingRangeKind::Imports),
            run: Some(Run { start_line: start, end_line: end, several: false }),
        }
    }
}

/// The search for groups of imports among the children of `node`, up to element
/// `upto`.
pub open spec fn import_walk(s: Seq<char>, t: Seq<Element>, node: int, upto: int) -> Walk
    decreases upto,
{
    if upto <= node + 1 || upto <= 0 {
        Walk { folds: Seq::empty(), run: None }
    } else {
        let before = import_walk(s, t, node, upto - 1);
        let e = t[upto - 1];
        if e.parent == node && !e.is_token {
            import_step(s, before, e)
        } else {
            before
        }
    }
}

/// The folds of the groups of imports among the children of a node.
pub open spec fn import_folds(s: Seq<char>, t: Seq<Element>, node: int) -> Seq<FoldingRange> {
    let walk = import_walk(s, t, node, t[node].end as int);
    walk.folds + run_folds(walk.run, FoldingRangeKind::Imports)
}

/// One token in the search for comments: a block comment folds by itself and ends
/// the run; a comment that leads its line joins the run where it stands on the
/// line below it, and starts a new one otherwise.
pub open spec fn comment_step(s: Seq<char>, walk: Walk, e: Element) -> Walk {
    let line = line_at(s, e.range.start as int);
    if e.kind == SyntaxKind::BLOCK_COMMENT {
        Walk {
            folds: walk.folds + run_folds(walk.run, FoldingRangeKind::Comment) + folds_over(
                s,
                e.range,
                Some(FoldingRangeKind::Comment),
            ),
            run: None,
        }
    } else if e.kind == SyntaxKind::COMMENT && blank_before(s, e.range.start as int) {
        if walk.run is Some && line == walk.run->0.end_line + 1 {
            Walk {
                folds: walk.folds,
                run: Some(
                    Run { start_line: walk.run->0.start_line, end_line: line, several: true },
                ),
            }
        } else {
            Walk {
                folds: walk.folds + run_folds(walk.run, FoldingRangeKind::Comment),
                run: Some(Run { start_line: line, end_line: line, several: true }),
            }
        }
    } else {
        walk
    }
}

/// The search for comments among the first `upto` elements.
pub open spec fn comment_walk(s: Seq<char>, t: Seq<Element>, upto: int) -> Walk
    decreases upto,
{
    if upto <= 0 {
        Walk { folds: Seq::empty(), run: None }
    } else {
        let before = comment_walk(s, t, upto - 1);
        if t[upto - 1].is_token {
            comment_step(s, before, t[upto - 1])
        } else {
            before
        }
    }
}

/// The folds of the comments of a document.
pub open spec fn comment_folds(s: Seq<char>, t: Seq<Element>) -> Seq<FoldingRange> {
    let walk = comment_walk(s, t, t.len() as int);
    walk.folds + run_folds(walk.run, FoldingRangeKind::Comment)
}

/// The folds of one node: its own, and those of the groups of imports it holds.
pub open spec fn node_folds(s: Seq<char>, t: Seq<Element>, i: int) -> Seq<FoldingRange> {
    (match fold_kind(t[i].kind) {
        Some(kind) => folds_over(s, t[i].range, kind),
        None => Seq::empty(),
    }) + import_folds(s, t, i)
}

/// The folds of the nodes among the first `upto` elements.
pub open spec fn all_node_folds(s: Seq<char>, t: Seq<Element>, upto: int) -> Seq<FoldingRange>
    decreases upto,
{
    if upto <= 0 {
        Seq::empty()
    } else {
        let before = all_node_folds(s, t, upto - 1);
        if t[upto - 1].is_token {
            before
        } else {
            before + node_folds(s, t, upto - 1)
        }
    }
}

/// The folds of a document of code.
pub open spec fn code_folds(s: Seq<char>, t: Seq<Element>) -> Seq<FoldingRange> {
    all_node_folds(s, t, t.len() as int) + comment_folds(s, t)
}

/// Folds the groups of imports among the children of `node`.
pub fn collect_import_groups(
    tree: &SyntaxTree,
    node: usize,
    ctx: &Ctx,
    out: &mut Vec<FoldingRange>,
)
    requires
        ctx.wf(),
        node < tree.elements.len(),
        node < tree.elements@[node as int].end <= tree.elements.len(),
    ensures
        final(out)@ == old(out)@ + import_folds(ctx.line_index@, tree@, node as int),
{
    let ghost s = ctx.line_index@;
    let ghost t = tree@;
    let ghost start = out@;
    let end = tree.elements[node].end;
    let mut run: Option<Run> = None;
    let mut i: usize = node + 1;
    proof {
        assert(start + import_walk(s, t, node as int, i as int).folds =~= start);
    }
    while i < end
        invariant
            ctx.wf(),
            s == ctx.line_index@,
            t == tree@,
            node < i <= end <= t.len(),
            out@ == start + import_walk(s, t, node as int, i as int).folds,
            run == import_walk(s, t, node as int, i as int).run,
        decreases end - i,
    {
        let e = tree.elements[i];
        let ghost walk = import_walk(s, t, node as int, i as int);
        i = i + 1;
        if e.parent == node && !e.is_token {
            let import = match e.kind {
                SyntaxKind::USING_STMT | SyntaxKind::IMPORT_STMT => true,
                _ => false,
            };
            if import {
                let first = ctx.line_of(e.range.start as usize);
                let last = ctx.end_line(e.range);
                let joins = match run {
                    Some(run) => first > 0 && first - 1 == run.end_line,
                    None => false,
                };
                if joins {
                    if let Some(open) = run {
                        run =
                        Some(Run { start_line: open.start_line, end_line: last, several: true });
                    }
                } else {
                    flush_run(run, FoldingRangeKind::Imports, out);
                    run = Some(Run { start_line: first, end_line: last, several: false });
                    proof {
                        assert(out@ =~= start + (walk.folds + run_folds(
                            walk.run,
                            FoldingRangeKind::Imports,
                        )));
                    }
                }
            } else {
                flush_run(run, FoldingRangeKind::Imports, out);
                run = None;
                proof {
                    assert(out@ =~= start + (walk.folds + run_folds(
                        walk.run,
                        FoldingRangeKind::Imports,
                    )));
                }
            }
        }
    }
    flush_run(run, FoldingRangeKind::Imports, out);
    proof {
        let walk = import_walk(s, t, node as int, end as int);
        assert(out@ =~= start + (walk.folds + run_folds(walk.run, FoldingRangeKind::Imports)));
    }
}

/// Folds block comments of several lines, and runs of comments that each lead
/// their line.
pub fn collect_comment_folds(tree: &SyntaxTree, ctx: &Ctx, out: &mut Vec<FoldingRange>)
    requires
        ctx.wf(),
    ensures
        final(out)@ == old(out)@ + comment_folds(ctx.line_index@, tree@),
{
    let ghost s = ctx.line_index@;
    let ghost t = tree@;
    let ghost start = out@;
    let mut run: Option<Run> = None;
    let mut i: usize = 0;
    proof {
        assert(start + comment_walk(s, t, 0).folds =~= start);
    }
    while i < tree.elements.len()
        invariant
            ctx.wf(),
            s == ctx.line_index@,
            t == tree@,
            i <= t.len(),
            out@ == start + comment_walk(s, t, i as int).folds,
            run == comment_walk(s, t, i as int).run,
        decreases t.len() - i,
    {
        let e = tree.elements[i];
        let ghost walk = comment_walk(s, t, i as int);
        i = i + 1;
        if e.is_token {
            match e.kind {
                SyntaxKind::BLOCK_COMMENT => {
                    flush_run(run, FoldingRangeKind::Comment, out);
                    run = None;
                    ctx.push_fold(out, e.range, Some(FoldingRangeKind::Comment));
                    proof {
                        assert(out@ =~= start + comment_walk(s, t, i as int).folds);
                    }
                },
                SyntaxKind::COMMENT => {
                    if ctx.leads_its_line(e.range.start as usize) {
                        let line = ctx.line_of(e.range.start as usize);
                        let joins = match run {
                            Some(run) => line > 0 && line - 1 == run.end_line,
                            None => false,
                        };
                        if joins {
                            if let Some(open) = run {
                                run =
                                Some(
                                    Run {
                                        start_line: open.start_line,
                                        end_line: line,
                                        several: true,
                                    },
                                );
                            }
                        } else {
                            flush_run(run, FoldingRangeKind::Comment, out);
                            run = Some(Run { start_line: line, end_line: line, several: true });
                            proof {
                                assert(out@ =~= start + (walk.folds + run_folds(
                                    walk.run,
                                    FoldingRangeKind::Comment,
                                )));
                            }
                        }
                    }
                },
                _ => {},
            }
        }
    }
    flush_run(run, FoldingRangeKind::Comment, out);
    proof {
        let walk = comment_walk(s, t, t.len() as int);
        assert(out@ =~= start + (walk.folds + run_folds(walk.run, FoldingRangeKind::Comment)));
    }
}

/// The folds of `text`, whose tree is `tree`, without those of its docstrings.
pub fn julia_folds(tree: &SyntaxTree, text: &str) -> (r: Vec<FoldingRange>)
    requires
        fits(text@),
        tree.wf(),
    ensures
        r@ == code_folds(text@, tree@),
{
    let ctx = Ctx::new(text);
    let ghost s = text@;
    let ghost t = tree@;
    let mut out: Vec<FoldingRange> = Vec::new();
    let mut i: usize = 0;
    while i < tree.elements.len()
        invariant
            tree.wf(),
            ctx.wf(),
            s == ctx.line_index@,
            t == tree@,
            i <= t.len(),
            out@ == all_node_folds(s, t, i as int),
        decreases t.len() - i,
    {
        let e = tree.elements[i];
        let ghost before = out@;
        if !e.is_token {
            proof {
                if i > 0 {
                    assert(crate::tree::well_placed(t, i as int));
                    crate::tree::lemma_ends_bounded(t, i as int);
                }
            }
            if let Some(kind) = fold_kind_of(e.kind) {
                ctx.push_fold(&mut out, e.range, kind);
            }
            collect_import_groups(tree, i, &ctx, &mut out);
            proof {
                assert(out@ =~= before + node_folds(s, t, i as int));
            }
        }
        i = i + 1;
    }
    collect_comment_folds(tree, &ctx, &mut out);
    out
}

/// From the text of a decoded docstring back to the source: where each of its
/// bytes begins and ends there.
#[derive(Debug)]
pub struct SourceMap {
    pub starts: Vec<u32>,
    pub ends: Vec<u32>,
}

/// The source of a range of a decoded docstring, where the range lies within it.
pub open spec fn source_of(map: SourceMap, range: TextRange) -> Option<TextRange> {
    if range.start < range.end && range.end <= map.starts.len() && range.end <= map.ends.len()
        && map.starts@[range.start as int] <= map.ends@[range.end - 1] {
        Some(
            TextRange {
                start: map.starts@[range.start as int],
                end: map.ends@[range.end - 1],
            },
        )
    } else {
        None
    }
}

impl SourceMap {
    /// The source of a range of the decoded docstring.
    pub fn source_range(&self, range: TextRange) -> (r: Option<TextRange>)
        ensures
            r == source_of(*self, range),
    {
        let start = range.start as usize;
        let end = range.end as usize;
        if start < end && end <= self.starts.len() && end <= self.ends.len() && self.starts[start]
            <= self.ends[end - 1] {
            Some(TextRange { start: self.starts[start], end: self.ends[end - 1] })
        } else {
            None
        }
    }
}

/// A heading of a docstring: its level and where it begins.
#[derive(Clone, Copy, Debug, PartialEq, Eq, Structural)]
pub struct DocHeading {
    pub level: u8,
    pub start: u32,
}

/// A fenced block of Julia code: where its content stands, and the content's
/// tree.
#[derive(Debug)]
pub struct JuliaFence {
    pub content: TextRange,
    pub tree: SyntaxTree,
}

/// What a node of a docstring is.
#[derive(Clone, Copy, Debug, PartialEq, Eq, Structural)]
pub enum DocKind {
    BlockQuote,
    Admonition,
    List,
    IndentedCodeBlock,
    FencedCodeBlock,
    MathBlock,
    FootnoteDefinition,
    Table,
    Other,
}

impl DocKind {
    /// Whether such a node folds by itself: a quote, an admonition, a list, a block
    /// of code or of math, a footnote or a table.
    pub open spec fn folds(self) -> bool {
        self != DocKind::Other
    }

    /// Whether such a node folds by itself.
    pub fn is_container(self) -> (r: bool)
        ensures
            r == self.folds(),
    {
        match self {
            DocKind::BlockQuote
            | DocKind::Admonition
            | DocKind::List
            | DocKind::IndentedCodeBlock
            | DocKind::FencedCodeBlock
            | DocKind::MathBlock
            | DocKind::FootnoteDefinition
            | DocKind::Table => true,
            DocKind::Other => false,
        }
    }
}

/// A node of a docstring.
#[derive(Debug)]
pub struct DocNode {
    pub range: TextRange,
    pub kind: DocKind,
    /// The Julia code that it fences.
    pub fence: Option<JuliaFence>,
}

/// A docstring without interpolation, decoded and parsed.
#[derive(Debug)]
pub struct DocSource {
    pub text: String,
    pub map: SourceMap,
    pub headings: Vec<DocHeading>,
    pub nodes: Vec<DocNode>,
}

impl DocSource {
    /// The text fits, and the trees of its fences are trees.
    pub open spec fn wf(&self) -> bool {
        &&& fits(self.text@)
        &&& forall|i: int|
            0 <= i < self.nodes.len() && (#[trigger] self.nodes@[i]).fence is Some
                ==> self.nodes@[i].fence->0.tree.wf()
    }
}

/// Where the section of a heading ends: at the next heading that is not below it,
/// or at the end of the docstring.
pub open spec fn section_end(headings: Seq<DocHeading>, i: int, j: int, end: int) -> int
    decreases headings.len() - j,
{
    if j < 0 || j >= headings.len() {
        end
    } else if headings[j].level <= headings[i].level {
        headings[j].start as int
    } else {
        section_end(headings, i, j + 1, end)
    }
}

/// The folds of a range of a docstring, in the source.
pub open spec fn source_folds(
    s: Seq<char>,
    map: SourceMap,
    range: TextRange,
    kind: Option<FoldingRangeKind>,
) -> Seq<FoldingRange> {
    match source_of(map, range) {
        Some(source) => folds_over(s, source, kind),
        None => Seq::empty(),
    }
}

/// The folds of the sections of the first `n` headings.
pub open spec fn heading_folds(s: Seq<char>, doc: DocSource, n: int) -> Seq<FoldingRange>
    decreases n,
{
    if n <= 0 {
        Seq::empty()
    } else {
        let headings = doc.headings@;
        let end = section_end(
            headings,
            n - 1,
            n,
            crate::strings::byte_len(doc.text@) as int,
        );
        heading_folds(s, doc, n - 1) + source_folds(
            s,
            doc.map,
            TextRange { start: headings[n - 1].start, end: end as u32 },
            Some(FoldingRangeKind::Region),
        )
    }
}

/// The bytes of a docstring that a fold within a fence covers: from the start of
/// its first line to the start of the line behind its last.
pub open spec fn fenced_range(code: Seq<char>, base: u32, fold: FoldingRange) -> TextRange {
    let behind = if fold.end_line < u32::MAX {
        (fold.end_line + 1) as u32
    } else {
        u32::MAX
    };
    TextRange {
        start: (base + offset_at(
            code,
            Position { line: fold.start_line, character: 0 },
            PositionEncoding::Utf8,
        )) as u32,
        end: (base + offset_at(
            code,
            Position { line: behind, character: 0 },
            PositionEncoding::Utf8,
        )) as u32,
    }
}

/// The folds within a fence, in the source, from the first `n` of its own.
pub open spec fn fence_folds(
    s: Seq<char>,
    map: SourceMap,
    code: Seq<char>,
    base: u32,
    folds: Seq<FoldingRange>,
) -> Seq<FoldingRange>
    decreases folds.len(),
{
    if folds.len() == 0 {
        Seq::empty()
    } else {
        fence_folds(s, map, code, base, folds.drop_last()) + source_folds(
            s,
            map,
            fenced_range(code, base, folds.last()),
            folds.last().kind,
        )
    }
}

/// The folds of one node of a docstring: its own, where it is a container, and
/// those of the Julia code it fences.
pub open spec fn doc_node_folds(s: Seq<char>, doc: DocSource, node: DocNode) -> Seq<FoldingRange> {
    (if node.kind.folds() {
        source_folds(s, doc.map, node.range, Some(FoldingRangeKind::Region))
    } else {
        Seq::empty()
    }) + (match node.fence {
        Some(fence) => match slice_at(
            doc.text@,
            fence.content.start as int,
            fence.content.end as int,
        ) {
            Some(code) => fence_folds(
                s,
                doc.map,
                code,
                fence.content.start,
                code_folds(code, fence.tree@),
            ),
            None => Seq::empty(),
        },
        None => Seq::empty(),
    })
}

/// The folds of the first `n` nodes of a docstring.
pub open spec fn doc_nodes_folds(s: Seq<char>, doc: DocSource, n: int) -> Seq<FoldingRange>
    decreases n,
{
    if n <= 0 {
        Seq::empty()
    } else {
        doc_nodes_folds(s, doc, n - 1) + doc_node_folds(s, doc, doc.nodes@[n - 1])
    }
}

/// The folds of docstrings: of each the sections, then the nodes.
pub open spec fn documentation_folds(s: Seq<char>, docs: Seq<DocSource>) -> Seq<FoldingRange>
    decreases docs.len(),
{
    if docs.len() == 0 {
        Seq::empty()
    } else {
        let doc = docs.last();
        documentation_folds(s, docs.drop_last()) + heading_folds(
            s,
            doc,
            doc.headings.len() as int,
        ) + doc_nodes_folds(s, doc, doc.nodes.len() as int)
    }
}

fn push_source_fold(
    ctx: &Ctx,
    map: &SourceMap,
    range: TextRange,
    kind: Option<FoldingRangeKind>,
    out: &mut Vec<FoldingRange>,
)
    requires
        ctx.wf(),
    ensures
        final(out)@ == old(out)@ + source_folds(ctx.line_index@, *map, range, kind),
{
    let ghost before = out@;
    if let Some(source) = map.source_range(range) {
        ctx.push_fold(out, source, kind);
    } else {
        proof {
            assert(out@ =~= before + Seq::<FoldingRange>::empty());
        }
    }
}

fn collect_heading_folds(ctx: &Ctx, doc: &DocSource, out: &mut Vec<FoldingRange>)
    requires
        ctx.wf(),
        doc.wf(),
    ensures
        final(out)@ == old(out)@ + heading_folds(
            ctx.line_index@,
            *doc,
            doc.headings.len() as int,
        ),
{
    let ghost s = ctx.line_index@;
    let ghost start = out@;
    let ghost headings = doc.headings@;
    let ghost total = crate::strings::byte_len(doc.text@) as int;
    let length = crate::strings::byte_length(doc.text.as_str()) as u32;
    let mut i: usize = 0;
    proof {
        assert(start + heading_folds(s, *doc, 0) =~= start);
    }
    while i < doc.headings.len()
        invariant
            ctx.wf(),
            doc.wf(),
            s == ctx.line_index@,
            headings == doc.headings@,
            total == crate::strings::byte_len(doc.text@),
            length == total,
            i <= doc.headings.len(),
            out@ == start + heading_folds(s, *doc, i as int),
        decreases doc.headings.len() - i,
    {
        let heading = doc.headings[i];
        let mut j: usize = i + 1;
        let mut end: u32 = length;
        while j < doc.headings.len()
            invariant_except_break
                end == length,
                section_end(headings, i as int, i + 1, total) == section_end(
                    headings,
                    i as int,
                    j as int,
                    total,
                ),
            invariant
                i < j <= doc.headings.len(),
                headings == doc.headings@,
                heading == headings[i as int],
                length == total,
            ensures
                end == section_end(headings, i as int, i + 1, total),
            decreases doc.headings.len() - j,
        {
            if doc.headings[j].level <= heading.level {
                end = doc.headings[j].start;
                break ;
            }
            j = j + 1;
        }
        let ghost before = out@;
        push_source_fold(
            ctx,
            &doc.map,
            TextRange { start: heading.start, end },
            Some(FoldingRangeKind::Region),
            out,
        );
        i = i + 1;
        proof {
            assert(out@ =~= start + heading_folds(s, *doc, i as int));
        }
    }
}

fn collect_fence_folds(
    ctx: &Ctx,
    map: &SourceMap,
    code: &str,
    base: u32,
    tree: &SyntaxTree,
    out: &mut Vec<FoldingRange>,
)
    requires
        ctx.wf(),
        fits(code@),
        tree.wf(),
        base + crate::strings::byte_len(code@) <= u32::MAX,
    ensures
        final(out)@ == old(out)@ + fence_folds(
            ctx.line_index@,
            *map,
            code@,
            base,
            code_folds(code@, tree@),
        ),
{
    let ghost s = ctx.line_index@;
    let ghost start = out@;
    let code_index = LineIndex::new(code);
    let folds = julia_folds(tree, code);
    let mut i: usize = 0;
    proof {
        assert(folds@.take(0) =~= Seq::<FoldingRange>::empty());
        assert(start + fence_folds(s, *map, code@, base, folds@.take(0)) =~= start);
    }
    while i < folds.len()
        invariant
            ctx.wf(),
            s == ctx.line_index@,
            code_index.wf(),
            code_index@ == code@,
            base + crate::strings::byte_len(code@) <= u32::MAX,
            i <= folds.len(),
            out@ == start + fence_folds(s, *map, code@, base, folds@.take(i as int)),
        decreases folds.len() - i,
    {
        let fold = folds[i];
        let behind = if fold.end_line < u32::MAX {
            fold.end_line + 1
        } else {
            u32::MAX
        };
        let first = Position { line: fold.start_line, character: 0 };
        let last = Position { line: behind, character: 0 };
        proof {
            lemma_offset_bounded(code@, first, PositionEncoding::Utf8);
            lemma_offset_bounded(code@, last, PositionEncoding::Utf8);
            assert(folds@.take(i + 1).drop_last() =~= folds@.take(i as int));
        }
        let from = code_index.position_to_byte(first, PositionEncoding::Utf8) as u32;
        let to = code_index.position_to_byte(last, PositionEncoding::Utf8) as u32;
        push_source_fold(
            ctx,
            map,
            TextRange { start: base + from, end: base + to },
            fold.kind,
            out,
        );
        i = i + 1;
        proof {
            assert(out@ =~= start + fence_folds(s, *map, code@, base, folds@.take(i as int)));
        }
    }
    proof {
        assert(folds@.take(i as int) =~= folds@);
    }
}

fn collect_doc_node_folds(ctx: &Ctx, doc: &DocSource, node: &DocNode, out: &mut Vec<FoldingRange>)
    requires
        ctx.wf(),
        doc.wf(),
        node.fence is Some ==> node.fence->0.tree.wf(),
    ensures
        final(out)@ == old(out)@ + doc_node_folds(ctx.line_index@, *doc, *node),
{
    let ghost s = ctx.line_index@;
    let ghost start = out@;
    if node.kind.is_container() {
        push_source_fold(ctx, &doc.map, node.range, Some(FoldingRangeKind::Region), out);
    }
    let ghost middle = out@;
    if let Some(fence) = &node.fence {
        let doc_index = LineIndex::new(doc.text.as_str());
        if let Some(code) = doc_index.slice(
            fence.content.start as usize,
            fence.content.end as usize,
        ) {
            proof {
                crate::text::lemma_slice_bounded(
                    doc.text@,
                    fence.content.start as int,
                    fence.content.end as int,
                );
            }
            collect_fence_folds(
                ctx,
                &doc.map,
                code.as_str(),
                fence.content.start,
                &fence.tree,
                out,
            );
        }
    }
    proof {
        assert(out@ =~= start + doc_node_folds(s, *doc, *node));
    }
}

/// Folds the sections and containers of every docstring, and the code in its
/// Julia fences.
pub fn collect_documentation_folds(docs: &Vec<DocSource>, ctx: &Ctx, out: &mut Vec<FoldingRange>)
    requires
        ctx.wf(),
        forall|i: int| 0 <= i < docs.len() ==> (#[trigger] docs@[i]).wf(),
    ensures
        final(out)@ == old(out)@ + documentation_folds(ctx.line_index@, docs@),
{
    let ghost s = ctx.line_index@;
    let ghost start = out@;
    let mut i: usize = 0;
    proof {
        assert(docs@.take(0) =~= Seq::<DocSource>::empty());
        assert(start + documentation_folds(s, docs@.take(0)) =~= start);
    }
    while i < docs.len()
        invariant
            ctx.wf(),
            s == ctx.line_index@,
            forall|i: int| 0 <= i < docs.len() ==> (#[trigger] docs@[i]).wf(),
            i <= docs.len(),
            out@ == start + documentation_folds(s, docs@.take(i as int)),
        decreases docs.len() - i,
    {
        let doc = &docs[i];
        let ghost before = out@;
        proof {
            assert(docs@.take(i + 1).drop_last() =~= docs@.take(i as int));
        }
        collect_heading_folds(ctx, doc, out);
        let ghost middle = out@;
        let mut j: usize = 0;
        proof {
            assert(middle + doc_nodes_folds(s, *doc, 0) =~= middle);
        }
        while j < doc.nodes.len()
            invariant
                ctx.wf(),
                s == ctx.line_index@,
                doc.wf(),
                j <= doc.nodes.len(),
                out@ == middle + doc_nodes_folds(s, *doc, j as int),
            decreases doc.nodes.len() - j,
        {
            collect_doc_node_folds(ctx, doc, &doc.nodes[j], out);
            j = j + 1;
            proof {
                assert(out@ =~= middle + doc_nodes_folds(s, *doc, j as int));
            }
        }
        i = i + 1;
        proof {
            assert(out@ =~= start + documentation_folds(s, docs@.take(i as int)));
        }
    }
    proof {
        assert(docs@.take(i as int) =~= docs@);
    }
}

/// The folding ranges of `text`, whose tree is `tree` and whose docstrings are
/// `docs`.
pub fn compute_folding_ranges(text: &str, tree: &SyntaxTree, docs: &Vec<DocSource>) -> (r: Vec<
    FoldingRange,
>)
    requires
        fits(text@),
        tree.wf(),
        forall|i: int| 0 <= i < docs.len() ==> (#[trigger] docs@[i]).wf(),
    ensures
        r@ == code_folds(text@, tree@) + documentation_folds(text@, docs@),
{
    let mut out = julia_folds(tree, text);
    let ctx = Ctx::new(text);
    collect_documentation_folds(docs, &ctx, &mut out);
    out
}

/// Whether every fold spans more than one line.
pub open spec fn all_span_lines(folds: Seq<FoldingRange>) -> bool {
    forall|i: int| 0 <= i < folds.len() ==> (#[trigger] folds[i]).end_line > folds[i].start_line
}

proof fn lemma_span_concat(a: Seq<FoldingRange>, b: Seq<FoldingRange>)
    requires
        all_span_lines(a),
        all_span_lines(b),
    ensures
        all_span_lines(a + b),
{
    assert forall|i: int| 0 <= i < (a + b).len() implies (#[trigger] (a + b)[i]).end_line > (a
        + b)[i].start_line by {
        if i < a.len() {
            assert((a + b)[i] == a[i]);
        } else {
            assert((a + b)[i] == b[i - a.len()]);
        }
    }
}

proof fn lemma_import_walk_spans(s: Seq<char>, t: Seq<Element>, node: int, upto: int)
    ensures
        all_span_lines(import_walk(s, t, node, upto).folds),
    decreases upto,
{
    if !(upto <= node + 1 || upto <= 0) {
        lemma_import_walk_spans(s, t, node, upto - 1);
        let before = import_walk(s, t, node, upto - 1);
        lemma_span_concat(before.folds, run_folds(before.run, FoldingRangeKind::Imports));
    }
}

proof fn lemma_comment_walk_spans(s: Seq<char>, t: Seq<Element>, upto: int)
    ensures
        all_span_lines(comment_walk(s, t, upto).folds),
    decreases upto,
{
    if upto > 0 {
        lemma_comment_walk_spans(s, t, upto - 1);
        let before = comment_walk(s, t, upto - 1);
        let flushed = before.folds + run_folds(before.run, FoldingRangeKind::Comment);
        lemma_span_concat(before.folds, run_folds(before.run, FoldingRangeKind::Comment));
        lemma_span_concat(
            flushed,
            folds_over(s, t[upto - 1].range, Some(FoldingRangeKind::Comment)),
        );
    }
}

proof fn lemma_node_folds_span(s: Seq<char>, t: Seq<Element>, upto: int)
    ensures
        all_span_lines(all_node_folds(s, t, upto)),
    decreases upto,
{
    if upto > 0 {
        let i = upto - 1;
        lemma_node_folds_span(s, t, i);
        lemma_import_walk_spans(s, t, i, t[i].end as int);
        let walk = import_walk(s, t, i, t[i].end as int);
        lemma_span_concat(walk.folds, run_folds(walk.run, FoldingRangeKind::Imports));
        let own = match fold_kind(t[i].kind) {
            Some(kind) => folds_over(s, t[i].range, kind),
            None => Seq::empty(),
        };
        lemma_span_concat(own, import_folds(s, t, i));
        lemma_span_concat(all_node_folds(s, t, i), node_folds(s, t, i));
    }
}

/// Every fold of code spans more than one line.
pub proof fn law_code_folds_span_lines(s: Seq<char>, t: Seq<Element>)
    ensures
        all_span_lines(code_folds(s, t)),
{
    lemma_node_folds_span(s, t, t.len() as int);
    lemma_comment_walk_spans(s, t, t.len() as int);
    let walk = comment_walk(s, t, t.len() as int);
    lemma_span_concat(walk.folds, run_folds(walk.run, FoldingRangeKind::Comment));
    lemma_span_concat(all_node_folds(s, t, t.len() as int), comment_folds(s, t));
}

proof fn lemma_fence_folds_span(
    s: Seq<char>,
    map: SourceMap,
    code: Seq<char>,
    base: u32,
    folds: Seq<FoldingRange>,
)
    ensures
        all_span_lines(fence_folds(s, map, code, base, folds)),
    decreases folds.len(),
{
    if folds.len() > 0 {
        lemma_fence_folds_span(s, map, code, base, folds.drop_last());
        lemma_span_concat(
            fence_folds(s, map, code, base, folds.drop_last()),
            source_folds(s, map, fenced_range(code, base, folds.last()), folds.last().kind),
        );
    }
}

proof fn lemma_heading_folds_span(s: Seq<char>, doc: DocSource, n: int)
    ensures
        all_span_lines(heading_folds(s, doc, n)),
    decreases n,
{
    if n > 0 {
        lemma_heading_folds_span(s, doc, n - 1);
        let end = section_end(
            doc.headings@,
            n - 1,
            n,
            crate::strings::byte_len(doc.text@) as int,
        );
        lemma_span_concat(
            heading_folds(s, doc, n - 1),
            source_folds(
                s,
                doc.map,
                TextRange { start: doc.headings@[n - 1].start, end: end as u32 },
                Some(FoldingRangeKind::Region),
            ),
        );
    }
}

proof fn lemma_doc_nodes_span(s: Seq<char>, doc: DocSource, n: int)
    ensures
        all_span_lines(doc_nodes_folds(s, doc, n)),
    decreases n,
{
    if n > 0 {
        lemma_doc_nodes_span(s, doc, n - 1);
        let node = doc.nodes@[n - 1];
        let own = if node.kind.folds() {
            source_folds(s, doc.map, node.range, Some(FoldingRangeKind::Region))
        } else {
            Seq::empty()
        };
        let fenced = match node.fence {
            Some(fence) => match slice_at(
                doc.text@,
                fence.content.start as int,
                fence.content.end as int,
            ) {
                Some(code) => fence_folds(
                    s,
                    doc.map,
                    code,
                    fence.content.start,
                    code_folds(code, fence.tree@),
                ),
                None => Seq::empty(),
            },
            None => Seq::empty(),
        };
        match node.fence {
            Some(fence) => match slice_at(
                doc.text@,
                fence.content.start as int,
                fence.content.end as int,
            ) {
                Some(code) => {
                    lemma_fence_folds_span(
                        s,
                        doc.map,
                        code,
                        fence.content.start,
                        code_folds(code, fence.tree@),
                    );
                },
                None => {},
            },
            None => {},
        }
        lemma_span_concat(own, fenced);
        lemma_span_concat(doc_nodes_folds(s, doc, n - 1), doc_node_folds(s, doc, node));
    }
}

/// Every fold of docstrings spans more than one line.
pub proof fn law_documentation_folds_span_lines(s: Seq<char>, docs: Seq<DocSource>)
    ensures
        all_span_lines(documentation_folds(s, docs)),
    decreases docs.len(),
{
    if docs.len() > 0 {
        let doc = docs.last();
        law_documentation_folds_span_lines(s, docs.drop_last());
        lemma_heading_folds_span(s, doc, doc.headings.len() as int);
        lemma_doc_nodes_span(s, doc, doc.nodes.len() as int);
        let before = documentation_folds(s, docs.drop_last());
        let headings = heading_folds(s, doc, doc.headings.len() as int);
        lemma_span_concat(before, headings);
        lemma_span_concat(
            before + headings,
            doc_nodes_folds(s, doc, doc.nodes.len() as int),
        );
    }
}

/// Whether a node is a block: a definition, a branch, a loop or another construct that
/// an `end` closes, or a clause of one.
pub open spec fn is_block(kind: SyntaxKind) -> bool {
    ||| kind == SyntaxKind::MODULE_DEF
    ||| kind == SyntaxKind::FUNCTION_DEF
    ||| kind == SyntaxKind::MACRO_DEF
    ||| kind == SyntaxKind::STRUCT_DEF
    ||| kind == SyntaxKind::ABSTRACT_DEF
    ||| kind == SyntaxKind::PRIMITIVE_DEF
    ||| kind == SyntaxKind::TYPEGROUP_DEF
    ||| kind == SyntaxKind::IF_EXPR
    ||| kind == SyntaxKind::ELSEIF_CLAUSE
    ||| kind == SyntaxKind::ELSE_CLAUSE
    ||| kind == SyntaxKind::WHILE_EXPR
    ||| kind == SyntaxKind::FOR_EXPR
    ||| kind == SyntaxKind::LET_EXPR
    ||| kind == SyntaxKind::BEGIN_EXPR
    ||| kind == SyntaxKind::QUOTE_EXPR
    ||| kind == SyntaxKind::TRY_EXPR
    ||| kind == SyntaxKind::CATCH_CLAUSE
    ||| kind == SyntaxKind::FINALLY_CLAUSE
    ||| kind == SyntaxKind::DO_EXPR
}

proof fn lemma_node_fold_kept(
    s: Seq<char>,
    t: Seq<Element>,
    upto: int,
    i: int,
    fold: FoldingRange,
)
    requires
        0 <= i < upto,
        !t[i].is_token,
        node_folds(s, t, i).contains(fold),
    ensures
        all_node_folds(s, t, upto).contains(fold),
    decreases upto,
{
    let before = all_node_folds(s, t, upto - 1);
    let after = all_node_folds(s, t, upto);
    if i == upto - 1 {
        let own = node_folds(s, t, i);
        let j = choose|j: int| 0 <= j < own.len() && own[j] == fold;
        assert(after[before.len() + j] == fold);
    } else {
        lemma_node_fold_kept(s, t, upto - 1, i, fold);
        let j = choose|j: int| 0 <= j < before.len() && before[j] == fold;
        assert(after[j] == fold);
    }
}

/// Every block, and every import, that spans more than one line folds: from the line on
/// which it begins to the line on which it ends.
pub proof fn law_blocks_fold(s: Seq<char>, t: Seq<Element>, i: int)
    requires
        0 <= i < t.len(),
        !t[i].is_token,
        last_line(s, t[i].range.end as int) > line_at(s, t[i].range.start as int),
    ensures
        ({
            let lines = |kind: Option<FoldingRangeKind>|
                FoldingRange {
                    start_line: line_at(s, t[i].range.start as int),
                    end_line: last_line(s, t[i].range.end as int),
                    kind,
                };
            &&& is_block(t[i].kind) ==> code_folds(s, t).contains(lines(None))
            &&& t[i].kind == SyntaxKind::USING_STMT || t[i].kind == SyntaxKind::IMPORT_STMT
                ==> code_folds(s, t).contains(lines(Some(FoldingRangeKind::Imports)))
        }),
{
    if is_block(t[i].kind) || is_import(t[i]) {
        let kind: Option<FoldingRangeKind> = if is_import(t[i]) {
            Some(FoldingRangeKind::Imports)
        } else {
            None
        };
        let fold = FoldingRange {
            start_line: line_at(s, t[i].range.start as int),
            end_line: last_line(s, t[i].range.end as int),
            kind,
        };
        assert(folds_over(s, t[i].range, kind) =~= seq![fold]);
        assert(node_folds(s, t, i)[0] == fold);
        lemma_node_fold_kept(s, t, t.len() as int, i, fold);
        let nodes = all_node_folds(s, t, t.len() as int);
        let j = choose|j: int| 0 <= j < nodes.len() && nodes[j] == fold;
        assert(code_folds(s, t)[j] == fold);
    }
}

/// Whether a fold covers two lines, and is of a kind.
pub open spec fn folds_lines(fold: FoldingRange, kind: FoldingRangeKind, a: u32, b: u32) -> bool {
    fold.kind == Some(kind) && fold.start_line <= a && b <= fold.end_line
}

/// Whether a run covers two lines.
pub open spec fn runs_over(run: Option<Run>, a: u32, b: u32) -> bool {
    run is Some && run->0.several && run->0.start_line <= a && b <= run->0.end_line
        && run->0.start_line < run->0.end_line
}

proof fn lemma_import_run(
    s: Seq<char>,
    t: Seq<Element>,
    node: int,
    upto: int,
)
    requires
        0 <= node < upto <= t.len(),
        forall|k: int|
            node < k < upto && is_import(#[trigger] t[k]) ==> line_at(s, t[k].range.start as int)
                <= last_line(s, t[k].range.end as int),
    ensures
        import_walk(s, t, node, upto).run is Some ==> import_walk(s, t, node, upto).run->0.start_line
            <= import_walk(s, t, node, upto).run->0.end_line,
    decreases upto,
{
    if upto > node + 1 {
        lemma_import_run(s, t, node, upto - 1);
    }
}

proof fn lemma_imports_join(s: Seq<char>, t: Seq<Element>, node: int, a: int, b: int, upto: int)
    requires
        0 <= node < a < b < upto <= t.len(),
        is_import(t[a]) && t[a].parent == node && !t[a].is_token,
        is_import(t[b]) && t[b].parent == node && !t[b].is_token,
        forall|k: int| a < k < b ==> (#[trigger] t[k]).parent != node || t[k].is_token,
        line_at(s, t[b].range.start as int) == last_line(s, t[a].range.end as int) + 1,
        forall|k: int|
            node < k < upto && is_import(#[trigger] t[k]) ==> line_at(s, t[k].range.start as int)
                <= last_line(s, t[k].range.end as int),
    ensures
        ({
            let walk = import_walk(s, t, node, upto);
            let first = line_at(s, t[a].range.start as int);
            let last = last_line(s, t[b].range.end as int);
            runs_over(walk.run, first, last) || exists|j: int|
                0 <= j < walk.folds.len() && folds_lines(
                    #[trigger] walk.folds[j],
                    FoldingRangeKind::Imports,
                    first,
                    last,
                )
        }),
    decreases upto,
{
    let walk = import_walk(s, t, node, upto);
    let before = import_walk(s, t, node, upto - 1);
    let first = line_at(s, t[a].range.start as int);
    let last = last_line(s, t[b].range.end as int);
    if upto - 1 == b {
        lemma_import_run(s, t, node, a);
        lemma_import_run(s, t, node, a + 1);
        lemma_walk_waits(s, t, node, a + 1, b);
        let run = import_walk(s, t, node, a + 1).run;
        assert(run is Some);
        assert(run->0.start_line <= first);
        assert(run->0.end_line == last_line(s, t[a].range.end as int));
        assert(before.run == run);
    } else {
        lemma_imports_join(s, t, node, a, b, upto - 1);
        lemma_import_run(s, t, node, upto - 1);
        if exists|j: int|
            0 <= j < before.folds.len() && folds_lines(
                #[trigger] before.folds[j],
                FoldingRangeKind::Imports,
                first,
                last,
            ) {
            let j = choose|j: int|
                0 <= j < before.folds.len() && folds_lines(
                    #[trigger] before.folds[j],
                    FoldingRangeKind::Imports,
                    first,
                    last,
                );
            assert(walk.folds[j] == before.folds[j]);
        } else {
            let run = before.run->0;
            if t[upto - 1].parent == node && !t[upto - 1].is_token && !(is_import(t[upto - 1])
                && line_at(s, t[upto - 1].range.start as int) == run.end_line + 1) {
                assert(walk.folds[before.folds.len() as int] == (FoldingRange {
                    start_line: run.start_line,
                    end_line: run.end_line,
                    kind: Some(FoldingRangeKind::Imports),
                }));
            }
        }
    }
}

proof fn lemma_walk_waits(s: Seq<char>, t: Seq<Element>, node: int, from: int, upto: int)
    requires
        0 <= node < from <= upto <= t.len(),
        forall|k: int| from <= k < upto ==> (#[trigger] t[k]).parent != node || t[k].is_token,
    ensures
        import_walk(s, t, node, upto) == import_walk(s, t, node, from),
    decreases upto - from,
{
    if from < upto {
        lemma_walk_waits(s, t, node, from, upto - 1);
        assert(t[upto - 1].parent != node || t[upto - 1].is_token);
    }
}

/// Two imports of one node, the second on the line below the first and nothing between
/// them, fold together.
pub proof fn law_adjacent_imports_fold_together(
    s: Seq<char>,
    t: Seq<Element>,
    node: int,
    a: int,
    b: int,
)
    requires
        0 <= node < a < b < t[node].end <= t.len(),
        !t[node].is_token,
        t[a].kind == SyntaxKind::USING_STMT || t[a].kind == SyntaxKind::IMPORT_STMT,
        t[b].kind == SyntaxKind::USING_STMT || t[b].kind == SyntaxKind::IMPORT_STMT,
        t[a].parent == node && !t[a].is_token,
        t[b].parent == node && !t[b].is_token,
        forall|k: int| a < k < b ==> (#[trigger] t[k]).parent != node || t[k].is_token,
        line_at(s, t[b].range.start as int) == last_line(s, t[a].range.end as int) + 1,
        forall|k: int|
            node < k < t[node].end && (#[trigger] t[k]).kind != SyntaxKind::OTHER ==> line_at(
                s,
                t[k].range.start as int,
            ) <= last_line(s, t[k].range.end as int),
    ensures
        exists|j: int|
            0 <= j < code_folds(s, t).len() && folds_lines(
                #[trigger] code_folds(s, t)[j],
                FoldingRangeKind::Imports,
                line_at(s, t[a].range.start as int),
                last_line(s, t[b].range.end as int),
            ),
{
    let end = t[node].end as int;
    let first = line_at(s, t[a].range.start as int);
    let last = last_line(s, t[b].range.end as int);
    lemma_imports_join(s, t, node, a, b, end);
    let walk = import_walk(s, t, node, end);
    let folds = import_folds(s, t, node);
    let at = if runs_over(walk.run, first, last) {
        walk.folds.len() as int
    } else {
        choose|j: int|
            0 <= j < walk.folds.len() && folds_lines(
                #[trigger] walk.folds[j],
                FoldingRangeKind::Imports,
                first,
                last,
            )
    };
    let fold = folds[at];
    assert(folds_lines(fold, FoldingRangeKind::Imports, first, last));
    let own = node_folds(s, t, node);
    assert(own[own.len() - folds.len() + at] == fold);
    lemma_node_fold_kept(s, t, t.len() as int, node, fold);
    let nodes = all_node_folds(s, t, t.len() as int);
    let j = choose|j: int| 0 <= j < nodes.len() && nodes[j] == fold;
    assert(code_folds(s, t)[j] == fold);
}

/// Whether an element counts among comments: a block comment, or a comment that leads
/// its line.
pub open spec fn is_comment_line(s: Seq<char>, e: Element) -> bool {
    e.is_token && (e.kind == SyntaxKind::BLOCK_COMMENT || (e.kind == SyntaxKind::COMMENT
        && blank_before(s, e.range.start as int)))
}

proof fn lemma_comment_run(s: Seq<char>, t: Seq<Element>, upto: int)
    requires
        0 <= upto <= t.len(),
    ensures
        comment_walk(s, t, upto).run is Some ==> comment_walk(s, t, upto).run->0.start_line
            <= comment_walk(s, t, upto).run->0.end_line && comment_walk(s, t, upto).run->0.several,
    decreases upto,
{
    if upto > 0 {
        lemma_comment_run(s, t, upto - 1);
    }
}

proof fn lemma_comments_wait(s: Seq<char>, t: Seq<Element>, from: int, upto: int)
    requires
        0 <= from <= upto <= t.len(),
        forall|k: int| from <= k < upto ==> !is_comment_line(s, #[trigger] t[k]),
    ensures
        comment_walk(s, t, upto) == comment_walk(s, t, from),
    decreases upto - from,
{
    if from < upto {
        lemma_comments_wait(s, t, from, upto - 1);
        assert(!is_comment_line(s, t[upto - 1]));
    }
}

proof fn lemma_comments_join(s: Seq<char>, t: Seq<Element>, a: int, b: int, upto: int)
    requires
        0 <= a < b < upto <= t.len(),
        is_comment_line(s, t[a]) && t[a].kind == SyntaxKind::COMMENT,
        is_comment_line(s, t[b]) && t[b].kind == SyntaxKind::COMMENT,
        forall|k: int| a < k < b ==> !is_comment_line(s, #[trigger] t[k]),
        line_at(s, t[b].range.start as int) == line_at(s, t[a].range.start as int) + 1,
    ensures
        ({
            let walk = comment_walk(s, t, upto);
            let first = line_at(s, t[a].range.start as int);
            let last = line_at(s, t[b].range.start as int);
            runs_over(walk.run, first, last) || exists|j: int|
                0 <= j < walk.folds.len() && folds_lines(
                    #[trigger] walk.folds[j],
                    FoldingRangeKind::Comment,
                    first,
                    last,
                )
        }),
    decreases upto,
{
    let walk = comment_walk(s, t, upto);
    let before = comment_walk(s, t, upto - 1);
    let first = line_at(s, t[a].range.start as int);
    let last = line_at(s, t[b].range.start as int);
    if upto - 1 == b {
        lemma_comment_run(s, t, a);
        lemma_comments_wait(s, t, a + 1, b);
        let run = comment_walk(s, t, a + 1).run;
        assert(run is Some);
        assert(run->0.start_line <= first);
        assert(run->0.end_line == first);
        assert(before.run == run);
    } else {
        lemma_comments_join(s, t, a, b, upto - 1);
        lemma_comment_run(s, t, upto - 1);
        if exists|j: int|
            0 <= j < before.folds.len() && folds_lines(
                #[trigger] before.folds[j],
                FoldingRangeKind::Comment,
                first,
                last,
            ) {
            let j = choose|j: int|
                0 <= j < before.folds.len() && folds_lines(
                    #[trigger] before.folds[j],
                    FoldingRangeKind::Comment,
                    first,
                    last,
                );
            assert(walk.folds[j] == before.folds[j]);
        } else {
            let run = before.run->0;
            if is_comment_line(s, t[upto - 1]) && !(t[upto - 1].kind == SyntaxKind::COMMENT
                && line_at(s, t[upto - 1].range.start as int) == run.end_line + 1) {
                assert(walk.folds[before.folds.len() as int] == (FoldingRange {
                    start_line: run.start_line,
                    end_line: run.end_line,
                    kind: Some(FoldingRangeKind::Comment),
                }));
            }
        }
    }
}

/// Two comments that each lead their line, the second on the line below the first, fold
/// together.
pub proof fn law_adjacent_comments_fold_together(s: Seq<char>, t: Seq<Element>, a: int, b: int)
    requires
        0 <= a < b < t.len(),
        t[a].is_token && t[a].kind == SyntaxKind::COMMENT && blank_before(
            s,
            t[a].range.start as int,
        ),
        t[b].is_token && t[b].kind == SyntaxKind::COMMENT && blank_before(
            s,
            t[b].range.start as int,
        ),
        forall|k: int|
            a < k < b ==> (#[trigger] t[k]).kind != SyntaxKind::COMMENT && t[k].kind
                != SyntaxKind::BLOCK_COMMENT,
        line_at(s, t[b].range.start as int) == line_at(s, t[a].range.start as int) + 1,
    ensures
        exists|j: int|
            0 <= j < code_folds(s, t).len() && folds_lines(
                #[trigger] code_folds(s, t)[j],
                FoldingRangeKind::Comment,
                line_at(s, t[a].range.start as int),
                line_at(s, t[b].range.start as int),
            ),
{
    let first = line_at(s, t[a].range.start as int);
    let last = line_at(s, t[b].range.start as int);
    lemma_comments_join(s, t, a, b, t.len() as int);
    let walk = comment_walk(s, t, t.len() as int);
    let folds = comment_folds(s, t);
    let at = if runs_over(walk.run, first, last) {
        walk.folds.len() as int
    } else {
        choose|j: int|
            0 <= j < walk.folds.len() && folds_lines(
                #[trigger] walk.folds[j],
                FoldingRangeKind::Comment,
                first,
                last,
            )
    };
    assert(folds_lines(folds[at], FoldingRangeKind::Comment, first, last));
    let nodes = all_node_folds(s, t, t.len() as int);
    assert(code_folds(s, t)[nodes.len() + at] == folds[at]);
}

/// A block comment that spans more than one line folds.
pub proof fn law_block_comments_fold(s: Seq<char>, t: Seq<Element>, i: int)
    requires
        0 <= i < t.len(),
        t[i].is_token && t[i].kind == SyntaxKind::BLOCK_COMMENT,
        last_line(s, t[i].range.end as int) > line_at(s, t[i].range.start as int),
    ensures
        code_folds(s, t).contains(
            FoldingRange {
                start_line: line_at(s, t[i].range.start as int),
                end_line: last_line(s, t[i].range.end as int),
                kind: Some(FoldingRangeKind::Comment),
            },
        ),
{
    let fold = FoldingRange {
        start_line: line_at(s, t[i].range.start as int),
        end_line: last_line(s, t[i].range.end as int),
        kind: Some(FoldingRangeKind::Comment),
    };
    let before = comment_walk(s, t, i);
    let at = (before.folds + run_folds(before.run, FoldingRangeKind::Comment)).len() as int;
    assert(comment_walk(s, t, i + 1).folds[at] == fold);
    lemma_comment_folds_stay(s, t, i + 1, t.len() as int, at);
    let nodes = all_node_folds(s, t, t.len() as int);
    assert(code_folds(s, t)[nodes.len() + at] == fold);
}

proof fn lemma_comment_folds_stay(s: Seq<char>, t: Seq<Element>, from: int, upto: int, at: int)
    requires
        0 <= from <= upto <= t.len(),
        0 <= at < comment_walk(s, t, from).folds.len(),
    ensures
        at < comment_walk(s, t, upto).folds.len(),
        comment_walk(s, t, upto).folds[at] == comment_walk(s, t, from).folds[at],
    decreases upto - from,
{
    if from < upto {
        lemma_comment_folds_stay(s, t, from, upto - 1, at);
    }
}

/// The section of a heading ends where the next heading begins that is not below it, or
/// with the docstring.
pub proof fn law_sections_end_at_the_next_heading(
    headings: Seq<DocHeading>,
    i: int,
    j: int,
    end: int,
)
    requires
        0 <= i < j <= headings.len(),
        forall|k: int| i < k < j ==> (#[trigger] headings[k]).level > headings[i].level,
        j < headings.len() ==> headings[j].level <= headings[i].level,
    ensures
        section_end(headings, i, i + 1, end) == (if j < headings.len() {
            headings[j].start as int
        } else {
            end
        }),
{
    lemma_section_goes_on(headings, i, i + 1, j, end);
}

proof fn lemma_section_goes_on(headings: Seq<DocHeading>, i: int, k: int, j: int, end: int)
    requires
        0 <= i < k <= j <= headings.len(),
        forall|k: int| i < k < j ==> (#[trigger] headings[k]).level > headings[i].level,
    ensures
        section_end(headings, i, k, end) == section_end(headings, i, j, end),
    decreases j - k,
{
    if k < j {
        lemma_section_goes_on(headings, i, k + 1, j, end);
    }
}

/// Every section of a docstring, and everything in it that holds a block of text, folds
/// as a region where it spans more than one line of the source.
pub proof fn law_docstrings_fold(s: Seq<char>, docs: Seq<DocSource>, d: int, i: int)
    requires
        0 <= d < docs.len(),
    ensures
        ({
            let doc = docs[d];
            let folds = documentation_folds(s, docs);
            let region = |range: TextRange|
                match source_of(doc.map, range) {
                    Some(source) => last_line(s, source.end as int) > line_at(s, source.start as int)
                        ==> folds.contains(
                        FoldingRange {
                            start_line: line_at(s, source.start as int),
                            end_line: last_line(s, source.end as int),
                            kind: Some(FoldingRangeKind::Region),
                        },
                    ),
                    None => true,
                };
            &&& 0 <= i < doc.headings.len() ==> region(
                TextRange {
                    start: doc.headings@[i].start,
                    end: section_end(
                        doc.headings@,
                        i,
                        i + 1,
                        crate::strings::byte_len(doc.text@) as int,
                    ) as u32,
                },
            )
            &&& 0 <= i < doc.nodes.len() && doc.nodes@[i].kind != DocKind::Other ==> region(
                doc.nodes@[i].range,
            )
        }),
    decreases docs.len(),
{
    let doc = docs[d];
    let folds = documentation_folds(s, docs);
    if d < docs.len() - 1 {
        let front = docs.drop_last();
        law_docstrings_fold(s, front, d, i);
        let before = documentation_folds(s, front);
        assert forall|fold: FoldingRange| before.contains(fold) implies folds.contains(fold) by {
            let j = choose|j: int| 0 <= j < before.len() && before[j] == fold;
            assert(folds[j] == fold);
        }
    } else {
        let before = documentation_folds(s, docs.drop_last());
        let sections = heading_folds(s, doc, doc.headings.len() as int);
        let nodes = doc_nodes_folds(s, doc, doc.nodes.len() as int);
        assert forall|fold: FoldingRange|
            sections.contains(fold) || nodes.contains(fold) implies folds.contains(fold) by {
            if sections.contains(fold) {
                let j = choose|j: int| 0 <= j < sections.len() && sections[j] == fold;
                assert(folds[before.len() + j] == fold);
            } else {
                let j = choose|j: int| 0 <= j < nodes.len() && nodes[j] == fold;
                assert(folds[before.len() + sections.len() + j] == fold);
            }
        }
        if 0 <= i < doc.headings.len() {
            let range = TextRange {
                start: doc.headings@[i].start,
                end: section_end(
                    doc.headings@,
                    i,
                    i + 1,
                    crate::strings::byte_len(doc.text@) as int,
                ) as u32,
            };
            let own = source_folds(s, doc.map, range, Some(FoldingRangeKind::Region));
            if own.len() > 0 {
                lemma_heading_fold_kept(s, doc, doc.headings.len() as int, i, own[0]);
            }
        }
        if 0 <= i < doc.nodes.len() && doc.nodes@[i].kind != DocKind::Other {
            let own = source_folds(
                s,
                doc.map,
                doc.nodes@[i].range,
                Some(FoldingRangeKind::Region),
            );
            if own.len() > 0 {
                assert(doc_node_folds(s, doc, doc.nodes@[i])[0] == own[0]);
                lemma_doc_fold_kept(s, doc, doc.nodes.len() as int, i, own[0]);
            }
        }
    }
}

proof fn lemma_heading_fold_kept(s: Seq<char>, doc: DocSource, n: int, i: int, fold: FoldingRange)
    requires
        0 <= i < n,
        source_folds(
            s,
            doc.map,
            TextRange {
                start: doc.headings@[i].start,
                end: section_end(
                    doc.headings@,
                    i,
                    i + 1,
                    crate::strings::byte_len(doc.text@) as int,
                ) as u32,
            },
            Some(FoldingRangeKind::Region),
        ).contains(fold),
    ensures
        heading_folds(s, doc, n).contains(fold),
    decreases n,
{
    let before = heading_folds(s, doc, n - 1);
    let after = heading_folds(s, doc, n);
    if i == n - 1 {
        let own = source_folds(
            s,
            doc.map,
            TextRange {
                start: doc.headings@[i].start,
                end: section_end(
                    doc.headings@,
                    i,
                    i + 1,
                    crate::strings::byte_len(doc.text@) as int,
                ) as u32,
            },
            Some(FoldingRangeKind::Region),
        );
        let k = choose|k: int| 0 <= k < own.len() && own[k] == fold;
        assert(after[before.len() + k] == fold);
    } else {
        lemma_heading_fold_kept(s, doc, n - 1, i, fold);
        let j = choose|j: int| 0 <= j < before.len() && before[j] == fold;
        assert(after[j] == fold);
    }
}

proof fn lemma_doc_fold_kept(s: Seq<char>, doc: DocSource, n: int, i: int, fold: FoldingRange)
    requires
        0 <= i < n,
        doc_node_folds(s, doc, doc.nodes@[i]).contains(fold),
    ensures
        doc_nodes_folds(s, doc, n).contains(fold),
    decreases n,
{
    let before = doc_nodes_folds(s, doc, n - 1);
    let after = doc_nodes_folds(s, doc, n);
    if i == n - 1 {
        let own = doc_node_folds(s, doc, doc.nodes@[i]);
        let j = choose|j: int| 0 <= j < own.len() && own[j] == fold;
        assert(after[before.len() + j] == fold);
    } else {
        lemma_doc_fold_kept(s, doc, n - 1, i, fold);
        let j = choose|j: int| 0 <= j < before.len() && before[j] == fold;
        assert(after[j] == fold);
    }
}

} // verus!
