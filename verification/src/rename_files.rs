//! Renaming files and folders.
//!
//! A moved file takes two kinds of `include` literal with it: those that name it,
//! and its own, which were spelled against the directory it left. A folder is a
//! path prefix, so files and folders are one mechanism. Edits are addressed to a
//! file under the path it has before the move.

use std::str::FromStr;

use vstd::prelude::*;

use crate::edits::{TextEdit, TextEditView};
use crate::paths::{
    absolute_spelling, is_absolute, is_component, is_drive, is_path, is_rooted, is_slash_free,
    law_absolute_spelling_resolves, law_parents_hold_their_children,
    law_relative_spelling_resolves, law_steps_spelling_is_relative,
    last_dot, leads_with_slash, lemma_component_end, lemma_resolved_path, lemma_steps_spelling,
    lemma_walked_split, parent_of, relative_spelling, resolve_target, resolved, same_root, slashed,
    spelled, spells_root, split_extension, stem_and_extension, steps_between, steps_name_drive,
    walked, FilePath,
};
use crate::search::{
    first_index, kept, lemma_first_index, lemma_first_index_is, lemma_kept_holds, lemma_kept_step,
};
use crate::sorting::{
    ascending, dedup_by_key, deduped, keys_agree, law_deduped_ascends, law_deduped_from,
    law_deduped_keeps, law_sorted, sort_stable, stable_sorted, strictly_ascending,
};
use crate::strings::{
    byte_len, cat, chars_of, lemma_pieces_concat, pieces, same_text, separated, starts_with,
    text_between,
};
use crate::symbols::{head_of, node_text, signature_expr, signature_of, unwrap_head};
use crate::text::{fits, range_at, LineIndex, Position, PositionEncoding, TextRange};
use crate::tree::{lemma_ends_bounded, Element, SyntaxKind, SyntaxTree};

verus! {

/// One entry of a rename batch, as the client sends it.
#[derive(Debug)]
pub struct FileRename {
    pub old_uri: String,
    pub new_uri: String,
}

/// The parts of a URI that say which file it names.
#[derive(Debug)]
pub struct UriParts {
    pub scheme: Option<String>,
    /// The path with its percent escapes decoded, where they decode to text.
    pub path: Option<String>,
}

impl DeepView for UriParts {
    type V = (Option<Seq<char>>, Option<Seq<char>>);

    open spec fn deep_view(&self) -> (Option<Seq<char>>, Option<Seq<char>>) {
        (self.scheme.deep_view(), self.path.deep_view())
    }
}

/// Scheme and decoded path of a URI reference, as `lsp_types::Uri` reads it.
pub uninterp spec fn uri_parts_of(text: Seq<char>) -> Option<
    (Option<Seq<char>>, Option<Seq<char>>),
>;

/// `lsp_types::Uri::from_str`, and of a URI that it accepts the scheme as written
/// and the percent-decoded path. What it accepts and how it cuts the text is
/// named, not described. It panics on a text longer than `i32::MAX` bytes.
#[verifier::external_body]
fn uri_parts(text: &str) -> (r: Option<UriParts>)
    requires
        byte_len(text@) <= i32::MAX,
    ensures
        r.deep_view() == uri_parts_of(text@),
{
    match lsp_types::Uri::from_str(text) {
        Ok(uri) => Some(
            UriParts {
                scheme: uri.scheme().map(|scheme| scheme.as_str().to_string()),
                path: uri.path().as_estr().decode().into_string().ok().map(|path| path.into_owned()),
            },
        ),
        Err(_) => None,
    }
}

/// Whether the path of a URI has a drive behind its slash.
pub open spec fn names_drive(path: Seq<char>) -> bool {
    leads_with_slash(path) && path.len() > 3 && is_drive(path.subrange(1, 3)) && path[3] == '/'
}

/// The path on disk that a URI of these parts names: a `file` URI names the path
/// it spells, without the slash before a drive; any other names none.
pub open spec fn path_of_parts(
    parts: Option<(Option<Seq<char>>, Option<Seq<char>>)>,
) -> Option<Seq<Seq<char>>> {
    match parts {
        Some((Some(scheme), Some(path))) => if scheme == "file"@ {
            resolved(
                if names_drive(path) {
                    path.skip(1)
                } else {
                    path
                },
                None,
            )
        } else {
            None
        },
        _ => None,
    }
}

/// The path on disk that a URI names, given its parts.
pub fn file_path(parts: &Option<UriParts>) -> (r: Option<FilePath>)
    ensures
        r.deep_view() == path_of_parts(parts.deep_view()),
        r is Some ==> r->0.wf(),
{
    match parts {
        Some(UriParts { scheme: Some(scheme), path: Some(path) }) => {
            if same_text(scheme.as_str(), "file") {
                let chars = chars_of(path.as_str());
                if chars.len() > 3 && chars[0] == '/' && (('A' <= chars[1] && chars[1] <= 'Z') || (
                'a' <= chars[1] && chars[1] <= 'z')) && chars[2] == ':' && chars[3] == '/' {
                    let text = text_between(&chars, 1, chars.len());
                    proof {
                        assert(text@ =~= path@.skip(1));
                    }
                    FilePath::parse(text.as_str())
                } else {
                    FilePath::parse(path.as_str())
                }
            } else {
                None
            }
        },
        _ => None,
    }
}

/// The path on disk that a URI names.
pub fn path_of(text: &str) -> (r: Option<FilePath>)
    requires
        byte_len(text@) <= i32::MAX,
    ensures
        r.deep_view() == path_of_parts(uri_parts_of(text@)),
        r is Some ==> r->0.wf(),
{
    let parts = uri_parts(text);
    file_path(&parts)
}

/// A move of one path to another.
#[derive(Debug)]
pub struct Move {
    pub old: FilePath,
    pub new: FilePath,
}

/// What a [`Move`] says.
pub struct MoveView {
    pub old: Seq<Seq<char>>,
    pub new: Seq<Seq<char>>,
}

impl DeepView for Move {
    type V = MoveView;

    open spec fn deep_view(&self) -> MoveView {
        MoveView { old: self.old.deep_view(), new: self.new.deep_view() }
    }
}

/// The move that an entry of a batch stands for: none where either URI names no
/// file, or both name the same.
pub open spec fn move_of(
    old: Option<Seq<Seq<char>>>,
    new: Option<Seq<Seq<char>>>,
) -> Option<MoveView> {
    match (old, new) {
        (Some(old), Some(new)) => if old != new {
            Some(MoveView { old, new })
        } else {
            None
        },
        _ => None,
    }
}

/// The moves of a batch, in the order of its entries.
pub open spec fn moves_of(files: Seq<FileRename>) -> Seq<MoveView> {
    kept(
        files,
        |file: FileRename|
            move_of(
                path_of_parts(uri_parts_of(file.old_uri@)),
                path_of_parts(uri_parts_of(file.new_uri@)),
            ),
    )
}

/// By how much a move is to be asked first: the deeper its old path, the sooner.
pub open spec fn depth_key() -> spec_fn(MoveView) -> int {
    |m: MoveView| -(m.old.len() as int)
}

/// Where a path ends up: the first move whose old path is the path or a folder
/// around it decides, once.
pub open spec fn mapped(moves: Seq<MoveView>, path: Seq<Seq<char>>) -> Seq<Seq<char>>
    decreases moves.len(),
{
    if moves.len() == 0 {
        path
    } else if moves[0].old.is_prefix_of(path) {
        moves[0].new + path.skip(moves[0].old.len() as int)
    } else {
        mapped(moves.drop_first(), path)
    }
}

/// A rename batch, the deepest old paths first.
#[derive(Debug)]
pub struct RenameMap {
    pub entries: Vec<Move>,
}

impl DeepView for RenameMap {
    type V = Seq<MoveView>;

    open spec fn deep_view(&self) -> Seq<MoveView> {
        self.entries.deep_view()
    }
}

/// Whether `prefix` is `path` or a folder around it.
fn leads(prefix: &FilePath, path: &FilePath) -> (r: bool)
    ensures
        r == prefix.deep_view().is_prefix_of(path.deep_view()),
{
    let ghost a = prefix.deep_view();
    let ghost b = path.deep_view();
    if prefix.parts.len() > path.parts.len() {
        return false;
    }
    let mut i: usize = 0;
    while i < prefix.parts.len()
        invariant
            a == prefix.deep_view(),
            b == path.deep_view(),
            i <= a.len() <= b.len(),
            forall|k: int| 0 <= k < i ==> #[trigger] a[k] == b[k],
        decreases a.len() - i,
    {
        if !same_text(prefix.parts[i].as_str(), path.parts[i].as_str()) {
            proof {
                assert(a[i as int] != b[i as int]);
            }
            return false;
        }
        proof {
            assert(a[i as int] == b[i as int]);
        }
        i = i + 1;
    }
    proof {
        assert(b.subrange(0, a.len() as int) =~= a);
    }
    true
}

impl RenameMap {
    /// Old and new paths are paths, and the deepest old paths come first.
    pub open spec fn wf(&self) -> bool {
        &&& forall|i: int|
            0 <= i < self.entries.len() ==> is_path((#[trigger] self.deep_view()[i]).old)
                && is_path(self.deep_view()[i].new)
        &&& ascending(self.deep_view(), depth_key())
    }

    /// The moves of a batch, or `None` where none is left.
    pub fn from_files(files: &Vec<FileRename>) -> (r: Option<RenameMap>)
        requires
            forall|i: int|
                0 <= i < files.len() ==> byte_len((#[trigger] files@[i]).old_uri@) <= i32::MAX
                    && byte_len(files@[i].new_uri@) <= i32::MAX,
        ensures
            r is None <==> moves_of(files@).len() == 0,
            r is Some ==> r->0.deep_view() == stable_sorted(moves_of(files@), depth_key())
                && r->0.wf(),
    {
        let ghost pick = |file: FileRename|
            move_of(
                path_of_parts(uri_parts_of(file.old_uri@)),
                path_of_parts(uri_parts_of(file.new_uri@)),
            );
        let mut moves: Vec<Move> = Vec::new();
        let mut keys: Vec<u64> = Vec::new();
        let mut i: usize = 0;
        proof {
            assert(files@.take(0) =~= Seq::<FileRename>::empty());
            assert(moves.deep_view() =~= kept(files@.take(0), pick));
        }
        while i < files.len()
            invariant
                i <= files.len(),
                forall|i: int|
                    0 <= i < files.len() ==> byte_len((#[trigger] files@[i]).old_uri@) <= i32::MAX
                        && byte_len(files@[i].new_uri@) <= i32::MAX,
                pick == |file: FileRename|
                    move_of(
                        path_of_parts(uri_parts_of(file.old_uri@)),
                        path_of_parts(uri_parts_of(file.new_uri@)),
                    ),
                moves.deep_view() == kept(files@.take(i as int), pick),
                keys.len() == moves.len(),
                forall|k: int|
                    0 <= k < keys.len() ==> #[trigger] keys@[k] == u64::MAX
                        - moves.deep_view()[k].old.len(),
                forall|k: int|
                    0 <= k < moves.len() ==> is_path((#[trigger] moves.deep_view()[k]).old)
                        && is_path(moves.deep_view()[k].new),
            decreases files.len() - i,
        {
            let file = &files[i];
            proof {
                lemma_kept_step(files@, pick, i as int);
            }
            let old = path_of(file.old_uri.as_str());
            let new = path_of(file.new_uri.as_str());
            i = i + 1;
            if let (Some(old), Some(new)) = (old, new) {
                if !old.same(&new) {
                    let ghost before = moves.deep_view();
                    keys.push(u64::MAX - old.parts.len() as u64);
                    moves.push(Move { old, new });
                    proof {
                        let m = moves@.last().deep_view();
                        assert(moves.deep_view() =~= before.push(m));
                    }
                }
            }
        }
        proof {
            assert(files@.take(i as int) =~= files@);
        }
        if moves.len() == 0 {
            return None;
        }
        let ghost unsorted = moves.deep_view();
        let entries = sort_stable(moves, keys, Ghost(depth_key()));
        proof {
            law_sorted(unsorted, depth_key());
            assert forall|i: int| 0 <= i < entries.len() implies is_path(
                (#[trigger] entries.deep_view()[i]).old,
            ) && is_path(entries.deep_view()[i].new) by {
                let m = entries.deep_view()[i];
                vstd::seq_lib::to_multiset_contains(entries.deep_view(), m);
                vstd::seq_lib::to_multiset_contains(unsorted, m);
                assert(unsorted.contains(m));
            }
        }
        Some(RenameMap { entries })
    }

    /// Where `path` ends up.
    pub fn map(&self, path: &FilePath) -> (r: FilePath)
        ensures
            r.deep_view() == mapped(self.deep_view(), path.deep_view()),
    {
        let ghost all = self.deep_view();
        let ghost p = path.deep_view();
        let mut i: usize = 0;
        proof {
            assert(all.skip(0) =~= all);
        }
        while i < self.entries.len()
            invariant
                all == self.deep_view(),
                p == path.deep_view(),
                i <= all.len(),
                mapped(all, p) == mapped(all.skip(i as int), p),
            decreases all.len() - i,
        {
            let entry = &self.entries[i];
            proof {
                assert(all.skip(i as int)[0] == all[i as int]);
                assert(all.skip(i as int).drop_first() =~= all.skip(i + 1));
            }
            if leads(&entry.old, path) {
                let mut moved = entry.new.copy();
                let mut k: usize = entry.old.parts.len();
                let ghost head = entry.new.deep_view();
                let ghost cut = entry.old.deep_view().len() as int;
                proof {
                    assert(head + p.subrange(cut, cut) =~= head);
                }
                while k < path.parts.len()
                    invariant
                        p == path.deep_view(),
                        0 <= cut <= k <= p.len(),
                        moved.deep_view() == head + p.subrange(cut, k as int),
                    decreases p.len() - k,
                {
                    let ghost before = moved.deep_view();
                    moved.parts.push(path.parts[k].clone());
                    proof {
                        assert(moved.deep_view() =~= before.push(p[k as int]));
                        assert(before.push(p[k as int]) =~= head + p.subrange(cut, k + 1));
                    }
                    k = k + 1;
                }
                proof {
                    assert(p.subrange(cut, p.len() as int) =~= p.skip(cut));
                }
                return moved;
            }
            i = i + 1;
        }
        path.copy()
    }
}

/// Whether a path is one of a system that has drives, or has none.
pub open spec fn is_path_with(path: Seq<Seq<char>>, drives: bool) -> bool {
    is_path(path) && is_rooted(path) == drives
}

/// Whether moves are between paths of a system that has drives, or has none.
pub open spec fn are_moves_with(moves: Seq<MoveView>, drives: bool) -> bool {
    forall|i: int|
        0 <= i < moves.len() ==> is_path_with((#[trigger] moves[i]).old, drives) && is_path_with(
            moves[i].new,
            drives,
        )
}

/// The result of a move is a path of the same system.
pub proof fn lemma_mapped_path(moves: Seq<MoveView>, path: Seq<Seq<char>>, drives: bool)
    requires
        is_path_with(path, drives),
        are_moves_with(moves, drives),
    ensures
        is_path_with(mapped(moves, path), drives),
    decreases moves.len(),
{
    if moves.len() > 0 {
        if moves[0].old.is_prefix_of(path) {
            let r = mapped(moves, path);
            let new = moves[0].new;
            let n = new.len() as int;
            let cut = moves[0].old.len() as int;
            assert(is_path_with(new, drives));
            assert forall|i: int| n <= i < r.len() implies is_component(#[trigger] r[i]) && (drives
                ==> is_slash_free(r[i])) by {
                assert(r[i] == path[i - n + cut]);
            }
            if n > 0 {
                assert(r[0] == new[0]);
            } else if r.len() > 0 {
                lemma_component_end(r[0]);
            }
            assert forall|i: int| (if drives {
                1
            } else {
                0int
            }) <= i < r.len() implies is_component(#[trigger] r[i]) && (drives ==> is_slash_free(
                r[i],
            )) by {
                if i < n {
                    assert(r[i] == new[i]);
                }
            }
        } else {
            let rest = moves.drop_first();
            assert forall|i: int| 0 <= i < rest.len() implies is_path_with(
                (#[trigger] rest[i]).old,
                drives,
            ) && is_path_with(rest[i].new, drives) by {
                assert(rest[i] == moves[i + 1]);
            }
            lemma_mapped_path(rest, path, drives);
        }
    }
}

/// The most specific move wins, and moves never chain: where move `k` covers a
/// path and every other move that does has a shallower old path, the path goes
/// where move `k` says, whatever the other moves make of that place.
pub proof fn law_most_specific_wins(moves: Seq<MoveView>, path: Seq<Seq<char>>, k: int)
    requires
        ascending(moves, depth_key()),
        0 <= k < moves.len(),
        moves[k].old.is_prefix_of(path),
        forall|i: int|
            0 <= i < moves.len() && i != k && (#[trigger] moves[i]).old.is_prefix_of(path)
                ==> moves[i].old.len() < moves[k].old.len(),
    ensures
        mapped(moves, path) == moves[k].new + path.skip(moves[k].old.len() as int),
    decreases moves.len(),
{
    if k > 0 {
        assert(!moves[0].old.is_prefix_of(path)) by {
            assert(depth_key()(moves[0]) <= depth_key()(moves[k]));
        }
        let rest = moves.drop_first();
        assert forall|i: int, j: int| 0 <= i <= j < rest.len() implies depth_key()(
            #[trigger] rest[i],
        ) <= depth_key()(#[trigger] rest[j]) by {
            assert(depth_key()(moves[i + 1]) <= depth_key()(moves[j + 1]));
        }
        assert forall|i: int|
            0 <= i < rest.len() && i != k - 1 && (#[trigger] rest[i]).old.is_prefix_of(
                path,
            ) implies rest[i].old.len() < rest[k - 1].old.len() by {
            assert(rest[i] == moves[i + 1]);
        }
        law_most_specific_wins(rest, path, k - 1);
    }
}

/// A path that no move covers stays where it is.
pub proof fn law_uncovered_path_stays(moves: Seq<MoveView>, path: Seq<Seq<char>>)
    requires
        forall|i: int| 0 <= i < moves.len() ==> !(#[trigger] moves[i]).old.is_prefix_of(path),
    ensures
        mapped(moves, path) == path,
    decreases moves.len(),
{
    if moves.len() > 0 {
        let rest = moves.drop_first();
        assert forall|i: int| 0 <= i < rest.len() implies !(#[trigger] rest[i]).old.is_prefix_of(
            path,
        ) by {
            assert(rest[i] == moves[i + 1]);
        }
        assert(!moves[0].old.is_prefix_of(path));
        law_uncovered_path_stays(rest, path);
    }
}

/// Whether a character has to be escaped in a string literal.
pub open spec fn needs_escape(c: char) -> bool {
    c == '\\' || c == '"' || c == '$'
}

/// A path as the content of a double-quoted string literal.
pub open spec fn escaped(path: Seq<char>) -> Seq<char>
    decreases path.len(),
{
    if path.len() == 0 {
        Seq::empty()
    } else {
        let before = escaped(path.drop_last());
        if needs_escape(path.last()) {
            before.push('\\').push(path.last())
        } else {
            before.push(path.last())
        }
    }
}

/// What the content of a literal denotes, where every escape stands for the
/// character behind the backslash.
pub open spec fn unescaped(content: Seq<char>) -> Seq<char>
    decreases content.len(),
{
    if content.len() == 0 {
        Seq::empty()
    } else if content[0] == '\\' && content.len() > 1 {
        seq![content[1]] + unescaped(content.skip(2))
    } else {
        seq![content[0]] + unescaped(content.skip(1))
    }
}

proof fn lemma_escaped_front(path: Seq<char>)
    requires
        path.len() > 0,
    ensures
        escaped(path) == (if needs_escape(path[0]) {
            seq!['\\', path[0]]
        } else {
            seq![path[0]]
        }) + escaped(path.drop_first()),
    decreases path.len(),
{
    let head = if needs_escape(path[0]) {
        seq!['\\', path[0]]
    } else {
        seq![path[0]]
    };
    let t = path.drop_first();
    if t.len() == 0 {
        assert(path.drop_last() =~= Seq::<char>::empty());
        assert(escaped(path.drop_last()) =~= Seq::<char>::empty());
        assert(escaped(t) =~= Seq::<char>::empty());
        assert(escaped(path) =~= head + escaped(t));
    } else {
        lemma_escaped_front(path.drop_last());
        assert(path.drop_last().drop_first() =~= t.drop_last());
        assert(escaped(path) =~= head + escaped(t));
    }
}

/// A path survives the way into a literal and back.
pub proof fn law_escape_round_trip(path: Seq<char>)
    ensures
        unescaped(escaped(path)) == path,
    decreases path.len(),
{
    if path.len() > 0 {
        let t = path.drop_first();
        lemma_escaped_front(path);
        law_escape_round_trip(t);
        let e = escaped(path);
        if needs_escape(path[0]) {
            assert(e.skip(2) =~= escaped(t));
        } else {
            assert(e.skip(1) =~= escaped(t));
        }
        assert(seq![path[0]] + t =~= path);
    }
}

/// `path` as the content of a double-quoted string literal.
pub fn escape_literal(path: &str) -> (r: String)
    ensures
        r@ == escaped(path@),
{
    let chars = chars_of(path);
    let mut out = String::new();
    let mut i: usize = 0;
    proof {
        assert(path@.take(0) =~= Seq::<char>::empty());
    }
    while i < chars.len()
        invariant
            chars@ == path@,
            i <= chars.len(),
            out@ == escaped(path@.take(i as int)),
        decreases chars.len() - i,
    {
        let c = chars[i];
        proof {
            assert(path@.take(i + 1).drop_last() =~= path@.take(i as int));
        }
        if c == '\\' || c == '"' || c == '$' {
            out.push('\\');
        }
        out.push(c);
        i = i + 1;
    }
    proof {
        assert(path@.take(i as int) =~= path@);
    }
    out
}

/// The spelling of a moved target: from the root on where it was so before, the
/// target is on another drive, or it is the new directory itself; else from the new
/// directory, with a leading `./` kept unless the way leads up.
pub open spec fn new_spelling(
    path: Seq<char>,
    drives: bool,
    new_dir: Seq<Seq<char>>,
    new_target: Seq<Seq<char>>,
) -> Seq<char> {
    let steps = steps_between(new_dir, new_target);
    if is_absolute(path, drives) || !same_root(new_dir, new_target) || steps.len() == 0 {
        spelled(new_target)
    } else {
        let relative = separated(steps, "/"@);
        if "./"@.is_prefix_of(path) && !"../"@.is_prefix_of(relative) {
            "./"@ + relative
        } else {
            relative
        }
    }
}

/// What the literal that denotes `path` becomes, in a file whose directory goes
/// from `old_dir` to `new_dir`, or `None` where it stays as it is: it is empty,
/// the move touches neither end of it, or it is spelled as it would be already.
pub open spec fn rewritten(
    path: Seq<char>,
    old_dir: Seq<Seq<char>>,
    new_dir: Seq<Seq<char>>,
    moves: Seq<MoveView>,
) -> Option<Seq<char>> {
    let drives = is_rooted(old_dir);
    let old_target = resolved(path, Some(old_dir))->0;
    let new_target = mapped(moves, old_target);
    let spelling = new_spelling(path, drives, new_dir, new_target);
    if path.len() == 0 {
        None
    } else if new_target == old_target && (new_dir == old_dir || is_absolute(path, drives)) {
        None
    } else if spelling == path {
        None
    } else {
        Some(escaped(spelling))
    }
}

/// A leading `./` does not change what a relative spelling names.
proof fn lemma_dotted(relative: Seq<char>, base: Seq<Seq<char>>)
    requires
        !leads_with_slash(relative),
        !is_absolute(relative, is_rooted(base)),
        is_rooted(base) ==> slashed(relative) == relative,
    ensures
        resolved("./"@ + relative, Some(base)) == resolved(relative, Some(base)),
{
    reveal_strlit("./");
    reveal_strlit(".");
    let dot = "."@;
    let text = "./"@ + relative;
    assert(dot =~= seq!['.']);
    assert(text =~= dot + seq!['/'] + relative);
    lemma_pieces_concat(dot, relative, '/');
    assert(pieces(dot, '/') =~= seq![dot]) by {
        reveal_with_fuel(pieces, 2);
        assert(dot.drop_last() =~= Seq::<char>::empty());
        assert(Seq::<char>::empty().push('.') =~= dot);
    }
    lemma_walked_split(base, seq![dot], pieces(relative, '/'));
    assert(walked(base, seq![dot]) == base) by {
        reveal_with_fuel(walked, 2);
        assert(seq![dot].drop_last() =~= Seq::<Seq<char>>::empty());
        assert(seq![dot].last() == dot);
    }
    if is_rooted(base) {
        assert forall|i: int| 0 <= i < text.len() implies #[trigger] slashed(text)[i] == text[i] by {
            if i >= 2 {
                assert(slashed(relative)[i - 2] == relative[i - 2]);
            }
        }
        assert(slashed(text) =~= text);
        assert(pieces(text, '/')[0] == dot);
    }
}

/// A rewritten literal denotes the place its target moved to, seen from the
/// directory that the file moved to, on a system with drives as on one without.
/// A literal that would begin with a folder called like a drive is left out.
pub proof fn law_rewritten_denotes_target(
    path: Seq<char>,
    old_dir: Seq<Seq<char>>,
    new_dir: Seq<Seq<char>>,
    moves: Seq<MoveView>,
    drives: bool,
)
    requires
        is_path_with(old_dir, drives),
        is_path_with(new_dir, drives),
        are_moves_with(moves, drives),
        rewritten(path, old_dir, new_dir, moves) is Some,
        steps_name_drive(new_dir, mapped(moves, resolved(path, Some(old_dir))->0)) ==> is_absolute(
            path,
            drives,
        ),
    ensures
        resolved(unescaped(rewritten(path, old_dir, new_dir, moves)->0), Some(new_dir)) == Some(
            mapped(moves, resolved(path, Some(old_dir))->0),
        ),
{
    let old_target = resolved(path, Some(old_dir))->0;
    let target = mapped(moves, old_target);
    lemma_resolved_path(path, Some(old_dir));
    lemma_mapped_path(moves, old_target, drives);
    let spelling = new_spelling(path, drives, new_dir, target);
    law_escape_round_trip(spelling);
    law_absolute_spelling_resolves(target, Some(new_dir));
    if !is_absolute(path, drives) && same_root(new_dir, target) {
        let steps = steps_between(new_dir, target);
        if steps.len() > 0 {
            law_relative_spelling_resolves(new_dir, target);
            law_steps_spelling_is_relative(new_dir, target);
            lemma_steps_spelling(new_dir, target);
            lemma_dotted(separated(steps, "/"@), new_dir);
        }
    }
}

/// What the literal that denotes `path` becomes, or `None` to leave it alone.
pub fn rewritten_literal(
    path: &str,
    old_dir: &FilePath,
    new_dir: &FilePath,
    map: &RenameMap,
) -> (r: Option<String>)
    ensures
        r.deep_view() == rewritten(
            path@,
            old_dir.deep_view(),
            new_dir.deep_view(),
            map.deep_view(),
        ),
{
    if path.is_empty() {
        return None;
    }
    let was_absolute = spells_root(path, old_dir.has_root());
    let dotted = starts_with(path, "./");
    let old_target = match resolve_target(path, Some(old_dir)) {
        Some(target) => target,
        None => {
            return None;
        },
    };
    let new_target = map.map(&old_target);
    let unmoved = new_target.same(&old_target);
    if unmoved && (was_absolute || new_dir.same(old_dir)) {
        return None;
    }
    let relative = if was_absolute {
        None
    } else {
        relative_spelling(new_dir, &new_target)
    };
    let spelling = match relative {
        Some(relative) => if dotted && !starts_with(relative.as_str(), "../") {
            cat("./", relative.as_str())
        } else {
            relative
        },
        None => match absolute_spelling(&new_target) {
            Some(spelling) => spelling,
            None => {
                return None;
            },
        },
    };
    if same_text(spelling.as_str(), path) {
        None
    } else {
        Some(escape_literal(spelling.as_str()))
    }
}

/// The edits of one file, under its path before the move.
#[derive(Debug)]
pub struct FileEdits {
    pub path: FilePath,
    pub edits: Vec<TextEdit>,
}

/// What [`FileEdits`] say.
pub struct FileEditsView {
    pub path: Seq<Seq<char>>,
    pub edits: Seq<TextEditView>,
}

impl DeepView for FileEdits {
    type V = FileEditsView;

    open spec fn deep_view(&self) -> FileEditsView {
        FileEditsView { path: self.path.deep_view(), edits: self.edits.deep_view() }
    }
}

/// Where an edit begins, as one number: line before column.
pub open spec fn start_key() -> spec_fn(TextEditView) -> int {
    |edit: TextEditView|
        edit.range.start.line * 0x1_0000_0000 + edit.range.start.character
}

/// Edits in the order of the document, one for each place.
pub open spec fn tidy(edits: Seq<TextEditView>) -> Seq<TextEditView> {
    deduped(stable_sorted(edits, start_key()), start_key())
}

/// Tidy edits begin at ascending places, no two at one.
pub proof fn law_tidy_ascends(edits: Seq<TextEditView>)
    ensures
        strictly_ascending(tidy(edits), start_key()),
{
    law_sorted(edits, start_key());
    law_deduped_ascends(stable_sorted(edits, start_key()), start_key());
}

/// Tidying leaves an edit wherever there was one.
pub proof fn law_tidy_keeps(edits: Seq<TextEditView>, i: int) -> (j: int)
    requires
        0 <= i < edits.len(),
    ensures
        0 <= j < tidy(edits).len(),
        tidy(edits)[j].range.start == edits[i].range.start,
{
    broadcast use vstd::seq_lib::group_to_multiset_ensures;

    let sorted = stable_sorted(edits, start_key());
    law_sorted(edits, start_key());
    assert(edits.to_multiset().count(edits[i]) > 0) by {
        assert(edits.contains(edits[i]));
    }
    assert(sorted.contains(edits[i]));
    let k = choose|k: int| 0 <= k < sorted.len() && sorted[k] == edits[i];
    law_deduped_keeps(sorted, start_key(), k)
}

/// Tidying brings in no edit.
pub proof fn law_tidy_from(edits: Seq<TextEditView>, j: int) -> (i: int)
    requires
        0 <= j < tidy(edits).len(),
    ensures
        0 <= i < edits.len(),
        tidy(edits)[j] == edits[i],
{
    broadcast use vstd::seq_lib::group_to_multiset_ensures;

    let sorted = stable_sorted(edits, start_key());
    law_sorted(edits, start_key());
    let k = law_deduped_from(sorted, start_key(), j);
    assert(sorted.to_multiset().count(sorted[k]) > 0) by {
        assert(sorted.contains(sorted[k]));
    }
    assert(edits.contains(sorted[k]));
    choose|i: int| 0 <= i < edits.len() && edits[i] == sorted[k]
}

/// Changes with more edits for one file.
pub open spec fn with_edits(
    changes: Seq<FileEditsView>,
    path: Seq<Seq<char>>,
    edits: Seq<TextEditView>,
) -> Seq<FileEditsView> {
    let at = first_index(changes, |c: FileEditsView| c.path == path);
    if edits.len() == 0 {
        changes
    } else if at < changes.len() {
        changes.update(at, FileEditsView { path, edits: tidy(changes[at].edits + edits) })
    } else {
        changes.push(FileEditsView { path, edits: tidy(edits) })
    }
}

fn start_keys(edits: &Vec<TextEdit>) -> (r: Vec<u64>)
    ensures
        keys_agree(r@, edits.deep_view(), start_key()),
{
    let mut keys: Vec<u64> = Vec::new();
    let mut i: usize = 0;
    while i < edits.len()
        invariant
            i <= edits.len(),
            keys.len() == i,
            forall|k: int|
                0 <= k < i ==> #[trigger] keys@[k] == start_key()(edits.deep_view()[k]),
        decreases edits.len() - i,
    {
        let start = edits[i].range.start;
        keys.push(start.line as u64 * 0x1_0000_0000 + start.character as u64);
        i = i + 1;
    }
    keys
}

/// Puts edits in the order of the document, one for each place.
pub fn sort_edits(edits: Vec<TextEdit>) -> (r: Vec<TextEdit>)
    ensures
        r.deep_view() == tidy(edits.deep_view()),
{
    let keys = start_keys(&edits);
    let sorted = sort_stable(edits, keys, Ghost(start_key()));
    let keys = start_keys(&sorted);
    dedup_by_key(sorted, keys, Ghost(start_key()))
}

/// Adds edits for the file at `path`, in the order of the document and without a
/// second edit for one place.
pub fn insert_edits(changes: &mut Vec<FileEdits>, path: &FilePath, edits: Vec<TextEdit>)
    ensures
        final(changes).deep_view() == with_edits(
            old(changes).deep_view(),
            path.deep_view(),
            edits.deep_view(),
        ),
{
    if edits.len() == 0 {
        return;
    }
    let ghost before = changes.deep_view();
    let ghost here = |c: FileEditsView| c.path == path.deep_view();
    let mut at: usize = 0;
    while at < changes.len() && !changes[at].path.same(path)
        invariant
            at <= changes.len(),
            changes.deep_view() == before,
            here == |c: FileEditsView| c.path == path.deep_view(),
            forall|k: int| 0 <= k < at ==> !here(#[trigger] before[k]),
        decreases changes.len() - at,
    {
        at = at + 1;
    }
    proof {
        lemma_first_index_is(before, here, at as int);
    }
    let mut combined: Vec<TextEdit> = Vec::new();
    let known = at < changes.len();
    let mut edits = edits;
    let ghost added = edits.deep_view();
    if known {
        combined.append(&mut changes[at].edits);
        proof {
            assert(combined.deep_view() =~= before[at as int].edits);
        }
    } else {
        proof {
            assert(combined.deep_view() =~= Seq::<TextEditView>::empty());
        }
    }
    let ghost held = combined.deep_view();
    combined.append(&mut edits);
    proof {
        assert(combined.deep_view() =~= held + added);
        assert(Seq::<TextEditView>::empty() + added =~= added);
    }
    let entry = FileEdits { path: path.copy(), edits: sort_edits(combined) };
    let ghost view = entry.deep_view();
    if known {
        changes[at] = entry;
        proof {
            assert(changes.deep_view() =~= before.update(at as int, view));
        }
    } else {
        changes.push(entry);
        proof {
            assert(changes.deep_view() =~= before.push(view));
        }
    }
}

/// A static `include` in a file: what it denotes, and where the content of its
/// literal stands.
#[derive(Debug)]
pub struct IncludeSite {
    pub path: String,
    pub content: Option<TextRange>,
}

/// A file whose includes a batch could disturb.
#[derive(Debug)]
pub struct ScannedFile {
    pub text: String,
    /// The targets of its includes, where they are known.
    pub targets: Vec<Option<FilePath>>,
    pub sites: Vec<IncludeSite>,
}

/// The edit that one include needs, if any.
pub open spec fn site_edit(
    s: Seq<char>,
    site: IncludeSite,
    old_dir: Seq<Seq<char>>,
    new_dir: Seq<Seq<char>>,
    moves: Seq<MoveView>,
    encoding: PositionEncoding,
) -> Option<TextEditView> {
    match (site.content, rewritten(site.path@, old_dir, new_dir, moves)) {
        (Some(content), Some(new_text)) => Some(
            TextEditView {
                range: range_at(s, content.start as int, content.end as int, encoding),
                new_text,
            },
        ),
        _ => None,
    }
}

/// Whether a batch moves a file or one of the targets of its includes.
pub open spec fn disturbed(
    path: Seq<Seq<char>>,
    file: ScannedFile,
    moves: Seq<MoveView>,
) -> bool {
    ||| mapped(moves, path) != path
    ||| exists|i: int| #[trigger]
        target_moves(file, moves, i)
}

/// Whether a batch moves the target of include `i` of a file.
pub open spec fn target_moves(file: ScannedFile, moves: Seq<MoveView>, i: int) -> bool {
    &&& 0 <= i < file.targets.len()
    &&& file.targets@[i] is Some
    &&& mapped(moves, file.targets@[i]->0.deep_view()) != file.targets@[i]->0.deep_view()
}

/// The edits that the includes of the file at `path` need.
pub open spec fn file_edits(
    path: Seq<Seq<char>>,
    file: ScannedFile,
    moves: Seq<MoveView>,
    encoding: PositionEncoding,
) -> Seq<TextEditView> {
    let new_path = mapped(moves, path);
    match (parent_of(path), parent_of(new_path)) {
        (Some(old_dir), Some(new_dir)) => if disturbed(path, file, moves) {
            kept(
                file.sites@,
                |site: IncludeSite|
                    site_edit(file.text@, site, old_dir, new_dir, moves, encoding),
            )
        } else {
            Seq::empty()
        },
        _ => Seq::empty(),
    }
}

/// The changes that the includes of all files to scan need; the handle of each is
/// its place among `files`.
pub open spec fn include_changes(
    scan: Seq<ScanEntryView>,
    files: Seq<ScannedFile>,
    moves: Seq<MoveView>,
    encoding: PositionEncoding,
) -> Seq<FileEditsView>
    decreases scan.len(),
{
    if scan.len() == 0 {
        Seq::empty()
    } else {
        with_edits(
            include_changes(scan.drop_last(), files, moves, encoding),
            scan.last().path,
            file_edits(scan.last().path, files[scan.last().file as int], moves, encoding),
        )
    }
}

fn is_disturbed(
    path: &FilePath,
    file: &ScannedFile,
    new_path: &FilePath,
    map: &RenameMap,
) -> (r: bool)
    requires
        new_path.deep_view() == mapped(map.deep_view(), path.deep_view()),
    ensures
        r == disturbed(path.deep_view(), *file, map.deep_view()),
{
    if !new_path.same(path) {
        return true;
    }
    let mut i: usize = 0;
    while i < file.targets.len()
        invariant
            i <= file.targets.len(),
            forall|k: int| 0 <= k < i ==> !#[trigger] target_moves(*file, map.deep_view(), k),
        decreases file.targets.len() - i,
    {
        if let Some(target) = &file.targets[i] {
            if !map.map(target).same(target) {
                proof {
                    assert(target_moves(*file, map.deep_view(), i as int));
                }
                return true;
            }
        }
        i = i + 1;
    }
    proof {
        assert forall|k: int| !#[trigger] target_moves(*file, map.deep_view(), k) by {
            if 0 <= k < i {
                assert(!target_moves(*file, map.deep_view(), k));
            }
        }
    }
    false
}

/// The edits that the includes of the file at `path` need.
pub fn include_edits(
    path: &FilePath,
    file: &ScannedFile,
    map: &RenameMap,
    encoding: PositionEncoding,
) -> (r: Vec<TextEdit>)
    requires
        fits(file.text@),
    ensures
        r.deep_view() == file_edits(path.deep_view(), *file, map.deep_view(), encoding),
{
    let ghost moves = map.deep_view();
    let mut edits: Vec<TextEdit> = Vec::new();
    let new_path = map.map(path);
    proof {
        assert(edits.deep_view() =~= Seq::<TextEditView>::empty());
    }
    if !is_disturbed(path, file, &new_path, map) {
        return edits;
    }
    let (old_dir, new_dir) = match (path.parent(), new_path.parent()) {
        (Some(old_dir), Some(new_dir)) => (old_dir, new_dir),
        _ => {
            return edits;
        },
    };
    let line_index = LineIndex::new(file.text.as_str());
    let ghost pick = |site: IncludeSite|
        site_edit(file.text@, site, old_dir.deep_view(), new_dir.deep_view(), moves, encoding);
    let mut i: usize = 0;
    proof {
        assert(file.sites@.take(0) =~= Seq::<IncludeSite>::empty());
    }
    while i < file.sites.len()
        invariant
            i <= file.sites.len(),
            moves == map.deep_view(),
            line_index.wf(),
            line_index@ == file.text@,
            pick == |site: IncludeSite|
                site_edit(
                    file.text@,
                    site,
                    old_dir.deep_view(),
                    new_dir.deep_view(),
                    moves,
                    encoding,
                ),
            edits.deep_view() == kept(file.sites@.take(i as int), pick),
        decreases file.sites.len() - i,
    {
        let site = &file.sites[i];
        proof {
            lemma_kept_step(file.sites@, pick, i as int);
        }
        i = i + 1;
        if let Some(content) = site.content {
            if let Some(new_text) = rewritten_literal(site.path.as_str(), &old_dir, &new_dir, map) {
                let ghost before = edits.deep_view();
                edits.push(
                    TextEdit {
                        range: line_index.range(
                            content.start as usize,
                            content.end as usize,
                            encoding,
                        ),
                        new_text,
                    },
                );
                proof {
                    assert(edits.deep_view() =~= before.push(edits@.last().deep_view()));
                }
            }
        }
    }
    proof {
        assert(file.sites@.take(i as int) =~= file.sites@);
    }
    edits
}

/// How the parser reads a name: whether it found fault with it, and the items it
/// made of it, with the text of those that are plain names.
#[derive(Debug)]
pub struct NameParse {
    pub clean: bool,
    pub items: Vec<Option<String>>,
}

/// Whether `name` can name a package, given how the parser reads it: as one plain
/// name that is not made of underscores alone.
pub open spec fn can_name_package(name: Seq<char>, parsed: NameParse) -> bool {
    &&& parsed.clean
    &&& exists|i: int| 0 <= i < name.len() && #[trigger] name[i] != '_'
    &&& parsed.items.deep_view() == seq![Some(name)]
}

/// Whether `name` can name a package, given how the parser reads it.
pub fn is_package_name(name: &str, parsed: &NameParse) -> (r: bool)
    ensures
        r == can_name_package(name@, *parsed),
{
    let ghost items = parsed.items.deep_view();
    if !parsed.clean {
        return false;
    }
    let chars = chars_of(name);
    let mut i: usize = 0;
    while i < chars.len() && chars[i] == '_'
        invariant
            chars@ == name@,
            i <= chars.len(),
            forall|k: int| 0 <= k < i ==> #[trigger] name@[k] == '_',
        decreases chars.len() - i,
    {
        i = i + 1;
    }
    if i == chars.len() {
        return false;
    }
    proof {
        assert(name@[i as int] != '_');
    }
    if parsed.items.len() != 1 {
        proof {
            assert(items.len() != 1);
        }
        return false;
    }
    proof {
        assert(items[0] == parsed.items@[0].deep_view());
    }
    match &parsed.items[0] {
        Some(text) => {
            let same = same_text(text.as_str(), name);
            proof {
                if same {
                    assert(items =~= seq![Some(name@)]);
                }
            }
            same
        },
        None => false,
    }
}

/// The name in a project file, with the bytes of its value.
#[derive(Debug)]
pub struct SpannedName {
    pub value: String,
    pub start: usize,
    pub end: usize,
}

/// A package's project file, as the workspace holds it.
#[derive(Debug)]
pub struct PackageProject {
    /// Its path, where it has one on disk.
    pub path: Option<FilePath>,
    pub text: String,
    /// Its name, where the text reads as a project that has one.
    pub name: Option<SpannedName>,
    pub has_uuid: bool,
}

/// Whether a file name is that of a project file.
pub open spec fn names_project_file(name: Seq<char>) -> bool {
    name == "Project.toml"@ || name == "JuliaProject.toml"@
}

/// The entry file of the package `name` with its project file in `root`.
pub open spec fn entry_of(root: Seq<Seq<char>>, name: Seq<char>) -> Seq<Seq<char>> {
    root.push("src"@).push(name + ".jl"@)
}

/// The new name of a package whose entry file a batch renames within its source
/// directory, or `None` where a name cannot repair the move or none is needed.
pub open spec fn new_package_name(project: PackageProject, moves: Seq<MoveView>) -> Option<
    Seq<char>,
> {
    match (project.path, project.name) {
        (Some(path), Some(name)) => {
            let old_path = path.deep_view();
            let new_path = mapped(moves, old_path);
            let new_entry = mapped(moves, entry_of(old_path.drop_last(), name.value@));
            if project.has_uuid && parent_of(old_path) is Some && parent_of(new_path) is Some
                && names_project_file(new_path.last()) && parent_of(new_entry) == Some(
                new_path.drop_last().push("src"@),
            ) && stem_and_extension(new_entry.last()).1 == Some("jl"@)
                && stem_and_extension(new_entry.last()).0 != name.value@ {
                Some(stem_and_extension(new_entry.last()).0)
            } else {
                None
            }
        },
        _ => None,
    }
}

/// The entry file of a package.
fn entry_path(root: &FilePath, name: &str) -> (r: FilePath)
    ensures
        r.deep_view() == entry_of(root.deep_view(), name@),
{
    let file = cat(name, ".jl");
    root.join("src").join(file.as_str())
}

/// The new name of a package whose entry file a batch renames.
pub fn renamed_package(project: &PackageProject, map: &RenameMap) -> (r: Option<String>)
    ensures
        r.deep_view() == new_package_name(*project, map.deep_view()),
{
    let (path, name) = match (&project.path, &project.name) {
        (Some(path), Some(name)) => (path, name),
        _ => {
            return None;
        },
    };
    if !project.has_uuid {
        return None;
    }
    let new_path = map.map(path);
    let (root, new_root) = match (path.parent(), new_path.parent()) {
        (Some(root), Some(new_root)) => (root, new_root),
        _ => {
            return None;
        },
    };
    let file_name = &new_path.parts[new_path.parts.len() - 1];
    proof {
        assert(new_path.deep_view().last() == file_name@);
    }
    if !(same_text(file_name.as_str(), "Project.toml") || same_text(
        file_name.as_str(),
        "JuliaProject.toml",
    )) {
        return None;
    }
    let entry = entry_path(&root, name.value.as_str());
    let new_entry = map.map(&entry);
    let new_dir = match new_entry.parent() {
        Some(dir) => dir,
        None => {
            return None;
        },
    };
    if !new_dir.same(&new_root.join("src")) {
        return None;
    }
    let last = &new_entry.parts[new_entry.parts.len() - 1];
    proof {
        assert(new_entry.deep_view().last() == last@);
    }
    let (stem, extension) = split_extension(last.as_str());
    match extension {
        Some(extension) => {
            if same_text(extension.as_str(), "jl") && !same_text(
                stem.as_str(),
                name.value.as_str(),
            ) {
                Some(stem)
            } else {
                None
            }
        },
        None => None,
    }
}

/// The name of a module that stands at the top of a file.
#[derive(Debug)]
pub struct ModuleName {
    pub name: String,
    pub range: TextRange,
}

/// What a [`ModuleName`] says.
pub struct ModuleNameView {
    pub name: Seq<char>,
    pub range: TextRange,
}

impl DeepView for ModuleName {
    type V = ModuleNameView;

    open spec fn deep_view(&self) -> ModuleNameView {
        ModuleNameView { name: self.name@, range: self.range }
    }
}

/// A file that the workspace holds.
#[derive(Debug)]
pub struct MemberFile {
    pub path: FilePath,
    pub text: String,
    /// Whether the parser found no fault with it.
    pub clean: bool,
    pub tree: SyntaxTree,
}

impl MemberFile {
    /// The text fits and the tree is one.
    pub open spec fn wf(&self) -> bool {
        &&& fits(self.text@)
        &&& self.tree.wf()
    }
}

/// The last node directly under `node` before element `i`.
pub open spec fn child_before(t: Seq<Element>, node: int, i: int) -> Option<int>
    decreases i,
{
    if i <= node + 1 || i <= 0 {
        None
    } else if t[i - 1].parent == node && !t[i - 1].is_token {
        Some(i - 1)
    } else {
        child_before(t, node, i - 1)
    }
}

/// What an item at the top of a file is once its docstring is taken off: a
/// documented item holds what it documents as its last node.
pub open spec fn documented(t: Seq<Element>, item: int) -> Option<int> {
    if t[item].kind == SyntaxKind::DOC_ATTACHMENT {
        child_before(t, item, t[item].end as int)
    } else {
        Some(item)
    }
}

/// The name of the module that a node defines, where it is a plain name.
pub open spec fn module_name(s: Seq<char>, t: Seq<Element>, node: int) -> Option<ModuleNameView> {
    if t[node].kind == SyntaxKind::MODULE_DEF {
        match signature_of(t, node) {
            Some(signature) => {
                let head = head_of(t, signature);
                if t[head].kind == SyntaxKind::NAME {
                    match node_text(s, t, head) {
                        Some(name) => Some(ModuleNameView { name, range: t[head].range }),
                        None => None,
                    }
                } else {
                    None
                }
            },
            None => None,
        }
    } else {
        None
    }
}

/// The name of the module that element `i` puts at the top of a file.
pub open spec fn top_module(s: Seq<char>, t: Seq<Element>, i: int) -> Option<ModuleNameView> {
    if i > 0 && t[i].parent == 0 && !t[i].is_token {
        match documented(t, i) {
            Some(item) => module_name(s, t, item),
            None => None,
        }
    } else {
        None
    }
}

/// The names of the modules that the first `n` elements put at the top of a file.
pub open spec fn modules_before(s: Seq<char>, t: Seq<Element>, n: int) -> Seq<ModuleNameView>
    decreases n,
{
    if n <= 0 {
        Seq::empty()
    } else {
        match top_module(s, t, n - 1) {
            Some(module) => modules_before(s, t, n - 1).push(module),
            None => modules_before(s, t, n - 1),
        }
    }
}

/// The names of the modules at the top of a file, documented ones among them.
pub open spec fn modules_at_top(s: Seq<char>, t: Seq<Element>) -> Seq<ModuleNameView> {
    modules_before(s, t, t.len() as int)
}

fn last_child(tree: &SyntaxTree, node: usize) -> (r: Option<usize>)
    requires
        tree.wf(),
        node < tree.elements.len(),
    ensures
        match r {
            Some(i) => child_before(tree@, node as int, tree@[node as int].end as int) == Some(
                i as int,
            ) && i < tree.elements.len(),
            None => child_before(tree@, node as int, tree@[node as int].end as int) is None,
        },
{
    proof {
        lemma_ends_bounded(tree@, node as int);
    }
    let end = tree.elements[node].end;
    let mut i: usize = end;
    while i > node + 1
        invariant
            node < tree.elements.len(),
            i <= end <= tree.elements.len(),
            end == tree@[node as int].end,
            child_before(tree@, node as int, end as int) == child_before(
                tree@,
                node as int,
                i as int,
            ),
        decreases i,
    {
        let e = tree.elements[i - 1];
        if e.parent == node && !e.is_token {
            return Some(i - 1);
        }
        i = i - 1;
    }
    None
}

fn name_of_module(tree: &SyntaxTree, node: usize, line_index: &LineIndex) -> (r: Option<ModuleName>)
    requires
        tree.wf(),
        node < tree.elements.len(),
        line_index.wf(),
    ensures
        r.deep_view() == module_name(line_index@, tree@, node as int),
{
    match tree.elements[node].kind {
        SyntaxKind::MODULE_DEF => {},
        _ => {
            return None;
        },
    }
    let signature = match signature_expr(tree, node) {
        Some(signature) => signature,
        None => {
            return None;
        },
    };
    let head = unwrap_head(tree, signature);
    let e = tree.elements[head];
    match e.kind {
        SyntaxKind::NAME => match line_index.slice(
            e.range.start as usize,
            e.range.end as usize,
        ) {
            Some(name) => Some(ModuleName { name, range: e.range }),
            None => None,
        },
        _ => None,
    }
}

/// The names of the modules at the top of `text`, whose tree is `tree`, documented
/// ones among them, in order.
pub fn top_modules(text: &str, tree: &SyntaxTree) -> (r: Vec<ModuleName>)
    requires
        fits(text@),
        tree.wf(),
    ensures
        r.deep_view() == modules_at_top(text@, tree@),
{
    let line_index = LineIndex::new(text);
    let mut out: Vec<ModuleName> = Vec::new();
    let mut i: usize = 0;
    proof {
        assert(out.deep_view() =~= Seq::<ModuleNameView>::empty());
    }
    while i < tree.elements.len()
        invariant
            tree.wf(),
            line_index.wf(),
            line_index@ == text@,
            i <= tree.elements.len(),
            out.deep_view() == modules_before(text@, tree@, i as int),
        decreases tree.elements.len() - i,
    {
        let e = tree.elements[i];
        let at = i;
        i = i + 1;
        if at > 0 && e.parent == 0 && !e.is_token {
            let item = match e.kind {
                SyntaxKind::DOC_ATTACHMENT => last_child(tree, at),
                _ => Some(at),
            };
            if let Some(item) = item {
                if let Some(module) = name_of_module(tree, item, &line_index) {
                    let ghost before = out.deep_view();
                    out.push(module);
                    proof {
                        assert(out.deep_view() =~= before.push(module.deep_view()));
                    }
                }
            }
        }
    }
    out
}

/// The edit that gives a module its new name.
pub open spec fn module_edit(
    s: Seq<char>,
    module: ModuleNameView,
    name: Seq<char>,
    new_name: Seq<char>,
    encoding: PositionEncoding,
) -> Option<TextEditView> {
    if module.name == name {
        Some(
            TextEditView {
                range: range_at(s, module.range.start as int, module.range.end as int, encoding),
                new_text: new_name,
            },
        )
    } else {
        None
    }
}

/// The edits that give the modules of a package's entry file their new name.
pub open spec fn module_edits(
    file: MemberFile,
    name: Seq<char>,
    new_name: Seq<char>,
    encoding: PositionEncoding,
) -> Seq<TextEditView> {
    kept(
        modules_at_top(file.text@, file.tree@),
        |module: ModuleNameView| module_edit(file.text@, module, name, new_name, encoding),
    )
}

/// The changes of a batch with those that a renamed package needs: its name in
/// the project file, and the modules of that name at the top of its entry file
/// where the workspace holds it without fault.
pub open spec fn package_changes(
    changes: Seq<FileEditsView>,
    project: PackageProject,
    moves: Seq<MoveView>,
    old_parse: NameParse,
    new_parse: NameParse,
    members: Seq<MemberFile>,
    encoding: PositionEncoding,
) -> Seq<FileEditsView> {
    match new_package_name(project, moves) {
        Some(new_name) => {
            let name = project.name->0;
            let path = project.path->0.deep_view();
            let entry = entry_of(path.drop_last(), name.value@);
            let at = first_index(members, |file: MemberFile| file.path.deep_view() == entry);
            if can_name_package(name.value@, old_parse) && can_name_package(new_name, new_parse) {
                let named = with_edits(
                    changes,
                    path,
                    seq![
                        TextEditView {
                            range: range_at(
                                project.text@,
                                name.start as int,
                                name.end as int,
                                encoding,
                            ),
                            new_text: "\""@ + new_name + "\""@,
                        },
                    ],
                );
                if at < members.len() && members[at].clean {
                    with_edits(
                        named,
                        entry,
                        module_edits(members[at], name.value@, new_name, encoding),
                    )
                } else {
                    named
                }
            } else {
                changes
            }
        },
        None => changes,
    }
}

fn rename_modules(
    file: &MemberFile,
    name: &str,
    new_name: &str,
    encoding: PositionEncoding,
) -> (r: Vec<TextEdit>)
    requires
        file.wf(),
    ensures
        r.deep_view() == module_edits(*file, name@, new_name@, encoding),
{
    let line_index = LineIndex::new(file.text.as_str());
    let modules = top_modules(file.text.as_str(), &file.tree);
    let ghost all = modules.deep_view();
    let ghost pick = |module: ModuleNameView|
        module_edit(file.text@, module, name@, new_name@, encoding);
    let mut edits: Vec<TextEdit> = Vec::new();
    let mut i: usize = 0;
    proof {
        assert(all.take(0) =~= Seq::<ModuleNameView>::empty());
        assert(edits.deep_view() =~= Seq::<TextEditView>::empty());
    }
    while i < modules.len()
        invariant
            i <= modules.len(),
            all == modules.deep_view(),
            line_index.wf(),
            line_index@ == file.text@,
            pick == |module: ModuleNameView|
                module_edit(file.text@, module, name@, new_name@, encoding),
            edits.deep_view() == kept(all.take(i as int), pick),
        decreases modules.len() - i,
    {
        let module = &modules[i];
        proof {
            lemma_kept_step(all, pick, i as int);
            assert(all[i as int] == module.deep_view());
        }
        i = i + 1;
        if same_text(module.name.as_str(), name) {
            let ghost before = edits.deep_view();
            edits.push(
                TextEdit {
                    range: line_index.range(
                        module.range.start as usize,
                        module.range.end as usize,
                        encoding,
                    ),
                    new_text: new_name.to_owned(),
                },
            );
            proof {
                assert(edits.deep_view() =~= before.push(edits@.last().deep_view()));
            }
        }
    }
    proof {
        assert(all.take(i as int) =~= all);
    }
    edits
}

/// Adds the edits that a renamed package needs to the changes of a batch.
/// `old_parse` and `new_parse` say how the parser reads the package's name and
/// the one that [`renamed_package`] gives.
pub fn collect_package_edits(
    changes: &mut Vec<FileEdits>,
    project: &PackageProject,
    map: &RenameMap,
    old_parse: &NameParse,
    new_parse: &NameParse,
    members: &Vec<MemberFile>,
    encoding: PositionEncoding,
)
    requires
        fits(project.text@),
        forall|i: int| 0 <= i < members.len() ==> (#[trigger] members@[i]).wf(),
    ensures
        final(changes).deep_view() == package_changes(
            old(changes).deep_view(),
            *project,
            map.deep_view(),
            *old_parse,
            *new_parse,
            members@,
            encoding,
        ),
{
    let new_name = match renamed_package(project, map) {
        Some(new_name) => new_name,
        None => {
            return;
        },
    };
    let (path, name) = match (&project.path, &project.name) {
        (Some(path), Some(name)) => (path, name),
        _ => {
            return;
        },
    };
    if !is_package_name(name.value.as_str(), old_parse) || !is_package_name(
        new_name.as_str(),
        new_parse,
    ) {
        return;
    }
    let root = match path.parent() {
        Some(root) => root,
        None => {
            return;
        },
    };
    let entry = entry_path(&root, name.value.as_str());
    let line_index = LineIndex::new(project.text.as_str());
    let opened = cat("\"", new_name.as_str());
    let quoted = cat(opened.as_str(), "\"");
    let edits = vec![TextEdit {
        range: line_index.range(name.start, name.end, encoding),
        new_text: quoted,
    }];
    let ghost renaming = TextEditView {
        range: range_at(project.text@, name.start as int, name.end as int, encoding),
        new_text: "\""@ + new_name@ + "\""@,
    };
    proof {
        assert(edits.deep_view() =~= seq![renaming]);
    }
    insert_edits(changes, path, edits);
    let ghost here = |file: MemberFile| file.path.deep_view() == entry.deep_view();
    let mut at: usize = 0;
    while at < members.len() && !members[at].path.same(&entry)
        invariant
            at <= members.len(),
            here == |file: MemberFile| file.path.deep_view() == entry.deep_view(),
            forall|k: int| 0 <= k < at ==> !here(#[trigger] members@[k]),
        decreases members.len() - at,
    {
        at = at + 1;
    }
    proof {
        lemma_first_index_is(members@, here, at as int);
        let wanted = entry_of(path.deep_view().drop_last(), name.value@);
        assert(here =~= |file: MemberFile| file.path.deep_view() == wanted);
    }
    if at < members.len() && members[at].clean {
        let edits = rename_modules(
            &members[at],
            name.value.as_str(),
            new_name.as_str(),
            encoding,
        );
        insert_edits(changes, &entry, edits);
    }
}

/// A package of the workspace, with how the parser reads its name and its new
/// one.
#[derive(Debug)]
pub struct PackageInput {
    pub project: PackageProject,
    pub old_parse: NameParse,
    pub new_parse: NameParse,
}

/// The changes of a batch with those that all packages need.
pub open spec fn all_changes(
    scan: Seq<ScanEntryView>,
    files: Seq<ScannedFile>,
    packages: Seq<PackageInput>,
    members: Seq<MemberFile>,
    moves: Seq<MoveView>,
    encoding: PositionEncoding,
) -> Seq<FileEditsView>
    decreases packages.len(),
{
    if packages.len() == 0 {
        include_changes(scan, files, moves, encoding)
    } else {
        let package = packages.last();
        package_changes(
            all_changes(scan, files, packages.drop_last(), members, moves, encoding),
            package.project,
            moves,
            package.old_parse,
            package.new_parse,
            members,
            encoding,
        )
    }
}

/// The edits of all files that a batch disturbs, each under its path before the
/// move.
pub fn collect_edits(
    scan: &Vec<ScanEntry>,
    files: &Vec<ScannedFile>,
    packages: &Vec<PackageInput>,
    members: &Vec<MemberFile>,
    map: &RenameMap,
    encoding: PositionEncoding,
) -> (r: Vec<FileEdits>)
    requires
        forall|i: int|
            0 <= i < scan.len() ==> (#[trigger] scan.deep_view()[i]).file < files.len(),
        forall|i: int| 0 <= i < files.len() ==> fits((#[trigger] files@[i]).text@),
        forall|i: int| 0 <= i < packages.len() ==> fits((#[trigger] packages@[i]).project.text@),
        forall|i: int| 0 <= i < members.len() ==> (#[trigger] members@[i]).wf(),
    ensures
        r.deep_view() == all_changes(
            scan.deep_view(),
            files@,
            packages@,
            members@,
            map.deep_view(),
            encoding,
        ),
{
    let ghost moves = map.deep_view();
    let ghost entries = scan.deep_view();
    let mut changes: Vec<FileEdits> = Vec::new();
    let mut i: usize = 0;
    proof {
        assert(entries.take(0) =~= Seq::<ScanEntryView>::empty());
        assert(changes.deep_view() =~= Seq::<FileEditsView>::empty());
    }
    while i < scan.len()
        invariant
            i <= scan.len(),
            moves == map.deep_view(),
            entries == scan.deep_view(),
            forall|i: int| 0 <= i < scan.len() ==> (#[trigger] entries[i]).file < files.len(),
            forall|i: int| 0 <= i < files.len() ==> fits((#[trigger] files@[i]).text@),
            changes.deep_view() == include_changes(
                entries.take(i as int),
                files@,
                moves,
                encoding,
            ),
        decreases scan.len() - i,
    {
        let entry = &scan[i];
        proof {
            assert(entries[i as int] == entry.deep_view());
        }
        let edits = include_edits(&entry.path, &files[entry.file], map, encoding);
        insert_edits(&mut changes, &entry.path, edits);
        i = i + 1;
        proof {
            assert(entries.take(i as int).drop_last() =~= entries.take(i - 1));
        }
    }
    let mut j: usize = 0;
    proof {
        assert(entries.take(i as int) =~= entries);
        assert(packages@.take(0) =~= Seq::<PackageInput>::empty());
    }
    while j < packages.len()
        invariant
            j <= packages.len(),
            moves == map.deep_view(),
            forall|i: int|
                0 <= i < packages.len() ==> fits((#[trigger] packages@[i]).project.text@),
            forall|i: int| 0 <= i < members.len() ==> (#[trigger] members@[i]).wf(),
            changes.deep_view() == all_changes(
                entries,
                files@,
                packages@.take(j as int),
                members@,
                moves,
                encoding,
            ),
        decreases packages.len() - j,
    {
        let package = &packages[j];
        collect_package_edits(
            &mut changes,
            &package.project,
            map,
            &package.old_parse,
            &package.new_parse,
            members,
            encoding,
        );
        j = j + 1;
        proof {
            assert(packages@.take(j as int).drop_last() =~= packages@.take(j - 1));
        }
    }
    proof {
        assert(packages@.take(j as int) =~= packages@);
    }
    changes
}

/// Whether the handles of candidates are places among `count` files.
pub open spec fn handles_ok(candidates: Seq<ScanCandidate>, count: nat) -> bool {
    forall|i: int|
        0 <= i < candidates.len() && (#[trigger] candidates[i]).file is Some
            ==> candidates[i].file->0 < count
}

proof fn lemma_scan_handles(candidates: Seq<ScanCandidate>, count: nat, i: int)
    requires
        handles_ok(candidates, count),
        0 <= i < to_scan(candidates).len(),
    ensures
        to_scan(candidates)[i].file < count,
    decreases candidates.len(),
{
    let front = candidates.drop_last();
    assert(handles_ok(front, count)) by {
        assert forall|k: int| 0 <= k < front.len() && (#[trigger] front[k]).file is Some implies
            front[k].file->0 < count by {
            assert(front[k] == candidates[k]);
        }
    }
    if i < to_scan(front).len() {
        lemma_scan_handles(front, count, i);
    } else {
        assert(candidates[candidates.len() - 1].file is Some);
    }
}

/// The edits that keep includes and package names in step with a rename batch,
/// or `None` where nothing needs rewriting. The members of the `workspace` and the
/// open buffers are looked through, each path once; the handle of each is its place
/// among `sources`.
pub fn will_rename_files(
    files: &Vec<FileRename>,
    workspace: &Vec<ScanCandidate>,
    open_docs: &Vec<ScanCandidate>,
    sources: &Vec<ScannedFile>,
    packages: &Vec<PackageInput>,
    members: &Vec<MemberFile>,
    encoding: PositionEncoding,
) -> (r: Option<Vec<FileEdits>>)
    requires
        forall|i: int|
            0 <= i < files.len() ==> byte_len((#[trigger] files@[i]).old_uri@) <= i32::MAX
                && byte_len(files@[i].new_uri@) <= i32::MAX,
        handles_ok(workspace@, sources.len() as nat),
        handles_ok(open_docs@, sources.len() as nat),
        forall|i: int| 0 <= i < sources.len() ==> fits((#[trigger] sources@[i]).text@),
        forall|i: int| 0 <= i < packages.len() ==> fits((#[trigger] packages@[i]).project.text@),
        forall|i: int| 0 <= i < members.len() ==> (#[trigger] members@[i]).wf(),
    ensures
        r.deep_view() == ({
            let changes = all_changes(
                to_scan(workspace@ + open_docs@),
                sources@,
                packages@,
                members@,
                stable_sorted(moves_of(files@), depth_key()),
                encoding,
            );
            if moves_of(files@).len() == 0 || changes.len() == 0 {
                None
            } else {
                Some(changes)
            }
        }),
{
    match RenameMap::from_files(files) {
        Some(map) => {
            let scan = scan_set(workspace, open_docs);
            proof {
                let all = workspace@ + open_docs@;
                assert(handles_ok(all, sources.len() as nat)) by {
                    assert forall|k: int|
                        0 <= k < all.len() && (#[trigger] all[k]).file is Some implies
                        all[k].file->0 < sources.len() by {
                        if k < workspace.len() {
                            assert(all[k] == workspace@[k]);
                        } else {
                            assert(all[k] == open_docs@[k - workspace.len()]);
                        }
                    }
                }
                assert forall|i: int| 0 <= i < scan.len() implies (
                #[trigger] scan.deep_view()[i]).file < sources.len() by {
                    lemma_scan_handles(all, sources.len() as nat, i);
                }
            }
            let changes = collect_edits(&scan, sources, packages, members, &map, encoding);
            if changes.len() == 0 {
                None
            } else {
                Some(changes)
            }
        },
        None => None,
    }
}

/// A package of the workspace under the name it was found with.
#[derive(Debug)]
pub struct PackagePath {
    pub name: String,
    pub project: Option<FilePath>,
}

/// The project file of a package whose entry file moves.
pub open spec fn moved_project(package: PackagePath, moves: Seq<MoveView>) -> Option<
    Seq<Seq<char>>,
> {
    match package.project {
        Some(path) => {
            let entry = entry_of(path.deep_view().drop_last(), package.name@);
            if parent_of(path.deep_view()) is Some && mapped(moves, entry) != entry {
                Some(path.deep_view())
            } else {
                None
            }
        },
        None => None,
    }
}

/// The project files that a batch may have edited: those of packages whose entry
/// file it moves.
pub fn renamed_package_projects(packages: &Vec<PackagePath>, files: &Vec<FileRename>) -> (r: Vec<
    FilePath,
>)
    requires
        forall|i: int|
            0 <= i < files.len() ==> byte_len((#[trigger] files@[i]).old_uri@) <= i32::MAX
                && byte_len(files@[i].new_uri@) <= i32::MAX,
    ensures
        r.deep_view() == (if moves_of(files@).len() == 0 {
            Seq::empty()
        } else {
            kept(
                packages@,
                |package: PackagePath|
                    moved_project(package, stable_sorted(moves_of(files@), depth_key())),
            )
        }),
{
    let mut out: Vec<FilePath> = Vec::new();
    proof {
        assert(out.deep_view() =~= Seq::<Seq<Seq<char>>>::empty());
    }
    let map = match RenameMap::from_files(files) {
        Some(map) => map,
        None => {
            return out;
        },
    };
    let ghost moves = map.deep_view();
    let ghost pick = |package: PackagePath| moved_project(package, moves);
    let mut i: usize = 0;
    proof {
        assert(packages@.take(0) =~= Seq::<PackagePath>::empty());
    }
    while i < packages.len()
        invariant
            i <= packages.len(),
            moves == map.deep_view(),
            pick == |package: PackagePath| moved_project(package, moves),
            out.deep_view() == kept(packages@.take(i as int), pick),
        decreases packages.len() - i,
    {
        let package = &packages[i];
        proof {
            lemma_kept_step(packages@, pick, i as int);
        }
        i = i + 1;
        if let Some(path) = &package.project {
            if let Some(root) = path.parent() {
                let entry = entry_path(&root, package.name.as_str());
                if !map.map(&entry).same(&entry) {
                    let ghost before = out.deep_view();
                    out.push(path.copy());
                    proof {
                        assert(out.deep_view() =~= before.push(path.deep_view()));
                    }
                }
            }
        }
    }
    proof {
        assert(packages@.take(i as int) =~= packages@);
        assert(pick =~= |package: PackagePath|
            moved_project(package, stable_sorted(moves_of(files@), depth_key())));
    }
    out
}

/// A file that may have to be scanned: its handle and its path on disk. A buffer
/// without a file has no path, and a file that the workspace does not hold has no
/// handle.
#[derive(Debug)]
pub struct ScanCandidate {
    pub file: Option<usize>,
    pub path: Option<FilePath>,
}

/// A file to scan.
#[derive(Debug)]
pub struct ScanEntry {
    pub file: usize,
    pub path: FilePath,
}

/// What a [`ScanEntry`] says.
pub struct ScanEntryView {
    pub file: usize,
    pub path: Seq<Seq<char>>,
}

impl DeepView for ScanEntry {
    type V = ScanEntryView;

    open spec fn deep_view(&self) -> ScanEntryView {
        ScanEntryView { file: self.file, path: self.path.deep_view() }
    }
}

/// The files to scan: those with a handle and a path, each path once, first come
/// first served.
pub open spec fn to_scan(candidates: Seq<ScanCandidate>) -> Seq<ScanEntryView>
    decreases candidates.len(),
{
    if candidates.len() == 0 {
        Seq::empty()
    } else {
        let before = to_scan(candidates.drop_last());
        match (candidates.last().file, candidates.last().path) {
            (Some(file), Some(path)) => if listed(before, path.deep_view()) {
                before
            } else {
                before.push(ScanEntryView { file, path: path.deep_view() })
            },
            _ => before,
        }
    }
}

/// Whether a path is among the files to scan.
pub open spec fn listed(entries: Seq<ScanEntryView>, path: Seq<Seq<char>>) -> bool {
    exists|i: int| 0 <= i < entries.len() && (#[trigger] entries[i]).path == path
}

fn is_listed(entries: &Vec<ScanEntry>, path: &FilePath) -> (r: bool)
    ensures
        r == listed(entries.deep_view(), path.deep_view()),
{
    let mut i: usize = 0;
    while i < entries.len()
        invariant
            i <= entries.len(),
            forall|k: int|
                0 <= k < i ==> (#[trigger] entries.deep_view()[k]).path != path.deep_view(),
        decreases entries.len() - i,
    {
        if entries[i].path.same(path) {
            proof {
                assert(entries.deep_view()[i as int].path == path.deep_view());
            }
            return true;
        }
        i = i + 1;
    }
    false
}

/// The files whose includes a batch could disturb: the members of the workspace,
/// then the open buffers that are none.
pub fn scan_set(workspace: &Vec<ScanCandidate>, open_docs: &Vec<ScanCandidate>) -> (r: Vec<
    ScanEntry,
>)
    ensures
        r.deep_view() == to_scan(workspace@ + open_docs@),
{
    let ghost all = workspace@ + open_docs@;
    let mut scan: Vec<ScanEntry> = Vec::new();
    let mut i: usize = 0;
    proof {
        assert(all.take(0) =~= Seq::<ScanCandidate>::empty());
        assert(scan.deep_view() =~= Seq::<ScanEntryView>::empty());
    }
    while i < workspace.len()
        invariant
            i <= workspace.len(),
            all == workspace@ + open_docs@,
            scan.deep_view() == to_scan(all.take(i as int)),
        decreases workspace.len() - i,
    {
        push_candidate(&mut scan, &workspace[i]);
        i = i + 1;
        proof {
            assert(all.take(i as int).drop_last() =~= all.take(i - 1));
        }
    }
    let mut j: usize = 0;
    while j < open_docs.len()
        invariant
            i == workspace.len(),
            j <= open_docs.len(),
            all == workspace@ + open_docs@,
            scan.deep_view() == to_scan(all.take(i + j)),
        decreases open_docs.len() - j,
    {
        push_candidate(&mut scan, &open_docs[j]);
        j = j + 1;
        proof {
            assert(all.take(i + j).drop_last() =~= all.take(i + j - 1));
        }
    }
    proof {
        assert(all.take(i + j) =~= all);
    }
    scan
}

fn push_candidate(scan: &mut Vec<ScanEntry>, candidate: &ScanCandidate)
    ensures
        final(scan).deep_view() == match (candidate.file, candidate.path) {
            (Some(file), Some(path)) => if listed(old(scan).deep_view(), path.deep_view()) {
                old(scan).deep_view()
            } else {
                old(scan).deep_view().push(ScanEntryView { file, path: path.deep_view() })
            },
            _ => old(scan).deep_view(),
        },
{
    if let (Some(file), Some(path)) = (candidate.file, &candidate.path) {
        if !is_listed(scan, path) {
            let ghost before = scan.deep_view();
            scan.push(ScanEntry { file, path: path.copy() });
            proof {
                assert(scan.deep_view() =~= before.push(scan@.last().deep_view()));
            }
        }
    }
}

/// In a literal every backslash, quote and dollar sign is escaped by a backslash, and
/// nothing else is.
pub proof fn law_escapes_stand_before_what_needs_them(a: Seq<char>, c: char, b: Seq<char>)
    ensures
        c == '\\' || c == '"' || c == '$' ==> escaped(a + seq![c] + b) == escaped(a) + seq![
            '\\',
            c,
        ] + escaped(b),
        c != '\\' && c != '"' && c != '$' ==> escaped(a + seq![c] + b) == escaped(a) + seq![c]
            + escaped(b),
    decreases b.len(),
{
    let s = a + seq![c] + b;
    if b.len() == 0 {
        assert(s.drop_last() =~= a);
        assert(escaped(b) =~= Seq::<char>::empty());
    } else {
        law_escapes_stand_before_what_needs_them(a, c, b.drop_last());
        assert(s.drop_last() =~= a + seq![c] + b.drop_last());
        assert(s.last() == b.last());
    }
    if c == '\\' || c == '"' || c == '$' {
        assert(escaped(s) =~= escaped(a) + seq!['\\', c] + escaped(b));
    } else {
        assert(escaped(s) =~= escaped(a) + seq![c] + escaped(b));
    }
}

/// A literal that is left as it is denotes the place its target moved to as well, seen
/// from the directory that the file moved to.
pub proof fn law_literals_left_alone_still_denote_their_target(
    path: Seq<char>,
    old_dir: Seq<Seq<char>>,
    new_dir: Seq<Seq<char>>,
    moves: Seq<MoveView>,
    drives: bool,
)
    requires
        path.len() > 0,
        is_path_with(old_dir, drives),
        is_path_with(new_dir, drives),
        are_moves_with(moves, drives),
        rewritten(path, old_dir, new_dir, moves) is None,
        steps_name_drive(new_dir, mapped(moves, resolved(path, Some(old_dir))->0)) ==> is_absolute(
            path,
            drives,
        ),
    ensures
        resolved(path, Some(new_dir)) == Some(mapped(moves, resolved(path, Some(old_dir))->0)),
{
    let old_target = resolved(path, Some(old_dir))->0;
    let target = mapped(moves, old_target);
    lemma_resolved_path(path, Some(old_dir));
    lemma_mapped_path(moves, old_target, drives);
    let spelling = new_spelling(path, drives, new_dir, target);
    law_absolute_spelling_resolves(target, Some(new_dir));
    if !is_absolute(path, drives) && same_root(new_dir, target) {
        let steps = steps_between(new_dir, target);
        if steps.len() > 0 {
            law_relative_spelling_resolves(new_dir, target);
            law_steps_spelling_is_relative(new_dir, target);
            lemma_steps_spelling(new_dir, target);
            lemma_dotted(separated(steps, "/"@), new_dir);
        }
    }
}

/// A URI names a file only where its scheme is `file` and its path decodes; the path is
/// the one it spells, without the slash before a drive.
pub proof fn law_only_file_uris_name_files(scheme: Seq<char>, path: Seq<char>)
    ensures
        path_of_parts(None) is None,
        path_of_parts(Some((None, Some(path)))) is None,
        path_of_parts(Some((Some(scheme), None))) is None,
        scheme != "file"@ ==> path_of_parts(Some((Some(scheme), Some(path)))) is None,
        path.len() > 3 && path[0] == '/' && is_drive(seq![path[1], path[2]]) && path[3] == '/'
            ==> path_of_parts(Some((Some("file"@), Some(path)))) == resolved(path.skip(1), None),
        path.len() <= 3 || path[0] != '/' || !is_drive(seq![path[1], path[2]]) || path[3] != '/'
            ==> path_of_parts(Some((Some("file"@), Some(path)))) == resolved(path, None),
{
    if path.len() > 3 {
        assert(path.subrange(1, 3) =~= seq![path[1], path[2]]);
    }
}

/// Whether changes hold an edit of a file that begins at a place.
pub open spec fn changes_at(
    changes: Seq<FileEditsView>,
    path: Seq<Seq<char>>,
    start: Position,
) -> bool {
    exists|c: int, e: int|
        0 <= c < changes.len() && changes[c].path == path && 0 <= e < changes[c].edits.len()
            && (#[trigger] changes[c].edits[e]).range.start == start
}

proof fn lemma_edits_stay(
    changes: Seq<FileEditsView>,
    path: Seq<Seq<char>>,
    edits: Seq<TextEditView>,
    other: Seq<Seq<char>>,
    start: Position,
)
    requires
        changes_at(changes, other, start),
    ensures
        changes_at(with_edits(changes, path, edits), other, start),
{
    let after = with_edits(changes, path, edits);
    let (c, e) = choose|c: int, e: int|
        0 <= c < changes.len() && changes[c].path == other && 0 <= e < changes[c].edits.len() && (
        #[trigger] changes[c].edits[e]).range.start == start;
    let is_path = |c: FileEditsView| c.path == path;
    lemma_first_index(changes, is_path);
    let at = first_index(changes, is_path);
    if edits.len() == 0 {
        assert(after == changes);
    } else if at < changes.len() {
        if c == at {
            let all = changes[at].edits + edits;
            assert(all[e] == changes[c].edits[e]);
            let j = law_tidy_keeps(all, e);
            assert(is_path(changes[at]));
            assert(after[at].path == other);
            assert(after[at].edits[j].range.start == start);
        } else {
            assert(after[c].edits[e].range.start == start);
        }
    } else {
        assert(after[c].edits[e].range.start == start);
    }
}

proof fn lemma_edits_arrive(
    changes: Seq<FileEditsView>,
    path: Seq<Seq<char>>,
    edits: Seq<TextEditView>,
    i: int,
)
    requires
        0 <= i < edits.len(),
    ensures
        changes_at(with_edits(changes, path, edits), path, edits[i].range.start),
{
    let after = with_edits(changes, path, edits);
    let is_path = |c: FileEditsView| c.path == path;
    lemma_first_index(changes, is_path);
    let at = first_index(changes, is_path);
    if at < changes.len() {
        let all = changes[at].edits + edits;
        assert(all[changes[at].edits.len() + i] == edits[i]);
        let j = law_tidy_keeps(all, changes[at].edits.len() + i);
        assert(after[at].path == path);
        assert(after[at].edits[j].range.start == edits[i].range.start);
    } else {
        let j = law_tidy_keeps(edits, i);
        assert(after[changes.len() as int].path == path);
        assert(after[changes.len() as int].edits[j].range.start == edits[i].range.start);
    }
}

/// Wherever a batch moves a file or the target of one of its includes, every include of
/// that file whose literal has to change is edited.
pub proof fn law_every_include_that_moves_is_edited(
    scan: Seq<ScanEntryView>,
    files: Seq<ScannedFile>,
    packages: Seq<PackageInput>,
    members: Seq<MemberFile>,
    moves: Seq<MoveView>,
    encoding: PositionEncoding,
    i: int,
    k: int,
    target: int,
)
    requires
        0 <= i < scan.len(),
        ({
            let file = files[scan[i].file as int];
            let path = scan[i].path;
            &&& 0 <= k < file.sites.len()
            &&& file.sites@[k].content is Some
            &&& path.len() > 0 && mapped(moves, path).len() > 0
            &&& parent_of(path) is Some && parent_of(mapped(moves, path)) is Some
            &&& rewritten(
                file.sites@[k].path@,
                parent_of(path)->0,
                parent_of(mapped(moves, path))->0,
                moves,
            ) is Some
            &&& mapped(moves, path) != path || (0 <= target < file.targets.len()
                && file.targets@[target] is Some && mapped(
                moves,
                file.targets@[target]->0.deep_view(),
            ) != file.targets@[target]->0.deep_view())
        }),
    ensures
        changes_at(
            all_changes(scan, files, packages, members, moves, encoding),
            scan[i].path,
            range_at(
                files[scan[i].file as int].text@,
                files[scan[i].file as int].sites@[k].content->0.start as int,
                files[scan[i].file as int].sites@[k].content->0.end as int,
                encoding,
            ).start,
        ),
    decreases packages.len(),
{
    let file = files[scan[i].file as int];
    let start = range_at(
        file.text@,
        file.sites@[k].content->0.start as int,
        file.sites@[k].content->0.end as int,
        encoding,
    ).start;
    if packages.len() == 0 {
        assert(mapped(moves, scan[i].path) != scan[i].path || target_moves(file, moves, target));
        lemma_include_edited(scan, files, moves, encoding, i, k);
    } else {
        let front = packages.drop_last();
        law_every_include_that_moves_is_edited(
            scan,
            files,
            front,
            members,
            moves,
            encoding,
            i,
            k,
            target,
        );
        let before = all_changes(scan, files, front, members, moves, encoding);
        let package = packages.last();
        lemma_packages_keep_edits(before, package, moves, members, encoding, scan[i].path, start);
    }
}

proof fn lemma_packages_keep_edits(
    changes: Seq<FileEditsView>,
    package: PackageInput,
    moves: Seq<MoveView>,
    members: Seq<MemberFile>,
    encoding: PositionEncoding,
    other: Seq<Seq<char>>,
    start: Position,
)
    requires
        changes_at(changes, other, start),
    ensures
        changes_at(
            package_changes(
                changes,
                package.project,
                moves,
                package.old_parse,
                package.new_parse,
                members,
                encoding,
            ),
            other,
            start,
        ),
{
    match new_package_name(package.project, moves) {
        Some(new_name) => {
            let name = package.project.name->0;
            let path = package.project.path->0.deep_view();
            let entry = entry_of(path.drop_last(), name.value@);
            let at = first_index(members, |file: MemberFile| file.path.deep_view() == entry);
            let edits = seq![
                TextEditView {
                    range: range_at(
                        package.project.text@,
                        name.start as int,
                        name.end as int,
                        encoding,
                    ),
                    new_text: "\""@ + new_name + "\""@,
                },
            ];
            lemma_edits_stay(changes, path, edits, other, start);
            let named = with_edits(changes, path, edits);
            if at < members.len() {
                lemma_edits_stay(
                    named,
                    entry,
                    module_edits(members[at], name.value@, new_name, encoding),
                    other,
                    start,
                );
            }
        },
        None => {},
    }
}

proof fn lemma_include_edited(
    scan: Seq<ScanEntryView>,
    files: Seq<ScannedFile>,
    moves: Seq<MoveView>,
    encoding: PositionEncoding,
    i: int,
    k: int,
)
    requires
        0 <= i < scan.len(),
        ({
            let file = files[scan[i].file as int];
            let path = scan[i].path;
            &&& 0 <= k < file.sites.len()
            &&& file.sites@[k].content is Some
            &&& parent_of(path) is Some && parent_of(mapped(moves, path)) is Some
            &&& rewritten(
                file.sites@[k].path@,
                parent_of(path)->0,
                parent_of(mapped(moves, path))->0,
                moves,
            ) is Some
            &&& disturbed(path, file, moves)
        }),
    ensures
        changes_at(
            include_changes(scan, files, moves, encoding),
            scan[i].path,
            range_at(
                files[scan[i].file as int].text@,
                files[scan[i].file as int].sites@[k].content->0.start as int,
                files[scan[i].file as int].sites@[k].content->0.end as int,
                encoding,
            ).start,
        ),
    decreases scan.len(),
{
    let file = files[scan[i].file as int];
    let path = scan[i].path;
    let start = range_at(
        file.text@,
        file.sites@[k].content->0.start as int,
        file.sites@[k].content->0.end as int,
        encoding,
    ).start;
    let front = scan.drop_last();
    let before = include_changes(front, files, moves, encoding);
    let last = scan.last();
    if i < front.len() {
        assert(front[i] == scan[i]);
        lemma_include_edited(front, files, moves, encoding, i, k);
        lemma_edits_stay(
            before,
            last.path,
            file_edits(last.path, files[last.file as int], moves, encoding),
            path,
            start,
        );
    } else {
        let old_dir = parent_of(path)->0;
        let new_dir = parent_of(mapped(moves, path))->0;
        let f = |site: IncludeSite|
            site_edit(file.text@, site, old_dir, new_dir, moves, encoding);
        let edits = file_edits(path, file, moves, encoding);
        assert(edits == kept(file.sites@, f));
        let j = lemma_kept_holds(file.sites@, f, k);
        lemma_edits_arrive(before, path, edits, j);
    }
}

/// Every file of the workspace and every open buffer that has a handle and a path is
/// looked through, and no path twice.
pub proof fn law_every_candidate_is_scanned(candidates: Seq<ScanCandidate>, i: int)
    ensures
        0 <= i < candidates.len() && candidates[i].file is Some && candidates[i].path is Some
            ==> exists|k: int|
            0 <= k < to_scan(candidates).len() && (#[trigger] to_scan(candidates)[k]).path
                == candidates[i].path->0.deep_view(),
        forall|a: int, b: int|
            0 <= a < b < to_scan(candidates).len() ==> (#[trigger] to_scan(candidates)[a]).path != (
            #[trigger] to_scan(candidates)[b]).path,
    decreases candidates.len(),
{
    if candidates.len() > 0 {
        let front = candidates.drop_last();
        let before = to_scan(front);
        let after = to_scan(candidates);
        law_every_candidate_is_scanned(front, i);
        if 0 <= i < candidates.len() && candidates[i].file is Some && candidates[i].path is Some {
            let path = candidates[i].path->0.deep_view();
            if i < front.len() || listed(before, path) {
                assert(i < front.len() ==> front[i] == candidates[i]);
                let k = choose|k: int| 0 <= k < before.len() && (#[trigger] before[k]).path == path;
                assert(after[k] == before[k]);
            } else {
                assert(after[before.len() as int].path == path);
            }
        }
        assert forall|a: int, b: int| 0 <= a < b < after.len() implies (#[trigger] after[a]).path
            != (#[trigger] after[b]).path by {
            assert(after[a] == before[a]);
            if b < before.len() {
                assert(after[b] == before[b]);
            }
        }
    }
}

/// A package whose entry file is renamed within its source directory, and whose old and
/// new names both can name one, gets the new name in its project file.
pub proof fn law_packages_are_renamed_with_their_entry(
    changes: Seq<FileEditsView>,
    project: PackageProject,
    moves: Seq<MoveView>,
    old_parse: NameParse,
    new_parse: NameParse,
    members: Seq<MemberFile>,
    encoding: PositionEncoding,
    stem: Seq<char>,
)
    requires
        project.path is Some && project.name is Some && project.has_uuid,
        ({
            let path = project.path->0.deep_view();
            let root = path.drop_last();
            let name = project.name->0.value@;
            &&& parent_of(path) is Some
            &&& mapped(moves, path) == path
            &&& path.last() == "Project.toml"@ || path.last() == "JuliaProject.toml"@
            &&& mapped(moves, root.push("src"@).push(name + ".jl"@)) == root.push("src"@).push(
                stem + ".jl"@,
            )
            &&& parent_of(root.push("src"@).push(stem + ".jl"@)) == Some(root.push("src"@))
            &&& stem != name && stem.len() > 0
        }),
        can_name_package(project.name->0.value@, old_parse),
        can_name_package(stem, new_parse),
    ensures
        changes_at(
            package_changes(changes, project, moves, old_parse, new_parse, members, encoding),
            project.path->0.deep_view(),
            range_at(
                project.text@,
                project.name->0.start as int,
                project.name->0.end as int,
                encoding,
            ).start,
        ),
{
    let path = project.path->0.deep_view();
    let name = project.name->0;
    let file = stem + ".jl"@;
    reveal_strlit(".jl");
    reveal_strlit("jl");
    assert(file.drop_last().drop_last() =~= stem + seq!['.']);
    assert(file.last() == 'l' && file.drop_last().last() == 'j');
    assert((stem + seq!['.']).last() == '.');
    assert(last_dot(file) == stem.len()) by {
        reveal_with_fuel(last_dot, 4);
    }
    assert(file.take(stem.len() as int) =~= stem);
    assert(file.skip(stem.len() as int + 1) =~= "jl"@);
    assert(new_package_name(project, moves) == Some(stem));
    let edits = seq![
        TextEditView {
            range: range_at(project.text@, name.start as int, name.end as int, encoding),
            new_text: "\""@ + stem + "\""@,
        },
    ];
    lemma_edits_arrive(changes, path, edits, 0);
    let named = with_edits(changes, path, edits);
    let entry = entry_of(path.drop_last(), name.value@);
    let at = first_index(members, |file: MemberFile| file.path.deep_view() == entry);
    if at < members.len() {
        lemma_edits_stay(
            named,
            entry,
            module_edits(members[at], name.value@, stem, encoding),
            path,
            edits[0].range.start,
        );
    }
}

/// Every module that stands directly at the top of a file under a plain name, alone or
/// behind its docstring, is among the modules of the file.
pub proof fn law_modules_at_the_top_are_found(s: Seq<char>, t: Seq<Element>, i: int, item: int)
    requires
        0 < i < t.len(),
        t[i].parent == 0 && !t[i].is_token,
        t[i].kind != SyntaxKind::DOC_ATTACHMENT && item == i || (t[i].kind
            == SyntaxKind::DOC_ATTACHMENT && i < item < t[i].end && t[item].parent == i
            && !t[item].is_token && forall|k: int|
            item < k < t[i].end ==> (#[trigger] t[k]).parent != i || t[k].is_token),
        t[item].kind == SyntaxKind::MODULE_DEF,
        signature_of(t, item) is Some,
        t[head_of(t, signature_of(t, item)->0)].kind == SyntaxKind::NAME,
        node_text(s, t, head_of(t, signature_of(t, item)->0)) is Some,
    ensures
        modules_at_top(s, t).contains(
            ModuleNameView {
                name: node_text(s, t, head_of(t, signature_of(t, item)->0))->0,
                range: t[head_of(t, signature_of(t, item)->0)].range,
            },
        ),
{
    if t[i].kind == SyntaxKind::DOC_ATTACHMENT {
        lemma_last_child(t, i, t[i].end as int, item);
    }
    lemma_module_listed(s, t, t.len() as int, i);
}

proof fn lemma_last_child(t: Seq<Element>, node: int, upto: int, child: int)
    requires
        0 <= node < child < upto,
        t[child].parent == node && !t[child].is_token,
        forall|k: int| child < k < upto ==> (#[trigger] t[k]).parent != node || t[k].is_token,
    ensures
        child_before(t, node, upto) == Some(child),
    decreases upto,
{
    if child < upto - 1 {
        lemma_last_child(t, node, upto - 1, child);
    }
}

proof fn lemma_module_listed(s: Seq<char>, t: Seq<Element>, n: int, i: int)
    requires
        0 <= i < n,
        top_module(s, t, i) is Some,
    ensures
        modules_before(s, t, n).contains(top_module(s, t, i)->0),
    decreases n,
{
    let before = modules_before(s, t, n - 1);
    let after = modules_before(s, t, n);
    let module = top_module(s, t, i)->0;
    if i == n - 1 {
        assert(after[before.len() as int] == module);
    } else {
        lemma_module_listed(s, t, n - 1, i);
        let j = choose|j: int| 0 <= j < before.len() && before[j] == module;
        assert(after[j] == module);
    }
}

/// A name can be a package's exactly where the parser reads it without fault as that one
/// name, and it holds more than underscores.
pub proof fn law_package_names_are_single_names(name: Seq<char>, parsed: NameParse, i: int)
    ensures
        !parsed.clean ==> !can_name_package(name, parsed),
        (forall|k: int| 0 <= k < name.len() ==> (#[trigger] name[k]) == '_') ==> !can_name_package(
            name,
            parsed,
        ),
        parsed.items.deep_view() != seq![Some(name)] ==> !can_name_package(name, parsed),
        parsed.clean && parsed.items.deep_view() == seq![Some(name)] && 0 <= i < name.len()
            && name[i] != '_' ==> can_name_package(name, parsed),
{
}

/// The project files that a batch may have edited are those of the packages whose entry
/// file, named like the package in its `src`, it moves.
pub proof fn law_projects_of_moved_entries_are_edited(
    package: PackagePath,
    root: Seq<Seq<char>>,
    file: Seq<char>,
    moves: Seq<MoveView>,
)
    requires
        package.project is Some,
        package.project->0.deep_view() == root.push(file),
        file.len() > 0 && file.last() != '/',
    ensures
        ({
            let entry = root.push("src"@).push(package.name@ + ".jl"@);
            &&& mapped(moves, entry) != entry ==> moved_project(package, moves) == Some(
                root.push(file),
            )
            &&& mapped(moves, entry) == entry ==> moved_project(package, moves) is None
        }),
{
    assert(root.push(file).drop_last() =~= root);
    law_parents_hold_their_children(root, file);
}

} // verus!
