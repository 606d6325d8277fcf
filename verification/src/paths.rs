//! Absolute file paths, cut into their components.

use vstd::prelude::*;

use crate::chars::ascii_letter;
use crate::strings::{
    cat, chars_of, copy_texts, join_with, lemma_pieces, lemma_pieces_concat,
    lemma_pieces_separated, pieces, same_text, same_texts, separated, split_on, text_between,
};

verus! {

/// An absolute path with `/` between its components and no `.` or `..` left. Where
/// there are drives, the first part is the drive or the share, with a slash behind:
/// `C:/`, `//server/share/`.
#[derive(Debug)]
pub struct FilePath {
    pub parts: Vec<String>,
}

impl DeepView for FilePath {
    type V = Seq<Seq<char>>;

    open spec fn deep_view(&self) -> Seq<Seq<char>> {
        self.parts.deep_view()
    }
}

/// Whether a text can be a component of a path.
pub open spec fn is_component(part: Seq<char>) -> bool {
    part.len() > 0 && !part.contains('/') && part != "."@ && part != ".."@
}

/// Whether every part can be a component of a path.
pub open spec fn are_components(parts: Seq<Seq<char>>) -> bool {
    forall|i: int| 0 <= i < parts.len() ==> is_component(#[trigger] parts[i])
}

/// Whether a path begins with a drive or a share.
pub open spec fn is_rooted(path: Seq<Seq<char>>) -> bool {
    path.len() > 0 && path[0].len() > 0 && path[0].last() == '/'
}

/// How many parts of a path the way up does not leave.
pub open spec fn floor(path: Seq<Seq<char>>) -> int {
    if is_rooted(path) {
        1
    } else {
        0
    }
}

/// Whether a text names a drive: a letter and a colon.
pub open spec fn is_drive(text: Seq<char>) -> bool {
    text.len() == 2 && ascii_letter(text[0]) && text[1] == ':'
}

/// The capital form of an ASCII letter.
pub open spec fn capital(c: char) -> char {
    if 'a' <= c <= 'z' {
        ((c as u32) - 32) as char
    } else {
        c
    }
}

/// The pieces of the drive or share that a spelling cut into pieces begins with;
/// none where it begins with neither. A drive has a capital letter.
pub open spec fn root_pieces(all: Seq<Seq<char>>) -> Seq<Seq<char>> {
    if all.len() >= 2 && is_drive(all[0]) {
        seq![seq![capital(all[0][0]), ':']]
    } else if all.len() >= 4 && all[0].len() == 0 && all[1].len() == 0 && all[2].len() > 0
        && all[3].len() > 0 {
        all.take(4)
    } else {
        Seq::empty()
    }
}

/// A drive or share as the first part of a path, given its pieces.
pub open spec fn root_text(root: Seq<Seq<char>>) -> Seq<char> {
    separated(root, "/"@) + "/"@
}

/// Whether pieces are those of a drive or of a share, as they stand in a path.
pub open spec fn are_root_pieces(root: Seq<Seq<char>>) -> bool {
    ||| root.len() == 1 && root[0].len() == 2 && 'A' <= root[0][0] <= 'Z' && root[0][1] == ':'
    ||| root.len() == 4 && root[0].len() == 0 && root[1].len() == 0 && root[2].len() > 0
        && root[3].len() > 0 && is_slash_free(root[2]) && is_slash_free(root[3])
}

/// Whether a text holds no slash of either kind.
pub open spec fn is_slash_free(text: Seq<char>) -> bool {
    !text.contains('/') && !text.contains('\\')
}

/// Whether a part is that of a drive or of a share.
pub open spec fn is_root(part: Seq<char>) -> bool {
    exists|root: Seq<Seq<char>>| are_root_pieces(root) && part == #[trigger] root_text(root)
}

/// Whether parts make up a path: components, behind a drive or share where there
/// are drives, which leave no backslash to a component.
pub open spec fn is_path(parts: Seq<Seq<char>>) -> bool {
    if is_rooted(parts) {
        &&& is_root(parts[0])
        &&& forall|i: int|
            1 <= i < parts.len() ==> is_component(#[trigger] parts[i]) && is_slash_free(parts[i])
    } else {
        are_components(parts)
    }
}

/// Whether two paths are on the same drive or share, or on a system without.
pub open spec fn same_root(a: Seq<Seq<char>>, b: Seq<Seq<char>>) -> bool {
    is_rooted(a) == is_rooted(b) && (is_rooted(a) ==> a[0] == b[0])
}

/// Where one step leads: nowhere, up, or into a component.
pub open spec fn step(at: Seq<Seq<char>>, piece: Seq<char>) -> Seq<Seq<char>> {
    if piece.len() == 0 || piece == "."@ {
        at
    } else if piece == ".."@ {
        if at.len() <= floor(at) {
            at
        } else {
            at.drop_last()
        }
    } else {
        at.push(piece)
    }
}

/// Where a number of steps lead, from `base` on.
pub open spec fn walked(base: Seq<Seq<char>>, steps: Seq<Seq<char>>) -> Seq<Seq<char>>
    decreases steps.len(),
{
    if steps.len() == 0 {
        base
    } else {
        step(walked(base, steps.drop_last()), steps.last())
    }
}

/// A spelling with every backslash made a slash.
pub open spec fn slashed(path: Seq<char>) -> Seq<char> {
    Seq::new(
        path.len(),
        |i: int|
            if path[i] == '\\' {
                '/'
            } else {
                path[i]
            },
    )
}

/// Whether a spelling begins with a slash.
pub open spec fn leads_with_slash(path: Seq<char>) -> bool {
    path.len() > 0 && path[0] == '/'
}

/// Whether a path is spelled from the root on: with its drive or share where there
/// are drives, and from the slash on where there are none.
pub open spec fn is_absolute(path: Seq<char>, drives: bool) -> bool {
    if drives {
        root_pieces(pieces(slashed(path), '/')).len() > 0
    } else {
        leads_with_slash(path)
    }
}

/// Whether a spelling is read as where there are drives: by the directory it is
/// seen from, and without one by whether it names a drive or share itself.
pub open spec fn has_drives(path: Seq<char>, base: Option<Seq<Seq<char>>>) -> bool {
    match base {
        Some(base) => is_rooted(base),
        None => !leads_with_slash(path) && is_absolute(path, true),
    }
}

/// The path that a spelling names, seen from directory `base`. Where there are
/// drives a backslash is a slash too, and a leading slash stays on the drive.
pub open spec fn resolved(path: Seq<char>, base: Option<Seq<Seq<char>>>) -> Option<Seq<Seq<char>>> {
    if has_drives(path, base) {
        let steps = pieces(slashed(path), '/');
        let root = root_pieces(steps);
        if root.len() > 0 {
            Some(walked(seq![root_text(root)], steps.skip(root.len() as int)))
        } else {
            match base {
                Some(base) => Some(
                    walked(
                        if leads_with_slash(slashed(path)) {
                            base.take(1)
                        } else {
                            base
                        },
                        steps,
                    ),
                ),
                None => None,
            }
        }
    } else if leads_with_slash(path) {
        Some(walked(Seq::empty(), pieces(path, '/')))
    } else {
        match base {
            Some(base) => Some(walked(base, pieces(path, '/'))),
            None => None,
        }
    }
}

/// A path spelled from the root on.
pub open spec fn spelled(path: Seq<Seq<char>>) -> Seq<char> {
    if is_rooted(path) {
        path[0] + separated(path.skip(1), "/"@)
    } else {
        "/"@ + separated(path, "/"@)
    }
}

/// How many components two paths share from the root on.
pub open spec fn shared(a: Seq<Seq<char>>, b: Seq<Seq<char>>) -> int
    decreases a.len(),
{
    if a.len() > 0 && b.len() > 0 && a[0] == b[0] {
        1 + shared(a.drop_first(), b.drop_first())
    } else {
        0
    }
}

/// The steps from one directory to a target: up to what both share, then down.
pub open spec fn steps_between(from: Seq<Seq<char>>, to: Seq<Seq<char>>) -> Seq<Seq<char>> {
    Seq::new((from.len() - shared(from, to)) as nat, |i: int| ".."@) + to.skip(shared(from, to))
}

/// A spelling with every slash made a backslash.
pub open spec fn backslashed(path: Seq<char>) -> Seq<char> {
    Seq::new(
        path.len(),
        |i: int|
            if path[i] == '/' {
                '\\'
            } else {
                path[i]
            },
    )
}

/// A path as its own system shows it: with backslashes where there are drives.
pub open spec fn displayed(path: Seq<Seq<char>>) -> Seq<char> {
    if is_rooted(path) {
        backslashed(spelled(path))
    } else {
        spelled(path)
    }
}

/// Steps from a path lead to a path on the same drive or share.
pub proof fn lemma_walked_path(base: Seq<Seq<char>>, steps: Seq<Seq<char>>)
    requires
        is_path(base),
        forall|i: int|
            0 <= i < steps.len() ==> !(#[trigger] steps[i]).contains('/') && (is_rooted(base)
                ==> is_slash_free(steps[i])),
    ensures
        is_path(walked(base, steps)),
        same_root(base, walked(base, steps)),
    decreases steps.len(),
{
    if steps.len() > 0 {
        let front = steps.drop_last();
        assert forall|i: int| 0 <= i < front.len() implies !(#[trigger] front[i]).contains('/')
            && (is_rooted(base) ==> is_slash_free(front[i])) by {
            assert(front[i] == steps[i]);
        }
        lemma_walked_path(base, front);
        let at = walked(base, front);
        let piece = steps[steps.len() - 1];
        let r = step(at, piece);
        if r.len() > at.len() && at.len() == 0 && piece.last() == '/' {
            assert(piece[piece.len() - 1] == '/');
            assert(piece.contains('/'));
        }
        if is_rooted(at) {
            assert(r[0] == at[0]);
            assert forall|i: int| 1 <= i < r.len() implies is_component(#[trigger] r[i])
                && is_slash_free(r[i]) by {
                if i < at.len() {
                    assert(r[i] == at[i]);
                }
            }
        } else {
            if at.len() > 0 {
                assert(is_component(at[0]));
            }
            assert forall|i: int| 0 <= i < r.len() implies is_component(#[trigger] r[i]) by {
                if i < at.len() {
                    assert(r[i] == at[i]);
                }
            }
        }
    }
}

/// No component ends in a slash.
pub proof fn lemma_component_end(part: Seq<char>)
    requires
        is_component(part),
    ensures
        part.last() != '/',
{
    if part.last() == '/' {
        assert(part[part.len() - 1] == '/');
        assert(part.contains('/'));
    }
}

/// Parts that do not hold a character, put together with a text that does not
/// either, do not hold it.
proof fn lemma_separated_lacks(parts: Seq<Seq<char>>, sep: Seq<char>, c: char)
    requires
        !sep.contains(c),
        forall|i: int| 0 <= i < parts.len() ==> !(#[trigger] parts[i]).contains(c),
    ensures
        !separated(parts, sep).contains(c),
    decreases parts.len(),
{
    if parts.len() > 1 {
        let front = parts.drop_last();
        assert forall|i: int| 0 <= i < front.len() implies !(#[trigger] front[i]).contains(c) by {
            assert(front[i] == parts[i]);
        }
        lemma_separated_lacks(front, sep, c);
        lemma_concat_lacks(separated(front, sep), sep, c);
        assert(!parts[parts.len() - 1].contains(c));
        lemma_concat_lacks(separated(front, sep) + sep, parts.last(), c);
    }
}

proof fn lemma_concat_lacks(a: Seq<char>, b: Seq<char>, c: char)
    requires
        !a.contains(c),
        !b.contains(c),
    ensures
        !(a + b).contains(c),
{
    if (a + b).contains(c) {
        let k = choose|k: int| 0 <= k < (a + b).len() && (a + b)[k] == c;
        if k < a.len() {
            assert(a[k] == c);
        } else {
            assert(b[k - a.len()] == c);
        }
    }
}

/// The pieces of a drive or share are free of slashes, and the part they make up
/// ends in one.
proof fn lemma_root_pieces_free(root: Seq<Seq<char>>)
    requires
        are_root_pieces(root),
    ensures
        forall|i: int| 0 <= i < root.len() ==> is_slash_free(#[trigger] root[i]),
        root_text(root).len() > 0,
        root_text(root).last() == '/',
        pieces(separated(root, "/"@), '/') == root,
        !root_text(root).contains('\\'),
{
    reveal_strlit("/");
    assert("/"@ =~= seq!['/']);
    assert forall|i: int| 0 <= i < root.len() implies is_slash_free(#[trigger] root[i]) by {
        if root[i].contains('/') {
            let k = choose|k: int| 0 <= k < root[i].len() && root[i][k] == '/';
        }
        if root[i].contains('\\') {
            let k = choose|k: int| 0 <= k < root[i].len() && root[i][k] == '\\';
        }
    }
    lemma_pieces_separated(root, '/');
    lemma_separated_lacks(root, "/"@, '\\');
    lemma_concat_lacks(separated(root, "/"@), "/"@, '\\');
}

/// What a spelling begins with as a drive or share makes up the first part of a
/// path.
proof fn lemma_root_found(all: Seq<Seq<char>>)
    requires
        forall|i: int| 0 <= i < all.len() ==> is_slash_free(#[trigger] all[i]),
        root_pieces(all).len() > 0,
    ensures
        are_root_pieces(root_pieces(all)),
        root_pieces(all).len() <= all.len(),
        is_path(seq![root_text(root_pieces(all))]),
        is_rooted(seq![root_text(root_pieces(all))]),
{
    let root = root_pieces(all);
    if !(all.len() >= 2 && is_drive(all[0])) {
        assert(is_slash_free(all[2]));
        assert(is_slash_free(all[3]));
    }
    assert(are_root_pieces(root));
    lemma_root_pieces_free(root);
    assert(is_root(root_text(root)));
}

/// The pieces of a spelling without backslashes are free of slashes.
proof fn lemma_slashed_pieces(path: Seq<char>)
    ensures
        forall|i: int|
            0 <= i < pieces(slashed(path), '/').len() ==> is_slash_free(
                #[trigger] pieces(slashed(path), '/')[i],
            ),
{
    let text = slashed(path);
    lemma_pieces(text, '/');
    assert(!text.contains('\\')) by {
        if text.contains('\\') {
            let k = choose|k: int| 0 <= k < text.len() && text[k] == '\\';
        }
    }
    lemma_pieces_lack(text, '/', '\\');
}

/// The pieces of a text hold nothing that it does not.
proof fn lemma_pieces_lack(s: Seq<char>, sep: char, c: char)
    requires
        !s.contains(c),
    ensures
        forall|i: int| 0 <= i < pieces(s, sep).len() ==> !(#[trigger] pieces(s, sep)[i]).contains(c),
    decreases s.len(),
{
    if s.len() > 0 {
        let front = s.drop_last();
        assert(!front.contains(c)) by {
            if front.contains(c) {
                let k = choose|k: int| 0 <= k < front.len() && front[k] == c;
                assert(s[k] == c);
            }
        }
        lemma_pieces_lack(front, sep, c);
        lemma_pieces(front, sep);
        let before = pieces(front, sep);
        let r = pieces(s, sep);
        assert forall|i: int| 0 <= i < r.len() implies !(#[trigger] r[i]).contains(c) by {
            if i < r.len() - 1 {
                assert(r[i] == before[i]);
            } else if s.last() != sep {
                let last = before[before.len() - 1];
                assert(r[i] == last.push(s.last()));
                if r[i].contains(c) {
                    let k = choose|k: int| 0 <= k < r[i].len() && r[i][k] == c;
                    if k < last.len() {
                        assert(last[k] == c);
                    } else {
                        assert(s[s.len() - 1] == c);
                    }
                }
            }
        }
    }
}

/// A spelling names a path, on a drive or share exactly where it is read so.
pub proof fn lemma_resolved_path(path: Seq<char>, base: Option<Seq<Seq<char>>>)
    requires
        base is Some ==> is_path(base->0),
    ensures
        resolved(path, base) is Some ==> is_path(resolved(path, base)->0) && is_rooted(
            resolved(path, base)->0,
        ) == has_drives(path, base),
{
    lemma_pieces(path, '/');
    lemma_slashed_pieces(path);
    if has_drives(path, base) {
        let steps = pieces(slashed(path), '/');
        let root = root_pieces(steps);
        if root.len() > 0 {
            lemma_root_found(steps);
            let rest = steps.skip(root.len() as int);
            assert forall|i: int| 0 <= i < rest.len() implies !(#[trigger] rest[i]).contains('/')
                && is_slash_free(rest[i]) by {
                assert(rest[i] == steps[i + root.len()]);
            }
            lemma_walked_path(seq![root_text(root)], rest);
        } else if base is Some {
            let b = base->0;
            assert(is_path(b.take(1)) && is_rooted(b.take(1))) by {
                assert(b.take(1)[0] == b[0]);
            }
            assert forall|i: int| 0 <= i < steps.len() implies !(#[trigger] steps[i]).contains('/')
                && is_slash_free(steps[i]) by {}
            lemma_walked_path(b.take(1), steps);
            lemma_walked_path(b, steps);
        }
    } else {
        lemma_walked_path(Seq::empty(), pieces(path, '/'));
        if base is Some {
            lemma_walked_path(base->0, pieces(path, '/'));
        }
    }
}

proof fn lemma_walked_down(base: Seq<Seq<char>>, steps: Seq<Seq<char>>)
    requires
        are_components(steps),
    ensures
        walked(base, steps) == base + steps,
    decreases steps.len(),
{
    if steps.len() == 0 {
        assert(base + steps =~= base);
    } else {
        let front = steps.drop_last();
        assert forall|i: int| 0 <= i < front.len() implies is_component(#[trigger] front[i]) by {
            assert(front[i] == steps[i]);
        }
        lemma_walked_down(base, front);
        assert(is_component(steps[steps.len() - 1]));
        assert((base + front).push(steps.last()) =~= base + steps);
    }
}

proof fn lemma_walked_up(base: Seq<Seq<char>>, n: nat)
    requires
        n <= base.len() - floor(base),
    ensures
        walked(base, Seq::new(n, |i: int| ".."@)) == base.take(base.len() - n),
    decreases n,
{
    let ups = Seq::new(n, |i: int| ".."@);
    if n == 0 {
        assert(base.take(base.len() as int) =~= base);
    } else {
        assert(ups.drop_last() =~= Seq::new((n - 1) as nat, |i: int| ".."@));
        lemma_walked_up(base, (n - 1) as nat);
        reveal_strlit(".");
        reveal_strlit("..");
        assert(ups.last() == ".."@);
        assert(".."@.len() == 2);
        assert("."@.len() == 1);
        let at = base.take(base.len() - (n - 1));
        assert(at[0] == base[0]);
        assert(floor(at) == floor(base));
        assert(at.drop_last() =~= base.take(base.len() - n));
    }
}

pub proof fn lemma_walked_split(base: Seq<Seq<char>>, a: Seq<Seq<char>>, b: Seq<Seq<char>>)
    ensures
        walked(base, a + b) == walked(walked(base, a), b),
    decreases b.len(),
{
    if b.len() == 0 {
        assert(a + b =~= a);
    } else {
        assert((a + b).drop_last() =~= a + b.drop_last());
        lemma_walked_split(base, a, b.drop_last());
    }
}

/// Two paths share their first `shared` components, and no more than they have.
pub proof fn lemma_shared(a: Seq<Seq<char>>, b: Seq<Seq<char>>)
    ensures
        0 <= shared(a, b) <= a.len(),
        shared(a, b) <= b.len(),
        a.take(shared(a, b)) == b.take(shared(a, b)),
    decreases a.len(),
{
    if a.len() > 0 && b.len() > 0 && a[0] == b[0] {
        let c = a.drop_first();
        let d = b.drop_first();
        lemma_shared(c, d);
        let n = shared(c, d);
        assert(a.take(n + 1) =~= seq![a[0]] + c.take(n));
        assert(b.take(n + 1) =~= seq![b[0]] + d.take(n));
    } else {
        assert(a.take(0) =~= b.take(0));
    }
}

/// Paths on one drive or share have that in common.
proof fn lemma_shared_root(from: Seq<Seq<char>>, to: Seq<Seq<char>>)
    requires
        same_root(from, to),
    ensures
        shared(from, to) >= floor(from),
{
    lemma_shared(from.drop_first(), to.drop_first());
}

/// Walking the steps between a directory and a target, from that directory,
/// leads to the target.
pub proof fn law_steps_lead_there(from: Seq<Seq<char>>, to: Seq<Seq<char>>)
    requires
        is_path(from),
        is_path(to),
        same_root(from, to),
    ensures
        walked(from, steps_between(from, to)) == to,
{
    lemma_shared(from, to);
    lemma_shared_root(from, to);
    let n = shared(from, to);
    let ups = Seq::new((from.len() - n) as nat, |i: int| ".."@);
    let downs = to.skip(n);
    lemma_walked_split(from, ups, downs);
    lemma_walked_up(from, (from.len() - n) as nat);
    assert forall|i: int| 0 <= i < downs.len() implies is_component(#[trigger] downs[i]) by {
        assert(downs[i] == to[i + n]);
    }
    lemma_walked_down(from.take(n), downs);
    assert(to.take(n) + downs =~= to);
}

proof fn lemma_steps_hold_no_slash(from: Seq<Seq<char>>, to: Seq<Seq<char>>)
    requires
        is_path(from),
        is_path(to),
        same_root(from, to),
    ensures
        forall|i: int|
            0 <= i < steps_between(from, to).len() ==> !(#[trigger] steps_between(
                from,
                to,
            )[i]).contains('/') && steps_between(from, to)[i].len() > 0 && (is_rooted(from)
                ==> is_slash_free(steps_between(from, to)[i])),
{
    let steps = steps_between(from, to);
    lemma_shared(from, to);
    lemma_shared_root(from, to);
    reveal_strlit("..");
    assert forall|i: int| 0 <= i < steps.len() implies !(#[trigger] steps[i]).contains('/')
        && steps[i].len() > 0 && (is_rooted(from) ==> is_slash_free(steps[i])) by {
        if i < from.len() - shared(from, to) {
            assert(steps[i] == ".."@);
        } else {
            let k = i - (from.len() - shared(from, to)) + shared(from, to);
            assert(steps[i] == to[k]);
            assert(is_component(to[k]));
        }
    }
}

/// Whether the steps between a directory and a target, spelled out, would be taken
/// for a drive: a folder right below the directory is called like one.
pub open spec fn steps_name_drive(from: Seq<Seq<char>>, to: Seq<Seq<char>>) -> bool {
    let steps = steps_between(from, to);
    is_rooted(from) && steps.len() > 1 && is_drive(steps[0])
}

/// The steps between a directory and a target are not spelled from the root on.
pub proof fn law_steps_spelling_is_relative(from: Seq<Seq<char>>, to: Seq<Seq<char>>)
    requires
        is_path(from),
        is_path(to),
        same_root(from, to),
        steps_between(from, to).len() > 0,
        !steps_name_drive(from, to),
    ensures
        !is_absolute(separated(steps_between(from, to), "/"@), is_rooted(from)),
        !leads_with_slash(separated(steps_between(from, to), "/"@)),
{
    let steps = steps_between(from, to);
    let text = separated(steps, "/"@);
    lemma_steps_hold_no_slash(from, to);
    lemma_separated_first(steps, "/"@);
    assert(steps[0][0] != '/') by {
        if steps[0][0] == '/' {
            assert(steps[0].contains('/'));
        }
    }
    if is_rooted(from) {
        lemma_steps_spelling(from, to);
    }
}

/// The steps between a directory and a target, spelled out, are cut into the steps
/// again, and hold no backslash where there are drives.
pub proof fn lemma_steps_spelling(from: Seq<Seq<char>>, to: Seq<Seq<char>>)
    requires
        is_path(from),
        is_path(to),
        same_root(from, to),
        steps_between(from, to).len() > 0,
    ensures
        ({
            let text = separated(steps_between(from, to), "/"@);
            &&& pieces(text, '/') == steps_between(from, to)
            &&& is_rooted(from) ==> slashed(text) == text
        }),
{
    let steps = steps_between(from, to);
    let text = separated(steps, "/"@);
    reveal_strlit("/");
    assert("/"@ =~= seq!['/']);
    lemma_steps_hold_no_slash(from, to);
    lemma_pieces_separated(steps, '/');
    if is_rooted(from) {
        assert forall|i: int| 0 <= i < steps.len() implies !(#[trigger] steps[i]).contains(
            '\\',
        ) by {
            assert(is_slash_free(steps[i]));
        }
        lemma_separated_lacks(steps, "/"@, '\\');
        lemma_slashed_same(text);
    }
}

proof fn lemma_slashed_same(text: Seq<char>)
    requires
        !text.contains('\\'),
    ensures
        slashed(text) == text,
{
    assert forall|i: int| 0 <= i < text.len() implies #[trigger] slashed(text)[i] == text[i] by {
        if text[i] == '\\' {
            assert(text.contains('\\'));
        }
    }
    assert(slashed(text) =~= text);
}

/// The steps between a directory and a target on one drive, spelled with `/`, name
/// the target as seen from that directory.
pub proof fn law_relative_spelling_resolves(from: Seq<Seq<char>>, to: Seq<Seq<char>>)
    requires
        is_path(from),
        is_path(to),
        same_root(from, to),
        steps_between(from, to).len() > 0,
        !steps_name_drive(from, to),
    ensures
        resolved(separated(steps_between(from, to), "/"@), Some(from)) == Some(to),
{
    lemma_steps_spelling(from, to);
    law_steps_lead_there(from, to);
    law_steps_spelling_is_relative(from, to);
}

/// What is put together begins as its first part does.
proof fn lemma_separated_first(parts: Seq<Seq<char>>, sep: Seq<char>)
    requires
        parts.len() > 0,
        parts[0].len() > 0,
    ensures
        separated(parts, sep).len() > 0,
        separated(parts, sep)[0] == parts[0][0],
    decreases parts.len(),
{
    if parts.len() > 1 {
        lemma_separated_first(parts.drop_last(), sep);
    }
}

/// A path spelled from the root on names itself, wherever it is read as what it
/// is: with drives where it is on one, and without where it is not.
pub proof fn law_absolute_spelling_resolves(path: Seq<Seq<char>>, base: Option<Seq<Seq<char>>>)
    requires
        is_path(path),
        has_drives(spelled(path), base) == is_rooted(path),
    ensures
        resolved(spelled(path), base) == Some(path),
{
    if is_rooted(path) {
        lemma_rooted_spelling_resolves(path, base);
    } else {
        lemma_plain_spelling_resolves(path, base);
    }
}

proof fn lemma_rooted_spelling_resolves(path: Seq<Seq<char>>, base: Option<Seq<Seq<char>>>)
    requires
        is_path(path),
        is_rooted(path),
        has_drives(spelled(path), base),
    ensures
        resolved(spelled(path), base) == Some(path),
{
    reveal_strlit("/");
    assert("/"@ =~= seq!['/']);
    let root = choose|root: Seq<Seq<char>>|
        are_root_pieces(root) && path[0] == #[trigger] root_text(root);
    lemma_root_pieces_free(root);
    let rest = path.skip(1);
    let tail = separated(rest, "/"@);
    let text = spelled(path);
    let head = separated(root, "/"@);
    assert(text =~= head + seq!['/'] + tail);
    assert forall|i: int| 0 <= i < rest.len() implies is_component(#[trigger] rest[i])
        && is_slash_free(rest[i]) by {
        assert(rest[i] == path[i + 1]);
    }
    assert forall|i: int| 0 <= i < rest.len() implies !(#[trigger] rest[i]).contains('\\') by {
        assert(is_slash_free(rest[i]));
    }
    lemma_separated_lacks(rest, "/"@, '\\');
    lemma_concat_lacks(path[0], tail, '\\');
    lemma_slashed_same(text);
    lemma_pieces_concat(head, tail, '/');
    let after = pieces(tail, '/');
    let steps = pieces(text, '/');
    assert(steps == root + after);
    let empty = Seq::<char>::empty();
    if rest.len() > 0 {
        assert forall|i: int| 0 <= i < rest.len() implies !(#[trigger] rest[i]).contains('/') by {
            assert(is_component(rest[i]));
        }
        lemma_pieces_separated(rest, '/');
        lemma_walked_down(seq![path[0]], rest);
        assert(walked(seq![path[0]], after) =~= path);
    } else {
        assert(tail =~= empty);
        assert(after =~= seq![empty]);
        reveal_with_fuel(walked, 2);
        assert(seq![empty].drop_last() =~= Seq::<Seq<char>>::empty());
        assert(seq![empty].last() == empty);
        assert(walked(seq![path[0]], after) =~= path);
    }
    assert(after.len() > 0);
    if root.len() == 1 {
        assert(root_pieces(steps) =~= root) by {
            assert(steps[0] == root[0]);
            assert(seq![capital(root[0][0]), ':'] =~= root[0]);
        }
    } else {
        assert(steps[0] == root[0]);
        assert(steps[1] == root[1]);
        assert(steps[2] == root[2]);
        assert(steps[3] == root[3]);
        assert(root_pieces(steps) =~= root);
    }
    assert(steps.skip(root.len() as int) =~= after);
}

proof fn lemma_plain_spelling_resolves(path: Seq<Seq<char>>, base: Option<Seq<Seq<char>>>)
    requires
        is_path(path),
        !is_rooted(path),
        !has_drives(spelled(path), base),
    ensures
        resolved(spelled(path), base) == Some(path),
{
    reveal_strlit("/");
    assert("/"@ =~= seq!['/']);
    let text = "/"@ + separated(path, "/"@);
    let empty = Seq::<char>::empty();
    let whole = seq![empty] + path;
    assert(walked(Seq::empty(), seq![empty]) =~= Seq::<Seq<char>>::empty()) by {
        reveal_with_fuel(walked, 2);
        assert(seq![empty].drop_last() =~= Seq::<Seq<char>>::empty());
        assert(seq![empty].last() == empty);
    }
    lemma_walked_split(Seq::empty(), seq![empty], path);
    lemma_walked_down(Seq::empty(), path);
    assert(Seq::<Seq<char>>::empty() + path =~= path);
    if path.len() == 0 {
        assert(text =~= seq!['/']);
        reveal_with_fuel(pieces, 2);
        assert(text.drop_last() =~= empty);
        assert(text.last() == '/');
        assert(pieces(text, '/') =~= seq![empty].push(empty));
        assert(seq![empty].push(empty).drop_last() =~= seq![empty]);
        assert(seq![empty].push(empty).last() == empty);
        assert(walked(Seq::<Seq<char>>::empty(), seq![empty].push(empty)) =~= Seq::<
            Seq<char>,
        >::empty());
        assert(path =~= Seq::<Seq<char>>::empty());
    } else {
        assert forall|i: int| 0 <= i < whole.len() implies !(#[trigger] whole[i]).contains(
            '/',
        ) by {
            if i > 0 {
                assert(is_component(path[i - 1]));
            }
        }
        lemma_pieces_separated(whole, '/');
        lemma_separated_lead(path, "/"@);
        assert(separated(whole, "/"@) =~= text);
    }
}

proof fn lemma_separated_lead(parts: Seq<Seq<char>>, sep: Seq<char>)
    requires
        parts.len() > 0,
    ensures
        separated(seq![Seq::<char>::empty()] + parts, sep) == sep + separated(parts, sep),
    decreases parts.len(),
{
    let empty = Seq::<char>::empty();
    let whole = seq![empty] + parts;
    assert(whole.drop_last() =~= seq![empty] + parts.drop_last());
    if parts.len() == 1 {
        assert(whole.drop_last() =~= seq![empty]);
        reveal_with_fuel(separated, 2);
        assert(whole.last() == parts[0]);
        assert(separated(whole, sep) == empty + sep + parts[0]);
        assert(empty + sep + parts[0] =~= sep + parts[0]);
    } else {
        lemma_separated_lead(parts.drop_last(), sep);
        assert(whole.last() == parts.last());
        assert(separated(whole, sep) =~= sep + separated(parts, sep));
    }
}

impl FilePath {
    /// The parts make up a path.
    pub open spec fn wf(&self) -> bool {
        is_path(self.deep_view())
    }

    /// A copy of the path.
    pub fn copy(&self) -> (r: FilePath)
        ensures
            r.deep_view() == self.deep_view(),
    {
        FilePath { parts: copy_texts(&self.parts) }
    }

    /// Whether two paths are the same.
    pub fn same(&self, other: &FilePath) -> (r: bool)
        ensures
            r == (self.deep_view() == other.deep_view()),
    {
        same_texts(&self.parts, &other.parts)
    }

    /// Whether the path begins with a drive or a share.
    pub fn has_root(&self) -> (r: bool)
        ensures
            r == is_rooted(self.deep_view()),
    {
        rooted(&self.parts)
    }

    /// Whether two paths are on the same drive or share, or on a system without.
    pub fn shares_root(&self, other: &FilePath) -> (r: bool)
        ensures
            r == same_root(self.deep_view(), other.deep_view()),
    {
        if self.has_root() != other.has_root() {
            return false;
        }
        if !self.has_root() {
            return true;
        }
        proof {
            assert(self.deep_view()[0] == self.parts@[0]@);
            assert(other.deep_view()[0] == other.parts@[0]@);
        }
        same_text(self.parts[0].as_str(), other.parts[0].as_str())
    }

    /// The directory that holds the path; the root has none.
    pub fn parent(&self) -> (r: Option<FilePath>)
        ensures
            r.deep_view() == parent_of(self.deep_view()),
            self.wf() && r is Some ==> r->0.wf(),
    {
        let low: usize = if rooted(&self.parts) {
            1
        } else {
            0
        };
        if self.parts.len() <= low {
            return None;
        }
        let mut parts = copy_texts(&self.parts);
        let ghost before = parts.deep_view();
        parts.pop();
        proof {
            let after = parts.deep_view();
            assert(after =~= before.drop_last());
            if self.wf() {
                if after.len() > 0 {
                    assert(after[0] == before[0]);
                }
                assert forall|i: int| floor(before) <= i < after.len() implies is_component(
                    #[trigger] after[i],
                ) && (is_rooted(before) ==> is_slash_free(after[i])) by {
                    assert(after[i] == before[i]);
                }
            }
        }
        Some(FilePath { parts })
    }

    /// The path one component further down.
    pub fn join(&self, part: &str) -> (r: FilePath)
        ensures
            r.deep_view() == self.deep_view().push(part@),
    {
        let mut parts = copy_texts(&self.parts);
        let ghost before = parts.deep_view();
        parts.push(part.to_owned());
        proof {
            assert(parts.deep_view() =~= before.push(part@));
        }
        FilePath { parts }
    }

    /// The path that an absolute spelling names.
    pub fn parse(text: &str) -> (r: Option<FilePath>)
        ensures
            r.deep_view() == resolved(text@, None),
            r is Some ==> r->0.wf(),
    {
        resolve_target(text, None)
    }
}

/// Where a relative spelling leads, from a directory on.
pub open spec fn pieces_path(base: Seq<Seq<char>>, path: Seq<char>) -> Seq<Seq<char>> {
    walked(
        base,
        pieces(
            if is_rooted(base) {
                slashed(path)
            } else {
                path
            },
            '/',
        ),
    )
}

impl FilePath {
    /// Where a relative spelling leads, from this directory on.
    pub fn descend(&self, path: &str) -> (r: FilePath)
        ensures
            r.deep_view() == pieces_path(self.deep_view(), path@),
    {
        let steps = if self.has_root() {
            let text = with_slashes(path);
            split_on(text.as_str(), '/')
        } else {
            split_on(path, '/')
        };
        let mut at = self.copy();
        walk(&mut at.parts, &steps);
        at
    }
}

/// The directory that holds a path.
pub open spec fn parent_of(path: Seq<Seq<char>>) -> Option<Seq<Seq<char>>> {
    if path.len() <= floor(path) {
        None
    } else {
        Some(path.drop_last())
    }
}

/// Whether parts begin with a drive or a share.
fn rooted(parts: &Vec<String>) -> (r: bool)
    ensures
        r == is_rooted(parts.deep_view()),
{
    if parts.len() == 0 {
        return false;
    }
    let chars = chars_of(parts[0].as_str());
    proof {
        assert(parts.deep_view()[0] == chars@);
    }
    chars.len() > 0 && chars[chars.len() - 1] == '/'
}

/// `path` with every backslash made a slash.
fn with_slashes(path: &str) -> (r: String)
    ensures
        r@ == slashed(path@),
{
    let chars = chars_of(path);
    let mut out = String::new();
    let mut i: usize = 0;
    while i < chars.len()
        invariant
            chars@ == path@,
            i <= chars.len(),
            out@ == slashed(path@).take(i as int),
        decreases chars.len() - i,
    {
        let c = if chars[i] == '\\' {
            '/'
        } else {
            chars[i]
        };
        out.push(c);
        i = i + 1;
        proof {
            assert(slashed(path@).take(i as int) =~= slashed(path@).take(i - 1).push(c));
        }
    }
    proof {
        assert(slashed(path@).take(i as int) =~= slashed(path@));
    }
    out
}

/// The capital form of an ASCII letter.
fn to_capital(c: char) -> (r: char)
    requires
        ascii_letter(c),
    ensures
        r == capital(c),
{
    if 'a' <= c && c <= 'z' {
        (c as u8 - 32) as char
    } else {
        c
    }
}

/// The pieces of the drive or share that `steps` begin with.
fn find_root(steps: &Vec<String>) -> (r: Vec<String>)
    ensures
        r.deep_view() == root_pieces(steps.deep_view()),
{
    let ghost all = steps.deep_view();
    let mut root: Vec<String> = Vec::new();
    if steps.len() >= 2 {
        let first = chars_of(steps[0].as_str());
        proof {
            assert(all[0] == first@);
        }
        if first.len() == 2 && (('A' <= first[0] && first[0] <= 'Z') || ('a' <= first[0]
            && first[0] <= 'z')) && first[1] == ':' {
            let mut drive = String::new();
            drive.push(to_capital(first[0]));
            drive.push(':');
            proof {
                assert(drive@ =~= seq![capital(all[0][0]), ':']);
            }
            root.push(drive);
            proof {
                assert(root.deep_view() =~= root_pieces(all));
            }
            return root;
        }
    }
    if steps.len() >= 4 && steps[0].as_str().is_empty() && steps[1].as_str().is_empty()
        && !steps[2].as_str().is_empty() && !steps[3].as_str().is_empty() {
        root.push(steps[0].clone());
        root.push(steps[1].clone());
        root.push(steps[2].clone());
        root.push(steps[3].clone());
        proof {
            assert(root.deep_view() =~= all.take(4));
            assert(all[0].len() == 0 && all[1].len() == 0);
            assert(root.deep_view() =~= root_pieces(all));
        }
        return root;
    }
    proof {
        assert(root.deep_view() =~= root_pieces(all));
    }
    root
}

/// Whether `path` is spelled from the root on, where there are drives or are none.
pub fn spells_root(path: &str, drives: bool) -> (r: bool)
    ensures
        r == is_absolute(path@, drives),
{
    if drives {
        let text = with_slashes(path);
        let root = find_root(&split_on(text.as_str(), '/'));
        proof {
            assert(root.deep_view().len() == root.len());
        }
        root.len() > 0
    } else {
        let chars = chars_of(path);
        chars.len() > 0 && chars[0] == '/'
    }
}

/// Takes a number of steps.
fn walk(at: &mut Vec<String>, steps: &Vec<String>)
    ensures
        final(at).deep_view() == walked(old(at).deep_view(), steps.deep_view()),
{
    let ghost from = at.deep_view();
    let ghost all = steps.deep_view();
    let mut i: usize = 0;
    proof {
        assert(all.take(0) =~= Seq::<Seq<char>>::empty());
    }
    while i < steps.len()
        invariant
            i <= steps.len(),
            all == steps.deep_view(),
            at.deep_view() == walked(from, all.take(i as int)),
        decreases steps.len() - i,
    {
        let ghost before = at.deep_view();
        let piece = &steps[i];
        i = i + 1;
        proof {
            assert(all.take(i as int).drop_last() =~= all.take(i - 1));
        }
        if piece.as_str().is_empty() || same_text(piece.as_str(), ".") {
        } else if same_text(piece.as_str(), "..") {
            let low: usize = if rooted(at) {
                1
            } else {
                0
            };
            if at.len() > low {
                at.pop();
                proof {
                    assert(at.deep_view() =~= before.drop_last());
                }
            }
        } else {
            at.push(piece.clone());
            proof {
                assert(at.deep_view() =~= before.push(piece@));
            }
        }
    }
    proof {
        assert(all.take(i as int) =~= all);
    }
}

/// The path that the spelling `path` names, seen from directory `base`. A
/// relative spelling needs one.
pub fn resolve_target(path: &str, base: Option<&FilePath>) -> (r: Option<FilePath>)
    ensures
        r.deep_view() == resolved(
            path@,
            match base {
                Some(base) => Some(base.deep_view()),
                None => None,
            },
        ),
        r is Some && (base is Some ==> base->0.wf()) ==> r->0.wf(),
{
    let ghost seen = match base {
        Some(base) => Some(base.deep_view()),
        None => None,
    };
    let slash = spells_root(path, false);
    let drives = match base {
        Some(base) => base.has_root(),
        None => !slash && spells_root(path, true),
    };
    proof {
        if base is Some ==> base->0.wf() {
            lemma_resolved_path(path@, seen);
        }
    }
    if drives {
        let text = with_slashes(path);
        let steps = split_on(text.as_str(), '/');
        let root = find_root(&steps);
        proof {
            assert(root.deep_view().len() == root.len());
        }
        if root.len() > 0 {
            let mut first = join_with(&root, "/");
            first.append("/");
            let rest = texts_from(&steps, root.len());
            let mut at: Vec<String> = Vec::new();
            at.push(first);
            proof {
                assert(at.deep_view() =~= seq![root_text(root.deep_view())]);
            }
            walk(&mut at, &rest);
            return Some(FilePath { parts: at });
        }
        let base = match base {
            Some(base) => base,
            None => {
                return None;
            },
        };
        let mut at: Vec<String> = Vec::new();
        if spells_root(text.as_str(), false) {
            at.push(base.parts[0].clone());
            proof {
                assert(at.deep_view() =~= base.deep_view().take(1));
            }
        } else {
            at = copy_texts(&base.parts);
        }
        walk(&mut at, &steps);
        return Some(FilePath { parts: at });
    }
    let steps = split_on(path, '/');
    let mut at: Vec<String> = if slash {
        Vec::new()
    } else {
        match base {
            Some(base) => copy_texts(&base.parts),
            None => {
                return None;
            },
        }
    };
    proof {
        assert(slash ==> at.deep_view() =~= Seq::<Seq<char>>::empty());
    }
    walk(&mut at, &steps);
    Some(FilePath { parts: at })
}

/// The texts from index `from` on.
fn texts_from(texts: &Vec<String>, from: usize) -> (r: Vec<String>)
    requires
        from <= texts.len(),
    ensures
        r.deep_view() == texts.deep_view().skip(from as int),
{
    let ghost all = texts.deep_view();
    let mut out: Vec<String> = Vec::new();
    let mut i: usize = from;
    proof {
        assert(out.deep_view() =~= all.subrange(from as int, from as int));
    }
    while i < texts.len()
        invariant
            all == texts.deep_view(),
            from <= i <= texts.len(),
            out.deep_view() == all.subrange(from as int, i as int),
        decreases texts.len() - i,
    {
        let ghost before = out.deep_view();
        out.push(texts[i].clone());
        i = i + 1;
        proof {
            assert(out.deep_view() =~= before.push(all[i - 1]));
            assert(before.push(all[i - 1]) =~= all.subrange(from as int, i as int));
        }
    }
    proof {
        assert(all.subrange(from as int, i as int) =~= all.skip(from as int));
    }
    out
}

/// The steps from `from_dir` to `target` with `/` between them, or `None` where
/// both are on different drives or shares, or the target is the directory itself.
pub fn relative_spelling(from_dir: &FilePath, target: &FilePath) -> (r: Option<String>)
    ensures
        r.deep_view() == ({
            let steps = steps_between(from_dir.deep_view(), target.deep_view());
            if !same_root(from_dir.deep_view(), target.deep_view()) || steps.len() == 0 {
                None
            } else {
                Some(separated(steps, "/"@))
            }
        }),
{
    let ghost from = from_dir.deep_view();
    let ghost to = target.deep_view();
    if !from_dir.shares_root(target) {
        return None;
    }
    let mut common: usize = 0;
    proof {
        assert(from.skip(0) =~= from);
        assert(to.skip(0) =~= to);
    }
    while common < from_dir.parts.len() && common < target.parts.len() && same_text(
        from_dir.parts[common].as_str(),
        target.parts[common].as_str(),
    )
        invariant
            from == from_dir.deep_view(),
            to == target.deep_view(),
            common <= from.len(),
            common <= to.len(),
            shared(from, to) == common + shared(from.skip(common as int), to.skip(common as int)),
        decreases from.len() - common,
    {
        proof {
            let a = from.skip(common as int);
            let b = to.skip(common as int);
            assert(a[0] == from[common as int]);
            assert(b[0] == to[common as int]);
            assert(a.drop_first() =~= from.skip(common + 1));
            assert(b.drop_first() =~= to.skip(common + 1));
        }
        common = common + 1;
    }
    proof {
        let a = from.skip(common as int);
        let b = to.skip(common as int);
        if a.len() > 0 && b.len() > 0 {
            assert(a[0] == from[common as int]);
            assert(b[0] == to[common as int]);
        }
        assert(shared(a, b) == 0);
    }
    let mut steps: Vec<String> = Vec::new();
    let mut i: usize = common;
    while i < from_dir.parts.len()
        invariant
            from == from_dir.deep_view(),
            common <= i <= from.len(),
            steps.len() == i - common,
            forall|k: int| 0 <= k < steps.len() ==> #[trigger] steps@[k]@ == ".."@,
        decreases from.len() - i,
    {
        steps.push("..".to_owned());
        i = i + 1;
    }
    let ghost ups = from.len() - common;
    let mut j: usize = common;
    while j < target.parts.len()
        invariant
            to == target.deep_view(),
            common <= j <= to.len(),
            ups >= 0,
            steps.len() == ups + (j - common),
            forall|k: int| 0 <= k < ups ==> #[trigger] steps@[k]@ == ".."@,
            forall|k: int| ups <= k < steps.len() ==> #[trigger] steps@[k]@ == to[k - ups + common],
        decreases to.len() - j,
    {
        steps.push(target.parts[j].clone());
        j = j + 1;
    }
    proof {
        assert(steps.deep_view() =~= steps_between(from, to));
    }
    if steps.len() == 0 {
        None
    } else {
        Some(join_with(&steps, "/"))
    }
}

/// The path spelled from the root on, with `/` between its components.
pub fn absolute_spelling(path: &FilePath) -> (r: Option<String>)
    ensures
        r.deep_view() == Some(spelled(path.deep_view())),
{
    if path.has_root() {
        let rest = texts_from(&path.parts, 1);
        let tail = join_with(&rest, "/");
        Some(cat(path.parts[0].as_str(), tail.as_str()))
    } else {
        let tail = join_with(&path.parts, "/");
        Some(cat("/", tail.as_str()))
    }
}

/// The path as its own system shows it.
pub fn display(path: &FilePath) -> (r: String)
    ensures
        r@ == displayed(path.deep_view()),
{
    let spelling = match absolute_spelling(path) {
        Some(spelling) => spelling,
        None => String::new(),
    };
    if !path.has_root() {
        return spelling;
    }
    let chars = chars_of(spelling.as_str());
    let mut out = String::new();
    let mut i: usize = 0;
    while i < chars.len()
        invariant
            chars@ == spelling@,
            i <= chars.len(),
            out@ == backslashed(spelling@).take(i as int),
        decreases chars.len() - i,
    {
        let c = if chars[i] == '/' {
            '\\'
        } else {
            chars[i]
        };
        out.push(c);
        i = i + 1;
        proof {
            assert(backslashed(spelling@).take(i as int) =~= backslashed(spelling@).take(
                i - 1,
            ).push(c));
        }
    }
    proof {
        assert(backslashed(spelling@).take(i as int) =~= backslashed(spelling@));
    }
    out
}

/// The last component of a path without its extension, and the extension: what
/// stands before and behind the last dot that is not the first character.
pub open spec fn stem_and_extension(name: Seq<char>) -> (Seq<char>, Option<Seq<char>>) {
    let dot = last_dot(name);
    if dot <= 0 {
        (name, None)
    } else {
        (name.take(dot), Some(name.skip(dot + 1)))
    }
}

/// The index of the last dot in a name, or -1.
pub open spec fn last_dot(name: Seq<char>) -> int
    decreases name.len(),
{
    if name.len() == 0 {
        -1
    } else if name.last() == '.' {
        name.len() - 1
    } else {
        last_dot(name.drop_last())
    }
}

/// A file name cut at its last dot.
pub fn split_extension(name: &str) -> (r: (String, Option<String>))
    ensures
        r.deep_view() == stem_and_extension(name@),
{
    let chars = chars_of(name);
    let mut i: usize = chars.len();
    proof {
        assert(name@.take(i as int) =~= name@);
    }
    while i > 0 && chars[i - 1] != '.'
        invariant
            chars@ == name@,
            i <= chars.len(),
            last_dot(name@) == last_dot(name@.take(i as int)),
        decreases i,
    {
        proof {
            assert(name@.take(i as int).drop_last() =~= name@.take(i - 1));
        }
        i = i - 1;
    }
    if i > 1 {
        let stem = text_between(&chars, 0, i - 1);
        let extension = text_between(&chars, i, chars.len());
        proof {
            assert(stem@ =~= name@.take(i - 1));
            assert(extension@ =~= name@.skip(i as int));
        }
        (stem, Some(extension))
    } else {
        (name.to_owned(), None)
    }
}

/// The extension of a file name is what stands behind its last dot, unless the name
/// begins with that dot or has none.
pub proof fn law_extensions_stand_behind_the_last_dot(stem: Seq<char>, extension: Seq<char>)
    requires
        !extension.contains('.'),
    ensures
        stem.len() > 0 ==> stem_and_extension(stem + seq!['.'] + extension) == (
            stem,
            Some(extension),
        ),
        stem_and_extension(seq!['.'] + extension) == (
            seq!['.'] + extension,
            None::<Seq<char>>,
        ),
        stem_and_extension(extension) == (extension, None::<Seq<char>>),
{
    lemma_last_dot(stem + seq!['.'], extension);
    lemma_last_dot(seq!['.'], extension);
    lemma_last_dot(Seq::empty(), extension);
    assert(Seq::<char>::empty() + extension =~= extension);
    let name = stem + seq!['.'] + extension;
    assert(name.take(stem.len() as int) =~= stem);
    assert(name.skip(stem.len() as int + 1) =~= extension);
}

proof fn lemma_last_dot(head: Seq<char>, tail: Seq<char>)
    requires
        !tail.contains('.'),
        head.len() == 0 || head.last() == '.',
    ensures
        last_dot(head + tail) == head.len() - 1,
    decreases tail.len(),
{
    let s = head + tail;
    if tail.len() > 0 {
        let less = tail.drop_last();
        assert(s.last() == tail[tail.len() - 1]);
        assert(tail.contains(tail[tail.len() - 1]));
        assert(s.drop_last() =~= head + less);
        assert(!less.contains('.')) by {
            if less.contains('.') {
                let i = choose|i: int| 0 <= i < less.len() && less[i] == '.';
                assert(tail[i] == '.');
            }
        }
        lemma_last_dot(head, less);
    } else {
        assert(s =~= head);
    }
}

/// The directory that holds a path is the path without its last component; the root has
/// none, with a drive as without.
pub proof fn law_parents_hold_their_children(dir: Seq<Seq<char>>, part: Seq<char>)
    requires
        part.len() > 0 && part.last() != '/',
    ensures
        parent_of(dir.push(part)) == Some(dir),
        parent_of(Seq::<Seq<char>>::empty()) is None,
        dir.len() == 1 && dir[0].len() > 0 && dir[0].last() == '/' ==> parent_of(dir) is None,
{
    assert(dir.push(part).drop_last() =~= dir);
    if dir.len() == 0 {
        assert(dir.push(part)[0] == part);
    } else {
        assert(dir.push(part)[0] == dir[0]);
    }
}

/// A relative spelling leads on from its directory: a component goes down, `..` goes up
/// but not over the root, and `.` stays.
pub proof fn law_steps_go_down_up_or_nowhere(at: Seq<Seq<char>>, part: Seq<char>)
    ensures
        part.len() > 0 && part != "."@ && part != ".."@ ==> step(at, part) == at.push(part),
        step(at, "."@) == at,
        step(at, Seq::empty()) == at,
        at.len() > 1 ==> step(at, ".."@) == at.drop_last(),
        at.len() == 1 && at[0].len() > 0 && at[0].last() == '/' ==> step(at, ".."@) == at,
        at.len() == 1 && !(at[0].len() > 0 && at[0].last() == '/') ==> step(at, ".."@)
            == Seq::<Seq<char>>::empty(),
        at.len() == 0 ==> step(at, ".."@) == at,
{
    reveal_strlit(".");
    reveal_strlit("..");
    assert("."@.len() == 1 && ".."@.len() == 2);
}

/// Where there are drives a backslash is read as a slash; where there are none it is a
/// character like any other.
pub proof fn law_backslashes_are_slashes_on_drives(
    a: Seq<char>,
    b: Seq<char>,
    base: Seq<Seq<char>>,
)
    requires
        base.len() > 0 && base[0].len() > 0 && base[0].last() == '/',
    ensures
        resolved(a + seq!['\\'] + b, Some(base)) == resolved(a + seq!['/'] + b, Some(base)),
{
    assert(slashed(a + seq!['\\'] + b) =~= slashed(a + seq!['/'] + b));
}

/// A path without a drive is shown with slashes, from the root on; one with a drive with
/// backslashes alone.
pub proof fn law_paths_are_shown_as_their_system_writes_them(path: Seq<Seq<char>>, i: int)
    ensures
        path.len() > 0 && path[0].len() > 0 && path[0].last() == '/' && 0 <= i < displayed(
            path,
        ).len() ==> displayed(path)[i] != '/',
        path.len() == 0 ==> displayed(path) == "/"@,
        path.len() == 1 && path[0].len() > 0 && path[0].last() != '/' ==> displayed(path) == "/"@
            + path[0],
        path.len() > 1 && path[0].len() > 0 && path[0].last() != '/' ==> displayed(path) == "/"@
            + separated(path, "/"@),
{
    if path.len() == 0 {
        assert(separated(path, "/"@) =~= Seq::<char>::empty());
        assert(displayed(path) =~= "/"@);
    }
}

} // verus!
