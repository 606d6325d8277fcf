//! The lexical order of texts and of paths.

use vstd::prelude::*;

use crate::paths::FilePath;
use crate::strings::chars_of;

verus! {

/// Whether one text comes before another: by the first character in which they
/// differ, a shorter text before its continuations. The UTF-8 forms of the texts
/// are in the same order.
pub open spec fn text_less(a: Seq<char>, b: Seq<char>) -> bool
    decreases a.len(),
{
    if b.len() == 0 {
        false
    } else if a.len() == 0 {
        true
    } else if a[0] == b[0] {
        text_less(a.drop_first(), b.drop_first())
    } else {
        (a[0] as u32) < (b[0] as u32)
    }
}

/// Whether one path comes before another: by the first component in which they
/// differ.
pub open spec fn path_less(a: Seq<Seq<char>>, b: Seq<Seq<char>>) -> bool
    decreases a.len(),
{
    if b.len() == 0 {
        false
    } else if a.len() == 0 {
        true
    } else if a[0] == b[0] {
        path_less(a.drop_first(), b.drop_first())
    } else {
        text_less(a[0], b[0])
    }
}

/// The order of texts is transitive.
pub proof fn lemma_text_less_transitive(a: Seq<char>, b: Seq<char>, c: Seq<char>)
    requires
        text_less(a, b),
        text_less(b, c),
    ensures
        text_less(a, c),
    decreases a.len(),
{
    if a.len() > 0 && a[0] == b[0] && b[0] == c[0] {
        lemma_text_less_transitive(a.drop_first(), b.drop_first(), c.drop_first());
    }
}

/// No text comes before itself, and of two that differ one comes first.
pub proof fn lemma_text_less_total(a: Seq<char>, b: Seq<char>)
    ensures
        a == b ==> !text_less(a, b),
        a != b ==> text_less(a, b) || text_less(b, a),
        !(text_less(a, b) && text_less(b, a)),
    decreases a.len(),
{
    if a.len() > 0 && b.len() > 0 && a[0] == b[0] {
        lemma_text_less_total(a.drop_first(), b.drop_first());
        if a != b && a.drop_first() == b.drop_first() {
            assert(a =~= seq![a[0]] + a.drop_first());
            assert(b =~= seq![b[0]] + b.drop_first());
        }
    } else if a.len() == 0 && b.len() == 0 {
        assert(a =~= b);
    } else if a.len() > 0 && b.len() > 0 {
        let x = a[0];
        let y = b[0];
        if (x as u32) == (y as u32) {
            vstd::utf8::char_u32_cast(x, x as u32);
            vstd::utf8::char_u32_cast(y, y as u32);
        }
    }
}

/// The order of paths is transitive.
pub proof fn lemma_path_less_transitive(
    a: Seq<Seq<char>>,
    b: Seq<Seq<char>>,
    c: Seq<Seq<char>>,
)
    requires
        path_less(a, b),
        path_less(b, c),
    ensures
        path_less(a, c),
    decreases a.len(),
{
    if a.len() > 0 {
        if a[0] == b[0] && b[0] == c[0] {
            lemma_path_less_transitive(a.drop_first(), b.drop_first(), c.drop_first());
        } else if a[0] != b[0] && b[0] != c[0] {
            lemma_text_less_transitive(a[0], b[0], c[0]);
            lemma_text_less_total(a[0], c[0]);
        }
    }
}

/// No path comes before itself, and of two that differ one comes first.
pub proof fn lemma_path_less_total(a: Seq<Seq<char>>, b: Seq<Seq<char>>)
    ensures
        a == b ==> !path_less(a, b),
        a != b ==> path_less(a, b) || path_less(b, a),
    decreases a.len(),
{
    if a.len() > 0 && b.len() > 0 && a[0] == b[0] {
        lemma_path_less_total(a.drop_first(), b.drop_first());
        if a != b && a.drop_first() == b.drop_first() {
            assert(a =~= seq![a[0]] + a.drop_first());
            assert(b =~= seq![b[0]] + b.drop_first());
        }
    } else if a.len() == 0 && b.len() == 0 {
        assert(a =~= b);
    } else if a.len() > 0 && b.len() > 0 {
        lemma_text_less_total(a[0], b[0]);
    }
}

/// Whether `a` comes before `b`.
pub fn is_text_less(a: &str, b: &str) -> (r: bool)
    ensures
        r == text_less(a@, b@),
{
    let x = chars_of(a);
    let y = chars_of(b);
    let mut i: usize = 0;
    proof {
        assert(a@.skip(0) =~= a@);
        assert(b@.skip(0) =~= b@);
    }
    while i < x.len() && i < y.len() && x[i] == y[i]
        invariant
            x@ == a@,
            y@ == b@,
            i <= x.len(),
            i <= y.len(),
            text_less(a@, b@) == text_less(a@.skip(i as int), b@.skip(i as int)),
        decreases x.len() - i,
    {
        proof {
            let s = a@.skip(i as int);
            let t = b@.skip(i as int);
            assert(s[0] == a@[i as int]);
            assert(t[0] == b@[i as int]);
            assert(s.drop_first() =~= a@.skip(i + 1));
            assert(t.drop_first() =~= b@.skip(i + 1));
        }
        i = i + 1;
    }
    proof {
        let s = a@.skip(i as int);
        let t = b@.skip(i as int);
        if i < x.len() {
            assert(s[0] == a@[i as int]);
        }
        if i < y.len() {
            assert(t[0] == b@[i as int]);
        }
    }
    if i >= y.len() {
        false
    } else if i >= x.len() {
        true
    } else {
        (x[i] as u32) < (y[i] as u32)
    }
}

/// Whether `a` comes before `b`.
pub fn is_path_less(a: &FilePath, b: &FilePath) -> (r: bool)
    ensures
        r == path_less(a.deep_view(), b.deep_view()),
{
    let ghost p = a.deep_view();
    let ghost q = b.deep_view();
    let mut i: usize = 0;
    proof {
        assert(p.skip(0) =~= p);
        assert(q.skip(0) =~= q);
    }
    while i < a.parts.len() && i < b.parts.len() && crate::strings::same_text(
        a.parts[i].as_str(),
        b.parts[i].as_str(),
    )
        invariant
            p == a.deep_view(),
            q == b.deep_view(),
            i <= p.len(),
            i <= q.len(),
            path_less(p, q) == path_less(p.skip(i as int), q.skip(i as int)),
        decreases p.len() - i,
    {
        proof {
            let s = p.skip(i as int);
            let t = q.skip(i as int);
            assert(s[0] == p[i as int]);
            assert(t[0] == q[i as int]);
            assert(s.drop_first() =~= p.skip(i + 1));
            assert(t.drop_first() =~= q.skip(i + 1));
        }
        i = i + 1;
    }
    proof {
        let s = p.skip(i as int);
        let t = q.skip(i as int);
        if i < p.len() {
            assert(s[0] == p[i as int]);
        }
        if i < q.len() {
            assert(t[0] == q[i as int]);
        }
    }
    if i >= b.parts.len() {
        false
    } else if i >= a.parts.len() {
        true
    } else {
        is_text_less(a.parts[i].as_str(), b.parts[i].as_str())
    }
}

/// How many of a number of texts come before one.
pub open spec fn text_rank(all: Seq<Seq<char>>, text: Seq<char>) -> nat
    decreases all.len(),
{
    if all.len() == 0 {
        0
    } else {
        text_rank(all.drop_last(), text) + if text_less(all.last(), text) {
            1nat
        } else {
            0
        }
    }
}

/// How many of a number of paths come before one.
pub open spec fn path_rank(all: Seq<Seq<Seq<char>>>, path: Seq<Seq<char>>) -> nat
    decreases all.len(),
{
    if all.len() == 0 {
        0
    } else {
        path_rank(all.drop_last(), path) + if path_less(all.last(), path) {
            1nat
        } else {
            0
        }
    }
}

proof fn lemma_text_rank_monotone(all: Seq<Seq<char>>, a: Seq<char>, b: Seq<char>)
    requires
        text_less(a, b),
    ensures
        text_rank(all, a) <= text_rank(all, b),
        all.contains(a) ==> text_rank(all, a) < text_rank(all, b),
    decreases all.len(),
{
    if all.len() > 0 {
        let front = all.drop_last();
        lemma_text_rank_monotone(front, a, b);
        if text_less(all.last(), a) {
            lemma_text_less_transitive(all.last(), a, b);
        }
        if all.contains(a) && !front.contains(a) {
            let k = choose|k: int| 0 <= k < all.len() && all[k] == a;
            if k < front.len() {
                assert(front[k] == a);
            }
            assert(all.last() == a);
            lemma_text_less_total(a, a);
        }
    }
}

/// Of two texts in a list, the one with the lower rank comes first, and texts of
/// one rank are the same.
pub proof fn law_text_ranks(all: Seq<Seq<char>>, a: Seq<char>, b: Seq<char>)
    requires
        all.contains(a),
        all.contains(b),
    ensures
        text_rank(all, a) < text_rank(all, b) <==> text_less(a, b),
        text_rank(all, a) == text_rank(all, b) <==> a == b,
{
    lemma_text_less_total(a, b);
    if text_less(a, b) {
        lemma_text_rank_monotone(all, a, b);
    } else if text_less(b, a) {
        lemma_text_rank_monotone(all, b, a);
    }
}

proof fn lemma_path_rank_monotone(
    all: Seq<Seq<Seq<char>>>,
    a: Seq<Seq<char>>,
    b: Seq<Seq<char>>,
)
    requires
        path_less(a, b),
    ensures
        path_rank(all, a) <= path_rank(all, b),
        all.contains(a) ==> path_rank(all, a) < path_rank(all, b),
    decreases all.len(),
{
    if all.len() > 0 {
        let front = all.drop_last();
        lemma_path_rank_monotone(front, a, b);
        if path_less(all.last(), a) {
            lemma_path_less_transitive(all.last(), a, b);
        }
        if all.contains(a) && !front.contains(a) {
            let k = choose|k: int| 0 <= k < all.len() && all[k] == a;
            if k < front.len() {
                assert(front[k] == a);
            }
            assert(all.last() == a);
            lemma_path_less_total(a, a);
        }
    }
}

/// Of two paths in a list, the one with the lower rank comes first, and paths of
/// one rank are the same.
pub proof fn law_path_ranks(all: Seq<Seq<Seq<char>>>, a: Seq<Seq<char>>, b: Seq<Seq<char>>)
    requires
        all.contains(a),
        all.contains(b),
    ensures
        path_rank(all, a) < path_rank(all, b) <==> path_less(a, b),
        path_rank(all, a) == path_rank(all, b) <==> a == b,
{
    lemma_path_less_total(a, b);
    if path_less(a, b) {
        lemma_path_rank_monotone(all, a, b);
        if path_less(b, a) {
            lemma_path_less_transitive(a, b, a);
            lemma_path_less_total(a, a);
        }
    } else if path_less(b, a) {
        lemma_path_rank_monotone(all, b, a);
    }
}

/// How many of `all` come before `text`.
pub fn rank_text(all: &Vec<&str>, text: &str) -> (r: u64)
    ensures
        r == text_rank(Seq::new(all.len() as nat, |i: int| all@[i]@), text@),
{
    let ghost views = Seq::new(all.len() as nat, |i: int| all@[i]@);
    let mut count: u64 = 0;
    let mut i: usize = 0;
    proof {
        assert(views.take(0) =~= Seq::<Seq<char>>::empty());
    }
    while i < all.len()
        invariant
            i <= all.len(),
            views == Seq::new(all.len() as nat, |i: int| all@[i]@),
            count <= i,
            count == text_rank(views.take(i as int), text@),
        decreases all.len() - i,
    {
        proof {
            assert(views.take(i + 1).drop_last() =~= views.take(i as int));
        }
        if is_text_less(all[i], text) {
            count = count + 1;
        }
        i = i + 1;
    }
    proof {
        assert(views.take(i as int) =~= views);
    }
    count
}

/// How many of `all` come before `path`.
pub fn rank_path(all: &Vec<&FilePath>, path: &FilePath) -> (r: u64)
    ensures
        r == path_rank(
            Seq::new(all.len() as nat, |i: int| all@[i].deep_view()),
            path.deep_view(),
        ),
{
    let ghost views = Seq::new(all.len() as nat, |i: int| all@[i].deep_view());
    let mut count: u64 = 0;
    let mut i: usize = 0;
    proof {
        assert(views.take(0) =~= Seq::<Seq<Seq<char>>>::empty());
    }
    while i < all.len()
        invariant
            i <= all.len(),
            views == Seq::new(all.len() as nat, |i: int| all@[i].deep_view()),
            count <= i,
            count == path_rank(views.take(i as int), path.deep_view()),
        decreases all.len() - i,
    {
        proof {
            assert(views.take(i + 1).drop_last() =~= views.take(i as int));
        }
        if is_path_less(all[i], path) {
            count = count + 1;
        }
        i = i + 1;
    }
    proof {
        assert(views.take(i as int) =~= views);
    }
    count
}

/// Texts are in the order of the first character in which they differ, and a text comes
/// before its continuations; so are paths, by their components.
pub proof fn law_the_first_difference_decides(
    head: Seq<char>,
    a: char,
    b: char,
    x: Seq<char>,
    y: Seq<char>,
)
    ensures
        (a as u32) < (b as u32) ==> text_less(head + seq![a] + x, head + seq![b] + y)
            && !text_less(head + seq![b] + y, head + seq![a] + x),
        text_less(head, head + seq![a] + x),
        !text_less(head, head),
        !text_less(head + seq![a] + x, head),
    decreases head.len(),
{
    let p = head + seq![a] + x;
    let q = head + seq![b] + y;
    if head.len() == 0 {
        assert(p[0] == a && q[0] == b);
    } else {
        let rest = head.drop_first();
        law_the_first_difference_decides(rest, a, b, x, y);
        assert(p[0] == head[0] && q[0] == head[0]);
        assert(p.drop_first() =~= rest + seq![a] + x);
        assert(q.drop_first() =~= rest + seq![b] + y);
    }
}

/// Paths are in the order of the first component in which they differ, and a directory
/// comes before what it holds.
pub proof fn law_the_first_component_decides(
    head: Seq<Seq<char>>,
    a: Seq<char>,
    b: Seq<char>,
    x: Seq<Seq<char>>,
    y: Seq<Seq<char>>,
)
    ensures
        a != b && text_less(a, b) ==> path_less(head + seq![a] + x, head + seq![b] + y),
        a != b && !text_less(a, b) ==> !path_less(head + seq![a] + x, head + seq![b] + y),
        path_less(head, head + seq![a] + x),
        !path_less(head, head),
        !path_less(head + seq![a] + x, head),
    decreases head.len(),
{
    let p = head + seq![a] + x;
    let q = head + seq![b] + y;
    if head.len() == 0 {
        assert(p[0] == a && q[0] == b);
    } else {
        let rest = head.drop_first();
        law_the_first_component_decides(rest, a, b, x, y);
        assert(p[0] == head[0] && q[0] == head[0]);
        assert(p.drop_first() =~= rest + seq![a] + x);
        assert(q.drop_first() =~= rest + seq![b] + y);
    }
}

} // verus!
