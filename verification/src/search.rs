//! Finding and picking items of a sequence.

use vstd::prelude::*;

verus! {

/// The index of the first item that satisfies `p`, or the length.
pub open spec fn first_index<T>(s: Seq<T>, p: spec_fn(T) -> bool) -> int
    decreases s.len(),
{
    if s.len() == 0 || p(s[0]) {
        0
    } else {
        1 + first_index(s.drop_first(), p)
    }
}

/// What `first_index` means: nothing before it satisfies `p`, and what stands
/// there does.
pub proof fn lemma_first_index<T>(s: Seq<T>, p: spec_fn(T) -> bool)
    ensures
        0 <= first_index(s, p) <= s.len(),
        forall|k: int| 0 <= k < first_index(s, p) ==> !p(#[trigger] s[k]),
        first_index(s, p) < s.len() ==> p(s[first_index(s, p)]),
    decreases s.len(),
{
    if !(s.len() == 0 || p(s[0])) {
        let t = s.drop_first();
        lemma_first_index(t, p);
        assert forall|k: int| 0 <= k < first_index(s, p) implies !p(#[trigger] s[k]) by {
            if k > 0 {
                assert(t[k - 1] == s[k]);
            }
        }
    }
}

/// The one index of which that holds is the first.
pub proof fn lemma_first_index_is<T>(s: Seq<T>, p: spec_fn(T) -> bool, i: int)
    requires
        0 <= i <= s.len(),
        forall|k: int| 0 <= k < i ==> !p(#[trigger] s[k]),
        i < s.len() ==> p(s[i]),
    ensures
        first_index(s, p) == i,
{
    lemma_first_index(s, p);
    let f = first_index(s, p);
    if f < i {
        assert(!p(s[f]));
    } else if i < f {
        assert(!p(s[i]));
    }
}

/// What the items become that `f` keeps, in order.
pub open spec fn kept<T, U>(s: Seq<T>, f: spec_fn(T) -> Option<U>) -> Seq<U>
    decreases s.len(),
{
    if s.len() == 0 {
        Seq::empty()
    } else {
        let before = kept(s.drop_last(), f);
        match f(s.last()) {
            Some(x) => before.push(x),
            None => before,
        }
    }
}

/// Taking one more item adds what it becomes, where it is kept.
pub proof fn lemma_kept_step<T, U>(s: Seq<T>, f: spec_fn(T) -> Option<U>, i: int)
    requires
        0 <= i < s.len(),
    ensures
        kept(s.take(i + 1), f) == match f(s[i]) {
            Some(x) => kept(s.take(i), f).push(x),
            None => kept(s.take(i), f),
        },
{
    assert(s.take(i + 1).drop_last() =~= s.take(i));
}

/// Everything that is kept comes from an item.
pub proof fn lemma_kept_from<T, U>(s: Seq<T>, f: spec_fn(T) -> Option<U>, j: int) -> (i: int)
    requires
        0 <= j < kept(s, f).len(),
    ensures
        0 <= i < s.len(),
        f(s[i]) == Some(kept(s, f)[j]),
    decreases s.len(),
{
    let before = kept(s.drop_last(), f);
    if j < before.len() {
        lemma_kept_from(s.drop_last(), f, j)
    } else {
        s.len() - 1
    }
}

/// What the first item becomes of which `f` makes anything.
pub open spec fn first_found<T, U>(s: Seq<T>, f: spec_fn(T) -> Option<U>) -> Option<U>
    decreases s.len(),
{
    if s.len() == 0 {
        None
    } else {
        match first_found(s.drop_last(), f) {
            Some(x) => Some(x),
            None => f(s.last()),
        }
    }
}

/// Taking one more item makes a difference only where nothing was found before.
pub proof fn lemma_first_found_step<T, U>(s: Seq<T>, f: spec_fn(T) -> Option<U>, i: int)
    requires
        0 <= i < s.len(),
    ensures
        first_found(s.take(i + 1), f) == match first_found(s.take(i), f) {
            Some(x) => Some(x),
            None => f(s[i]),
        },
{
    assert(s.take(i + 1).drop_last() =~= s.take(i));
}

/// What is found among the first items is found among all.
pub proof fn lemma_first_found_stays<T, U>(s: Seq<T>, f: spec_fn(T) -> Option<U>, i: int)
    requires
        0 <= i <= s.len(),
        first_found(s.take(i), f) is Some,
    ensures
        first_found(s, f) == first_found(s.take(i), f),
    decreases s.len() - i,
{
    if i == s.len() {
        assert(s.take(i) =~= s);
    } else {
        lemma_first_found_step(s, f, i);
        lemma_first_found_stays(s, f, i + 1);
    }
}

/// What is found comes from an item.
pub proof fn lemma_first_found_from<T, U>(s: Seq<T>, f: spec_fn(T) -> Option<U>) -> (i: int)
    requires
        first_found(s, f) is Some,
    ensures
        0 <= i < s.len(),
        f(s[i]) == first_found(s, f),
    decreases s.len(),
{
    if first_found(s.drop_last(), f) is Some {
        lemma_first_found_from(s.drop_last(), f)
    } else {
        s.len() - 1
    }
}

/// What an item becomes is kept.
pub proof fn lemma_kept_holds<T, U>(s: Seq<T>, f: spec_fn(T) -> Option<U>, i: int) -> (j: int)
    requires
        0 <= i < s.len(),
        f(s[i]) is Some,
    ensures
        0 <= j < kept(s, f).len(),
        kept(s, f)[j] == f(s[i])->0,
    decreases s.len(),
{
    let before = kept(s.drop_last(), f);
    if i < s.len() - 1 {
        lemma_kept_holds(s.drop_last(), f, i)
    } else {
        before.len() as int
    }
}

/// The first item of which `f` makes anything decides; where there is none, nothing is
/// found.
pub proof fn law_first_found_is_first<T, U>(s: Seq<T>, f: spec_fn(T) -> Option<U>, i: int)
    ensures
        0 <= i < s.len() && f(s[i]) is Some && (forall|k: int|
            0 <= k < i ==> f(#[trigger] s[k]) is None) ==> first_found(s, f) == f(s[i]),
        (forall|k: int| 0 <= k < s.len() ==> f(#[trigger] s[k]) is None) ==> first_found(
            s,
            f,
        ) is None,
    decreases s.len(),
{
    if s.len() > 0 {
        let front = s.drop_last();
        assert forall|k: int| 0 <= k < front.len() implies front[k] == s[k] by {}
        law_first_found_is_first(front, f, i);
        if 0 <= i < s.len() && f(s[i]) is Some && (forall|k: int|
            0 <= k < i ==> f(#[trigger] s[k]) is None) {
            if i < front.len() {
                assert(forall|k: int| 0 <= k < i ==> f(#[trigger] front[k]) is None);
            } else {
                assert(forall|k: int| 0 <= k < front.len() ==> f(#[trigger] front[k]) is None);
            }
        }
        if forall|k: int| 0 <= k < s.len() ==> f(#[trigger] s[k]) is None {
            assert(forall|k: int| 0 <= k < front.len() ==> f(#[trigger] front[k]) is None);
            assert(f(s[s.len() - 1]) is None);
        }
    }
}

} // verus!
