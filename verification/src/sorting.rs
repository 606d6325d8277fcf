//! Stable sorting and removal of repeats by an integer key.

use vstd::prelude::*;

verus! {

/// `x` put behind the last item whose key is no greater.
pub open spec fn insert_after<T>(s: Seq<T>, x: T, key: spec_fn(T) -> int) -> Seq<T>
    decreases s.len(),
{
    if s.len() == 0 || key(s.last()) <= key(x) {
        s.push(x)
    } else {
        insert_after(s.drop_last(), x, key).push(s.last())
    }
}

/// The items in ascending order of their keys, those of one key in the order in
/// which they came.
pub open spec fn stable_sorted<T>(s: Seq<T>, key: spec_fn(T) -> int) -> Seq<T>
    decreases s.len(),
{
    if s.len() == 0 {
        s
    } else {
        insert_after(stable_sorted(s.drop_last(), key), s.last(), key)
    }
}

/// The items without those whose key is that of the item kept before them.
pub open spec fn deduped<T>(s: Seq<T>, key: spec_fn(T) -> int) -> Seq<T>
    decreases s.len(),
{
    if s.len() == 0 {
        s
    } else {
        let kept = deduped(s.drop_last(), key);
        if kept.len() > 0 && key(kept.last()) == key(s.last()) {
            kept
        } else {
            kept.push(s.last())
        }
    }
}

/// Whether keys never descend.
pub open spec fn ascending<T>(s: Seq<T>, key: spec_fn(T) -> int) -> bool {
    forall|i: int, j: int| 0 <= i <= j < s.len() ==> key(#[trigger] s[i]) <= key(#[trigger] s[j])
}

/// Whether keys always ascend.
pub open spec fn strictly_ascending<T>(s: Seq<T>, key: spec_fn(T) -> int) -> bool {
    forall|i: int, j: int| 0 <= i < j < s.len() ==> key(#[trigger] s[i]) < key(#[trigger] s[j])
}

proof fn lemma_insert_after<T>(s: Seq<T>, x: T, key: spec_fn(T) -> int)
    requires
        ascending(s, key),
    ensures
        ascending(insert_after(s, x, key), key),
        insert_after(s, x, key).len() == s.len() + 1,
        insert_after(s, x, key).to_multiset() == s.to_multiset().insert(x),
        forall|k: int|
            0 <= k < insert_after(s, x, key).len() ==> #[trigger] key(
                insert_after(s, x, key)[k],
            ) <= (if s.len() == 0 || key(s.last()) <= key(x) {
                key(x)
            } else {
                key(s.last())
            }),
    decreases s.len(),
{
    broadcast use vstd::seq_lib::group_to_multiset_ensures;

    if s.len() == 0 || key(s.last()) <= key(x) {
        let r = s.push(x);
        assert forall|i: int, j: int| 0 <= i <= j < r.len() implies key(#[trigger] r[i]) <= key(
            #[trigger] r[j],
        ) by {
            if j == s.len() && i < s.len() {
                assert(key(s[i]) <= key(s.last()));
            }
        }
    } else {
        let t = s.drop_last();
        lemma_insert_after(t, x, key);
        let r = insert_after(t, x, key).push(s.last());
        assert(s =~= t.push(s.last()));
        assert forall|i: int, j: int| 0 <= i <= j < r.len() implies key(#[trigger] r[i]) <= key(
            #[trigger] r[j],
        ) by {
            if j == r.len() - 1 && i < j {
                assert(r[i] == insert_after(t, x, key)[i]);
                if t.len() > 0 {
                    assert(key(t.last()) <= key(s.last())) by {
                        assert(t.last() == s[s.len() - 2]);
                    }
                }
            } else if i < j {
                assert(r[i] == insert_after(t, x, key)[i]);
                assert(r[j] == insert_after(t, x, key)[j]);
            }
        }
        assert forall|k: int| 0 <= k < r.len() implies #[trigger] key(r[k]) <= key(s.last()) by {
            assert(key(r[k]) <= key(r[r.len() - 1]));
        }
        assert(r.to_multiset() =~= s.to_multiset().insert(x));
    }
}

/// Sorting gives back the same items, in ascending order of their keys.
pub proof fn law_sorted<T>(s: Seq<T>, key: spec_fn(T) -> int)
    ensures
        ascending(stable_sorted(s, key), key),
        stable_sorted(s, key).to_multiset() == s.to_multiset(),
        stable_sorted(s, key).len() == s.len(),
    decreases s.len(),
{
    broadcast use vstd::seq_lib::group_to_multiset_ensures;

    if s.len() > 0 {
        law_sorted(s.drop_last(), key);
        lemma_insert_after(stable_sorted(s.drop_last(), key), s.last(), key);
        assert(s =~= s.drop_last().push(s.last()));
    }
}

/// Removing repeats from sorted items leaves keys that always ascend.
pub proof fn law_deduped_ascends<T>(s: Seq<T>, key: spec_fn(T) -> int)
    requires
        ascending(s, key),
    ensures
        strictly_ascending(deduped(s, key), key),
        s.len() > 0 ==> deduped(s, key).len() > 0 && key(deduped(s, key).last()) == key(s.last()),
    decreases s.len(),
{
    if s.len() > 0 {
        let t = s.drop_last();
        law_deduped_ascends(t, key);
        let kept = deduped(t, key);
        let r = deduped(s, key);
        if t.len() > 0 {
            assert(key(s[s.len() - 2]) <= key(s[s.len() - 1]));
        }
        assert forall|i: int, j: int| 0 <= i < j < r.len() implies key(#[trigger] r[i]) < key(
            #[trigger] r[j],
        ) by {
            if j == kept.len() {
                if i < kept.len() - 1 {
                    assert(key(kept[i]) < key(kept[kept.len() - 1]));
                }
            } else {
                assert(key(kept[i]) < key(kept[j]));
            }
        }
    }
}

/// Removing repeats keeps one item of each key.
pub proof fn law_deduped_keeps<T>(s: Seq<T>, key: spec_fn(T) -> int, i: int) -> (j: int)
    requires
        0 <= i < s.len(),
    ensures
        0 <= j < deduped(s, key).len(),
        key(deduped(s, key)[j]) == key(s[i]),
    decreases s.len(),
{
    let kept = deduped(s.drop_last(), key);
    if i < s.len() - 1 {
        law_deduped_keeps(s.drop_last(), key, i)
    } else if kept.len() > 0 && key(kept.last()) == key(s.last()) {
        kept.len() - 1
    } else {
        kept.len() as int
    }
}

/// Removing repeats adds no item.
pub proof fn law_deduped_from<T>(s: Seq<T>, key: spec_fn(T) -> int, j: int) -> (i: int)
    requires
        0 <= j < deduped(s, key).len(),
    ensures
        0 <= i < s.len(),
        deduped(s, key)[j] == s[i],
    decreases s.len(),
{
    let kept = deduped(s.drop_last(), key);
    if j < kept.len() {
        law_deduped_from(s.drop_last(), key, j)
    } else {
        s.len() - 1
    }
}

proof fn lemma_insert_at<T>(s: Seq<T>, x: T, key: spec_fn(T) -> int, p: int)
    requires
        0 <= p <= s.len(),
        forall|i: int| p <= i < s.len() ==> key(#[trigger] s[i]) > key(x),
        p > 0 ==> key(s[p - 1]) <= key(x),
    ensures
        insert_after(s, x, key) == s.insert(p, x),
    decreases s.len(),
{
    if s.len() == 0 || key(s.last()) <= key(x) {
        assert(p == s.len()) by {
            if p < s.len() {
                assert(key(s[s.len() - 1]) > key(x));
            }
        }
        assert(s.push(x) =~= s.insert(p, x));
    } else {
        let t = s.drop_last();
        assert(p < s.len());
        lemma_insert_at(t, x, key, p);
        assert(t.insert(p, x).push(s.last()) =~= s.insert(p, x));
    }
}

/// Whether exec keys order items as the spec key does.
pub open spec fn keys_agree<V>(keys: Seq<u64>, items: Seq<V>, key: spec_fn(V) -> int) -> bool {
    &&& keys.len() == items.len()
    &&& forall|i: int, j: int|
        0 <= i < keys.len() && 0 <= j < keys.len() ==> (#[trigger] keys[i] <= #[trigger] keys[j]
            <==> key(items[i]) <= key(items[j]))
}

/// Sorts items by the keys beside them.
pub fn sort_stable<T: DeepView>(
    items: Vec<T>,
    keys: Vec<u64>,
    Ghost(key): Ghost<spec_fn(T::V) -> int>,
) -> (r: Vec<T>)
    requires
        keys_agree(keys@, items.deep_view(), key),
    ensures
        r.deep_view() == stable_sorted(items.deep_view(), key),
        r.len() == items.len(),
{
    let mut items = items;
    let mut keys = keys;
    let ghost all = items.deep_view();
    let n = items.len();
    let mut i: usize = 0;
    proof {
        assert(items.deep_view().take(0) =~= stable_sorted(all.take(0), key));
    }
    while i < n
        invariant
            i <= n,
            items.len() == n,
            n == all.len(),
            keys_agree(keys@, items.deep_view(), key),
            items.deep_view().take(i as int) == stable_sorted(all.take(i as int), key),
            forall|k: int| i <= k < n ==> #[trigger] items.deep_view()[k] == all[k],
        decreases n - i,
    {
        let ghost before = items.deep_view();
        let ghost keys_before = keys@;
        let k = keys.remove(i);
        let x = items.remove(i);
        let mut p: usize = i;
        while p > 0 && keys[p - 1] > k
            invariant
                p <= i < n,
                keys.len() == n - 1,
                keys_agree(keys_before, before, key),
                keys_before.len() == n,
                keys@ == keys_before.remove(i as int),
                k == keys_before[i as int],
                forall|q: int| p <= q < i ==> key(#[trigger] before[q]) > key(before[i as int]),
            decreases p,
        {
            proof {
                assert(keys@[p - 1] == keys_before[p - 1]);
                assert(!(keys_before[p - 1] <= keys_before[i as int]));
            }
            p = p - 1;
        }
        proof {
            let t = before.take(i as int);
            if p > 0 {
                assert(keys@[p - 1] == keys_before[p - 1]);
                assert(keys_before[p - 1] <= keys_before[i as int]);
            }
            lemma_insert_at(t, before[i as int], key, p as int);
        }
        keys.insert(p, k);
        items.insert(p, x);
        proof {
            let after = items.deep_view();
            assert(all.take(i + 1).drop_last() =~= all.take(i as int));
            assert(after.take(i + 1) =~= before.take(i as int).insert(p as int, before[i as int]));
            assert(after =~= before.remove(i as int).insert(p as int, before[i as int]));
            assert(keys@ =~= keys_before.remove(i as int).insert(p as int, k));
            assert forall|a: int, b: int| 0 <= a < keys.len() && 0 <= b < keys.len() implies (
            #[trigger] keys@[a] <= #[trigger] keys@[b] <==> key(after[a]) <= key(after[b])) by {
                let a0 = if a == p {
                    i as int
                } else if p < a <= i {
                    a - 1
                } else {
                    a
                };
                let b0 = if b == p {
                    i as int
                } else if p < b <= i {
                    b - 1
                } else {
                    b
                };
                assert(keys@[a] == keys_before[a0] && after[a] == before[a0]);
                assert(keys@[b] == keys_before[b0] && after[b] == before[b0]);
            }
        }
        i = i + 1;
    }
    proof {
        assert(items.deep_view().take(n as int) =~= items.deep_view());
        assert(all.take(n as int) =~= all);
    }
    items
}

/// Drops each item whose key is that of the item kept before it.
pub fn dedup_by_key<T: DeepView>(
    items: Vec<T>,
    keys: Vec<u64>,
    Ghost(key): Ghost<spec_fn(T::V) -> int>,
) -> (r: Vec<T>)
    requires
        keys_agree(keys@, items.deep_view(), key),
    ensures
        r.deep_view() == deduped(items.deep_view(), key),
{
    let ghost all = items.deep_view();
    let mut items = items;
    let mut kept: Vec<T> = Vec::new();
    let mut last: usize = 0;
    let mut i: usize = 0;
    let n = items.len();
    proof {
        assert(kept.deep_view() =~= deduped(all.take(0), key));
    }
    while i < n
        invariant
            i <= n,
            n == all.len(),
            items.len() == n - i,
            items.deep_view() == all.skip(i as int),
            keys_agree(keys@, all, key),
            kept.deep_view() == deduped(all.take(i as int), key),
            kept.len() > 0 ==> last < n && key(kept.deep_view().last()) == key(all[last as int]),
        decreases n - i,
    {
        let ghost rest = items.deep_view();
        let x = items.remove(0);
        proof {
            assert(all.take(i + 1).drop_last() =~= all.take(i as int));
            assert(rest[0] == all[i as int]);
            assert(items.deep_view() =~= rest.drop_first());
            assert(x.deep_view() == all[i as int]);
            assert(items.deep_view() =~= all.skip(i + 1));
            if kept.len() > 0 {
                assert(keys@[last as int] <= keys@[i as int] <==> key(all[last as int]) <= key(
                    all[i as int],
                ));
                assert(keys@[i as int] <= keys@[last as int] <==> key(all[i as int]) <= key(
                    all[last as int],
                ));
            }
        }
        if kept.len() > 0 && keys[last] == keys[i] {
        } else {
            let ghost before = kept.deep_view();
            kept.push(x);
            last = i;
            proof {
                assert(kept.deep_view() =~= before.push(all[i as int]));
            }
        }
        i = i + 1;
    }
    proof {
        assert(all.take(n as int) =~= all);
    }
    kept
}

/// Sorting loses no item and adds none.
pub proof fn law_sorting_keeps_items<T>(s: Seq<T>, key: spec_fn(T) -> int, x: T)
    ensures
        stable_sorted(s, key).contains(x) <==> s.contains(x),
{
    broadcast use vstd::seq_lib::group_to_multiset_ensures;

    law_sorted(s, key);
    let sorted = stable_sorted(s, key);
    assert(sorted.to_multiset().count(x) == s.to_multiset().count(x));
}

proof fn lemma_insert_after_from<T>(s: Seq<T>, x: T, key: spec_fn(T) -> int, i: int) -> (j: int)
    requires
        0 <= i < insert_after(s, x, key).len(),
    ensures
        insert_after(s, x, key)[i] == x || (0 <= j < s.len() && insert_after(s, x, key)[i] == s[j]),
    decreases s.len(),
{
    if s.len() == 0 || key(s.last()) <= key(x) {
        i
    } else if i == insert_after(s.drop_last(), x, key).len() {
        s.len() - 1
    } else {
        lemma_insert_after_from(s.drop_last(), x, key, i)
    }
}

/// Whether items of one key are in the order of another key.
pub open spec fn ordered_within<T>(
    s: Seq<T>,
    key: spec_fn(T) -> int,
    inner: spec_fn(T) -> int,
) -> bool {
    forall|i: int, j: int|
        0 <= i < j < s.len() && key(#[trigger] s[i]) == key(#[trigger] s[j]) ==> inner(s[i])
            <= inner(s[j])
}

proof fn lemma_insert_ordered<T>(
    s: Seq<T>,
    x: T,
    key: spec_fn(T) -> int,
    inner: spec_fn(T) -> int,
)
    requires
        ordered_within(s, key, inner),
        forall|i: int| 0 <= i < s.len() ==> inner(#[trigger] s[i]) <= inner(x),
    ensures
        ordered_within(insert_after(s, x, key), key, inner),
    decreases s.len(),
{
    let all = insert_after(s, x, key);
    if s.len() > 0 && key(s.last()) > key(x) {
        let front = s.drop_last();
        assert forall|i: int, j: int|
            0 <= i < j < front.len() && key(#[trigger] front[i]) == key(
                #[trigger] front[j],
            ) implies inner(front[i]) <= inner(front[j]) by {
            assert(front[i] == s[i] && front[j] == s[j]);
        }
        assert forall|i: int| 0 <= i < front.len() implies inner(#[trigger] front[i]) <= inner(
            x,
        ) by {
            assert(front[i] == s[i]);
        }
        lemma_insert_ordered(front, x, key, inner);
        let placed = insert_after(front, x, key);
        assert forall|i: int, j: int|
            0 <= i < j < all.len() && key(#[trigger] all[i]) == key(#[trigger] all[j]) implies inner(
            all[i],
        ) <= inner(all[j]) by {
            assert(all[i] == placed[i]);
            if j < placed.len() {
                assert(all[j] == placed[j]);
            } else {
                let k = lemma_insert_after_from(front, x, key, i);
                if placed[i] != x {
                    assert(front[k] == s[k]);
                    assert(all[j] == s[s.len() - 1]);
                }
            }
        }
    } else {
        assert forall|i: int, j: int|
            0 <= i < j < all.len() && key(#[trigger] all[i]) == key(#[trigger] all[j]) implies inner(
            all[i],
        ) <= inner(all[j]) by {
            assert(all[i] == s[i]);
            if j < s.len() {
                assert(all[j] == s[j]);
            }
        }
    }
}

/// Sorting leaves items of one key in the order in which they came: where they were in
/// the order of another key, those of one key still are.
pub proof fn law_sorting_is_stable<T>(s: Seq<T>, key: spec_fn(T) -> int, inner: spec_fn(T) -> int)
    requires
        ascending(s, inner),
    ensures
        ordered_within(stable_sorted(s, key), key, inner),
    decreases s.len(),
{
    if s.len() > 0 {
        let front = s.drop_last();
        assert forall|i: int, j: int| 0 <= i <= j < front.len() implies inner(#[trigger] front[i])
            <= inner(#[trigger] front[j]) by {
            assert(front[i] == s[i] && front[j] == s[j]);
        }
        law_sorting_is_stable(front, key, inner);
        let placed = stable_sorted(front, key);
        assert forall|i: int| 0 <= i < placed.len() implies inner(#[trigger] placed[i]) <= inner(
            s.last(),
        ) by {
            assert(placed.contains(placed[i]));
            law_sorting_keeps_items(front, key, placed[i]);
            let k = choose|k: int| 0 <= k < front.len() && front[k] == placed[i];
            assert(inner(s[k]) <= inner(s[s.len() - 1]));
        }
        lemma_insert_ordered(placed, s.last(), key, inner);
    }
}

} // verus!
