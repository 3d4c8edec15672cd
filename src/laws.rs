//! Laws of presorted sequences, stated over the model that the operations'
//! contracts use.

use vstd::prelude::*;
use crate::capability::{Keyed, Semigroup, key_lt, total_order, combine_associative};
use crate::model::{
    presorted,
    has_key,
    entry_map,
    put_map,
    merge_maps,
    lemma_presorted_distinct,
    lemma_entry_map,
};

verus! {

/// The entries after putting each element of `xs`, in order, into entries `m`.
pub open spec fn put_all<T: Keyed + Semigroup>(m: Map<T::Key, T>, xs: Seq<T>) -> Map<T::Key, T>
    decreases xs.len(),
{
    if xs.len() == 0 {
        m
    } else {
        put_all(put_map(m, xs[0]), xs.drop_first())
    }
}

/// `acc` combined, in order, with every element of `xs` whose key is `k`
/// (the first such element standing alone where `acc` is `None`).
pub open spec fn fold_key<T: Keyed + Semigroup>(acc: Option<T>, xs: Seq<T>, k: T::Key) -> Option<T>
    decreases xs.len(),
{
    if xs.len() == 0 {
        acc
    } else {
        let x = xs[0];
        let next = if x.key_spec() == k {
            match acc {
                Some(a) => Some(a.combine_spec(&x)),
                None => Some(x),
            }
        } else {
            acc
        };
        fold_key(next, xs.drop_first(), k)
    }
}

/// The empty sequence is presorted, so every sequence built from it by `put`
/// and `merge` is presorted too.
pub proof fn lemma_empty_presorted<T: Keyed>()
    ensures
        presorted(Seq::<T>::empty()),
        entry_map(Seq::<T>::empty()) == Map::<T::Key, T>::empty(),
{
}

/// No two entries of a presorted sequence share a key.
pub proof fn lemma_keys_unique<T: Keyed>(s: Seq<T>, i: int, j: int)
    requires
        total_order::<T::Key>(),
        presorted(s),
        0 <= i < s.len(),
        0 <= j < s.len(),
        i != j,
    ensures
        s[i].key_spec() != s[j].key_spec(),
{
    lemma_presorted_distinct(s);
}

/// A presorted sequence is determined by its entries: two presorted sequences
/// with the same map from key to entry are equal.
pub proof fn lemma_entries_determine<T: Keyed>(a: Seq<T>, b: Seq<T>)
    requires
        total_order::<T::Key>(),
        presorted(a),
        presorted(b),
        entry_map(a) == entry_map(b),
    ensures
        a == b,
    decreases a.len(),
{
    lemma_presorted_distinct(a);
    lemma_presorted_distinct(b);
    lemma_entry_map(a);
    lemma_entry_map(b);
    if a.len() == 0 {
        if b.len() > 0 {
            assert(entry_map(b).contains_key(b[0].key_spec()));
        }
        assert(a =~= b);
    } else {
        let k = a[0].key_spec();
        assert(entry_map(a).contains_key(k));
        assert(has_key(b, k));
        let t = choose|t: int| 0 <= t < b.len() && #[trigger] b[t].key_spec() == k;
        if t > 0 {
            assert(key_lt(b[0].key_spec(), k));
            assert(entry_map(b).contains_key(b[0].key_spec()));
            assert(has_key(a, b[0].key_spec()));
            let u = choose|u: int| 0 <= u < a.len() && #[trigger] a[u].key_spec() == b[0].key_spec();
            assert(u != 0);
            assert(key_lt(k, a[u].key_spec()));
        }
        assert(b[0] == entry_map(b)[k]);
        assert(a[0] == b[0]);
        let a1 = a.drop_first();
        let b1 = b.drop_first();
        assert forall|x: int, y: int| 0 <= x < y < a1.len() implies key_lt(
            #[trigger] a1[x].key_spec(),
            #[trigger] a1[y].key_spec(),
        ) by {
            assert(a1[x] == a[x + 1] && a1[y] == a[y + 1]);
        }
        assert forall|x: int, y: int| 0 <= x < y < b1.len() implies key_lt(
            #[trigger] b1[x].key_spec(),
            #[trigger] b1[y].key_spec(),
        ) by {
            assert(b1[x] == b[x + 1] && b1[y] == b[y + 1]);
        }
        lemma_presorted_distinct(a1);
        lemma_presorted_distinct(b1);
        lemma_entry_map(a1);
        lemma_entry_map(b1);
        assert(!entry_map(a1).contains_key(k)) by {
            if has_key(a1, k) {
                let x = choose|x: int| 0 <= x < a1.len() && #[trigger] a1[x].key_spec() == k;
                assert(a1[x] == a[x + 1]);
            }
        }
        assert(!entry_map(b1).contains_key(k)) by {
            if has_key(b1, k) {
                let x = choose|x: int| 0 <= x < b1.len() && #[trigger] b1[x].key_spec() == k;
                assert(b1[x] == b[x + 1]);
            }
        }
        assert(entry_map(a1) =~= entry_map(a).remove(k));
        assert(entry_map(b1) =~= entry_map(b).remove(k));
        lemma_entries_determine(a1, b1);
        assert forall|x: int| 0 <= x < a.len() implies #[trigger] a[x] == b[x] by {
            if x > 0 {
                assert(a1[x - 1] == b1[x - 1]);
            }
        }
        assert(a =~= b);
    }
}

/// Putting two elements of one key `k` that the entries lack leaves one entry
/// at `k`: the first combined with the second.
pub proof fn lemma_put_same_key_combines<T: Keyed + Semigroup>(
    m: Map<T::Key, T>,
    first: T,
    second: T,
)
    requires
        first.key_spec() == second.key_spec(),
        !m.contains_key(first.key_spec()),
    ensures
        put_map(put_map(m, first), second).contains_key(first.key_spec()),
        put_map(put_map(m, first), second)[first.key_spec()] == first.combine_spec(&second),
        put_map(put_map(m, first), second).dom() == m.dom().insert(first.key_spec()),
{
    assert(put_map(put_map(m, first), second).dom() =~= m.dom().insert(first.key_spec()));
}

/// Merging entries of disjoint keys gives their union, each entry unchanged.
pub proof fn lemma_merge_disjoint<K, T: Semigroup>(a: Map<K, T>, b: Map<K, T>)
    requires
        a.dom().disjoint(b.dom()),
    ensures
        merge_maps(a, b).dom() == a.dom() + b.dom(),
        merge_maps(a, b) == a.union_prefer_right(b),
        forall|k: K| a.contains_key(k) ==> #[trigger] merge_maps(a, b)[k] == a[k],
        forall|k: K| b.contains_key(k) ==> #[trigger] merge_maps(a, b)[k] == b[k],
{
    assert(merge_maps(a, b).dom() =~= a.dom() + b.dom());
    assert(merge_maps(a, b) =~= a.union_prefer_right(b));
}

/// With an associative combine, merging is associative: the same keys, each
/// with the same entry, whichever way three merges are grouped.
pub proof fn lemma_merge_associative<K, T: Semigroup>(a: Map<K, T>, b: Map<K, T>, c: Map<K, T>)
    requires
        combine_associative::<T>(),
    ensures
        merge_maps(merge_maps(a, b), c) == merge_maps(a, merge_maps(b, c)),
{
    assert(merge_maps(merge_maps(a, b), c) =~= merge_maps(a, merge_maps(b, c)));
}

/// After putting the elements of `xs` in order, the entry at each key is the
/// fold by combine, in insertion order, of the elements of that key; a key
/// that none of them has keeps what it had (absent stays absent).
pub proof fn lemma_put_all_folds<T: Keyed + Semigroup>(m: Map<T::Key, T>, xs: Seq<T>, k: T::Key)
    ensures
        put_all(m, xs).get(k) == fold_key(m.get(k), xs, k),
    decreases xs.len(),
{
    if xs.len() > 0 {
        lemma_put_all_folds(put_map(m, xs[0]), xs.drop_first(), k);
    }
}

} // verus!
