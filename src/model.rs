//! The mathematical model of a presorted sequence: strictly increasing keys,
//! viewed as a map from key to entry.

use vstd::prelude::*;
use crate::capability::{Keyed, Semigroup, key_lt, total_order};

verus! {

/// Keys strictly increase along `s`.
pub open spec fn presorted<T: Keyed>(s: Seq<T>) -> bool {
    forall|i: int, j: int|
        0 <= i < j < s.len() ==> key_lt(#[trigger] s[i].key_spec(), #[trigger] s[j].key_spec())
}

/// No two entries of `s` share a key.
pub open spec fn distinct_keys<T: Keyed>(s: Seq<T>) -> bool {
    forall|i: int, j: int|
        0 <= i < s.len() && 0 <= j < s.len() && i != j ==> #[trigger] s[i].key_spec()
            != #[trigger] s[j].key_spec()
}

/// Some entry of `s` has key `k`.
pub open spec fn has_key<T: Keyed>(s: Seq<T>, k: T::Key) -> bool {
    exists|i: int| 0 <= i < s.len() && #[trigger] s[i].key_spec() == k
}

/// The map from each key of `s` to the entry that holds it.
pub open spec fn entry_map<T: Keyed>(s: Seq<T>) -> Map<T::Key, T>
    decreases s.len(),
{
    if s.len() == 0 {
        Map::empty()
    } else {
        entry_map(s.drop_first()).insert(s[0].key_spec(), s[0])
    }
}

/// The entry that `put` leaves at `x`'s key: the present one combined with `x`,
/// or `x` itself.
pub open spec fn put_entry<T: Keyed + Semigroup>(m: Map<T::Key, T>, x: T) -> T {
    if m.contains_key(x.key_spec()) {
        m[x.key_spec()].combine_spec(&x)
    } else {
        x
    }
}

/// The entries after putting `x` into entries `m`.
pub open spec fn put_map<T: Keyed + Semigroup>(m: Map<T::Key, T>, x: T) -> Map<T::Key, T> {
    m.insert(x.key_spec(), put_entry(m, x))
}

/// The entries after merging `b` into `a`: every key of either, with the two
/// entries combined (`a`'s first) where both hold the key.
pub open spec fn merge_maps<K, T: Semigroup>(a: Map<K, T>, b: Map<K, T>) -> Map<K, T> {
    Map::new(
        |k: K| a.contains_key(k) || b.contains_key(k),
        |k: K|
            if a.contains_key(k) && b.contains_key(k) {
                a[k].combine_spec(&b[k])
            } else if a.contains_key(k) {
                a[k]
            } else {
                b[k]
            },
    )
}

/// Strictly increasing keys are distinct.
pub proof fn lemma_presorted_distinct<T: Keyed>(s: Seq<T>)
    requires
        total_order::<T::Key>(),
        presorted(s),
    ensures
        distinct_keys(s),
{
    assert forall|i: int, j: int|
        0 <= i < s.len() && 0 <= j < s.len() && i != j implies #[trigger] s[i].key_spec()
        != #[trigger] s[j].key_spec() by {
        if i < j {
            assert(key_lt(s[i].key_spec(), s[j].key_spec()));
        } else {
            assert(key_lt(s[j].key_spec(), s[i].key_spec()));
        }
    }
}

/// With distinct keys, `entry_map` holds exactly the keys of `s`, each mapped
/// to its entry.
pub proof fn lemma_entry_map<T: Keyed>(s: Seq<T>)
    requires
        distinct_keys(s),
    ensures
        forall|k: T::Key| #[trigger] entry_map(s).contains_key(k) <==> has_key(s, k),
        forall|i: int|
            0 <= i < s.len() ==> #[trigger] entry_map(s)[s[i].key_spec()] == s[i],
    decreases s.len(),
{
    if s.len() > 0 {
        let t = s.drop_first();
        assert forall|i: int, j: int|
            0 <= i < t.len() && 0 <= j < t.len() && i != j implies #[trigger] t[i].key_spec()
            != #[trigger] t[j].key_spec() by {
            assert(t[i] == s[i + 1] && t[j] == s[j + 1]);
        }
        lemma_entry_map(t);
        assert(entry_map(s) == entry_map(t).insert(s[0].key_spec(), s[0]));
        assert forall|k: T::Key| #[trigger] entry_map(s).contains_key(k) <==> has_key(s, k) by {
            if has_key(s, k) {
                let i = choose|i: int| 0 <= i < s.len() && #[trigger] s[i].key_spec() == k;
                if i > 0 {
                    assert(t[i - 1] == s[i]);
                    assert(t[i - 1].key_spec() == k);
                    assert(has_key(t, k));
                }
            }
            if has_key(t, k) {
                let i = choose|i: int| 0 <= i < t.len() && #[trigger] t[i].key_spec() == k;
                assert(t[i] == s[i + 1]);
                assert(s[i + 1].key_spec() == k);
            }
        }
        assert forall|i: int| 0 <= i < s.len() implies #[trigger] entry_map(s)[s[i].key_spec()]
            == s[i] by {
            if i > 0 {
                assert(t[i - 1] == s[i]);
                assert(s[0].key_spec() != s[i].key_spec());
                assert(entry_map(t)[t[i - 1].key_spec()] == t[i - 1]);
            }
        }
    }
}

/// Inserting an entry of a new key adds that key and nothing else.
pub proof fn lemma_entry_map_insert<T: Keyed>(s: Seq<T>, i: int, x: T)
    requires
        distinct_keys(s),
        0 <= i <= s.len(),
        !has_key(s, x.key_spec()),
    ensures
        distinct_keys(s.insert(i, x)),
        entry_map(s.insert(i, x)) == entry_map(s).insert(x.key_spec(), x),
{
    let u = s.insert(i, x);
    assert forall|a: int, b: int|
        0 <= a < u.len() && 0 <= b < u.len() && a != b implies #[trigger] u[a].key_spec()
        != #[trigger] u[b].key_spec() by {
        let sa = if a < i { a } else { a - 1 };
        let sb = if b < i { b } else { b - 1 };
        if a != i && b != i {
            assert(u[a] == s[sa] && u[b] == s[sb]);
        } else if a == i {
            assert(u[b] == s[sb]);
            assert(s[sb].key_spec() != x.key_spec());
        } else {
            assert(u[a] == s[sa]);
            assert(s[sa].key_spec() != x.key_spec());
        }
    }
    lemma_entry_map(s);
    lemma_entry_map(u);
    let m = entry_map(s).insert(x.key_spec(), x);
    assert forall|k: T::Key| #[trigger] entry_map(u).contains_key(k) <==> m.contains_key(k) by {
        if has_key(s, k) {
            let t = choose|t: int| 0 <= t < s.len() && #[trigger] s[t].key_spec() == k;
            let ut = if t < i { t } else { t + 1 };
            assert(u[ut] == s[t]);
        }
        if has_key(u, k) {
            let t = choose|t: int| 0 <= t < u.len() && #[trigger] u[t].key_spec() == k;
            if t != i {
                let st = if t < i { t } else { t - 1 };
                assert(u[t] == s[st]);
            }
        }
        assert(u[i] == x);
    }
    assert forall|k: T::Key| #[trigger] entry_map(u).contains_key(k) implies entry_map(u)[k]
        == m[k] by {
        let t = choose|t: int| 0 <= t < u.len() && #[trigger] u[t].key_spec() == k;
        assert(entry_map(u)[u[t].key_spec()] == u[t]);
        if t != i {
            let st = if t < i { t } else { t - 1 };
            assert(u[t] == s[st]);
            assert(entry_map(s)[s[st].key_spec()] == s[st]);
        }
    }
    assert(entry_map(u) =~= m);
}

/// Replacing an entry by one of the same key changes that key's entry alone.
pub proof fn lemma_entry_map_update<T: Keyed>(s: Seq<T>, i: int, x: T)
    requires
        distinct_keys(s),
        0 <= i < s.len(),
        x.key_spec() == s[i].key_spec(),
    ensures
        distinct_keys(s.update(i, x)),
        entry_map(s.update(i, x)) == entry_map(s).insert(x.key_spec(), x),
{
    let u = s.update(i, x);
    assert forall|a: int, b: int|
        0 <= a < u.len() && 0 <= b < u.len() && a != b implies #[trigger] u[a].key_spec()
        != #[trigger] u[b].key_spec() by {
        assert(s[a].key_spec() != s[b].key_spec());
    }
    lemma_entry_map(s);
    lemma_entry_map(u);
    let m = entry_map(s).insert(x.key_spec(), x);
    assert forall|k: T::Key| #[trigger] entry_map(u).contains_key(k) <==> m.contains_key(k) by {
        if has_key(s, k) {
            let t = choose|t: int| 0 <= t < s.len() && #[trigger] s[t].key_spec() == k;
            assert(u[t].key_spec() == k);
        }
        if has_key(u, k) {
            let t = choose|t: int| 0 <= t < u.len() && #[trigger] u[t].key_spec() == k;
            assert(s[t].key_spec() == k);
        }
    }
    assert forall|k: T::Key| #[trigger] entry_map(u).contains_key(k) implies entry_map(u)[k]
        == m[k] by {
        let t = choose|t: int| 0 <= t < u.len() && #[trigger] u[t].key_spec() == k;
        assert(entry_map(u)[u[t].key_spec()] == u[t]);
        if t != i {
            assert(entry_map(s)[s[t].key_spec()] == s[t]);
        }
    }
    assert(entry_map(u) =~= m);
}

/// Dropping the first entry of a presorted suffix removes its key alone.
pub proof fn lemma_entry_map_suffix<T: Keyed>(s: Seq<T>, j: int)
    requires
        total_order::<T::Key>(),
        presorted(s),
        0 <= j < s.len(),
    ensures
        entry_map(s.subrange(j, s.len() as int)) == entry_map(
            s.subrange(j + 1, s.len() as int),
        ).insert(s[j].key_spec(), s[j]),
        !entry_map(s.subrange(j + 1, s.len() as int)).contains_key(s[j].key_spec()),
{
    let a = s.subrange(j, s.len() as int);
    let b = s.subrange(j + 1, s.len() as int);
    assert(a.drop_first() =~= b);
    assert(a[0] == s[j]);
    lemma_presorted_distinct(s);
    assert forall|x: int, y: int|
        0 <= x < b.len() && 0 <= y < b.len() && x != y implies #[trigger] b[x].key_spec()
        != #[trigger] b[y].key_spec() by {
        assert(b[x] == s[j + 1 + x] && b[y] == s[j + 1 + y]);
    }
    lemma_entry_map(b);
    if has_key(b, s[j].key_spec()) {
        let t = choose|t: int| 0 <= t < b.len() && #[trigger] b[t].key_spec() == s[j].key_spec();
        assert(b[t] == s[j + 1 + t]);
    }
}

/// Moving one entry `y` of a key that `r` lacks from the right side of a merge
/// into the left, by `put`, leaves the merge unchanged.
pub proof fn lemma_merge_maps_step<K, T: Keyed<Key = K> + Semigroup>(
    m: Map<K, T>,
    r: Map<K, T>,
    y: T,
)
    requires
        !r.contains_key(y.key_spec()),
    ensures
        merge_maps(put_map(m, y), r) == merge_maps(m, r.insert(y.key_spec(), y)),
{
    assert(merge_maps(put_map(m, y), r) =~= merge_maps(m, r.insert(y.key_spec(), y)));
}

/// Merging with no entries changes nothing.
pub proof fn lemma_merge_maps_empty<K, T: Semigroup>(m: Map<K, T>)
    ensures
        merge_maps(m, Map::empty()) == m,
{
    assert(merge_maps(m, Map::empty()) =~= m);
}

} // verus!
