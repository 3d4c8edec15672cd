//! Operations on a sequence kept sorted and deduplicated by key.

use vstd::prelude::*;
use vstd::std_specs::cmp::OrdSpec;
use core::cmp::Ordering;
use crate::capability::{Keyed, Semigroup, key_lt, total_order, combine_keeps_key};
use crate::model::{
    presorted,
    has_key,
    entry_map,
    put_map,
    merge_maps,
    lemma_presorted_distinct,
    lemma_entry_map,
    lemma_entry_map_insert,
    lemma_entry_map_update,
    lemma_entry_map_suffix,
    lemma_merge_maps_step,
    lemma_merge_maps_empty,
};

verus! {

/// Convenience functions for working with a presorted vec.
pub trait Presorted<T: Clone + Keyed + Semigroup>: Sized + View<V = Seq<T>> {
    /// Insert an item, keeping order; an item of a present key is combined into
    /// the present one (present first). `merge` is faster for many items.
    fn put(&mut self, x: T)
        requires
            total_order::<T::Key>(),
            combine_keeps_key::<T>(),
            presorted(old(self)@),
        ensures
            presorted(final(self)@),
            entry_map(final(self)@) == put_map(entry_map(old(self)@), x),
    ;

    /// Merge another presorted vec, keeping order.
    fn merge(&mut self, other: Self)
        requires
            total_order::<T::Key>(),
            combine_keeps_key::<T>(),
            presorted(old(self)@),
            presorted(other@),
        ensures
            presorted(final(self)@),
            entry_map(final(self)@) == merge_maps(entry_map(old(self)@), entry_map(other@)),
    ;

    /// The item of the given key, if any; assumes order has been kept.
    fn get_by_key(&self, key: &T::Key) -> (r: Option<&T>)
        requires
            total_order::<T::Key>(),
            presorted(self@),
        ensures
            match r {
                Some(e) => entry_map(self@).contains_key(*key) && *e == entry_map(self@)[*key],
                None => !entry_map(self@).contains_key(*key),
            },
    ;
}

/// Binary search of `v` for key `k`: `Ok` with the index of the entry of that
/// key, or `Err` with the index where an entry of that key would go.
fn search<T: Keyed>(v: &Vec<T>, k: &T::Key) -> (r: Result<usize, usize>)
    requires
        total_order::<T::Key>(),
        presorted(v@),
    ensures
        match r {
            Ok(i) => i < v@.len() && v@[i as int].key_spec() == *k,
            Err(i) => {
                &&& i <= v@.len()
                &&& forall|j: int| 0 <= j < i ==> key_lt(#[trigger] v@[j].key_spec(), *k)
                &&& forall|j: int| i <= j < v@.len() ==> key_lt(*k, #[trigger] v@[j].key_spec())
            },
        },
{
    let mut lo: usize = 0;
    let mut hi: usize = v.len();
    while lo < hi
        invariant
            total_order::<T::Key>(),
            presorted(v@),
            0 <= lo <= hi <= v@.len(),
            forall|j: int| 0 <= j < lo ==> key_lt(#[trigger] v@[j].key_spec(), *k),
            forall|j: int| hi <= j < v@.len() ==> key_lt(*k, #[trigger] v@[j].key_spec()),
        decreases hi - lo,
    {
        let mid = lo + (hi - lo) / 2;
        let mk = v[mid].key();
        match mk.cmp(k) {
            Ordering::Equal => {
                return Ok(mid);
            },
            Ordering::Less => {
                assert forall|j: int| 0 <= j <= mid implies key_lt(
                    #[trigger] v@[j].key_spec(),
                    *k,
                ) by {
                    if j < mid {
                        assert(key_lt(v@[j].key_spec(), v@[mid as int].key_spec()));
                    }
                }
                lo = mid + 1;
            },
            Ordering::Greater => {
                assert(key_lt(*k, mk));
                assert forall|j: int| mid <= j < v@.len() implies key_lt(
                    *k,
                    #[trigger] v@[j].key_spec(),
                ) by {
                    if j > mid {
                        assert(key_lt(v@[mid as int].key_spec(), v@[j].key_spec()));
                    }
                }
                hi = mid;
            },
        }
    }
    Err(lo)
}

impl<T: Clone + Keyed + Semigroup> Presorted<T> for Vec<T> {
    fn put(&mut self, x: T) {
        let k = x.key();
        proof {
            lemma_presorted_distinct(self@);
            lemma_entry_map(self@);
        }
        match search(self, &k) {
            Ok(i) => {
                let c = self[i].combine(&x);
                proof {
                    lemma_entry_map_update(old(self)@, i as int, c);
                }
                self[i] = c;
                assert(self@ == old(self)@.update(i as int, c));
            },
            Err(i) => {
                assert(!has_key(self@, k)) by {
                    if has_key(self@, k) {
                        let t = choose|t: int| 0 <= t < self@.len() && #[trigger] self@[t].key_spec() == k;
                        if t < i {
                            assert(key_lt(self@[t].key_spec(), k));
                        } else {
                            assert(key_lt(k, self@[t].key_spec()));
                        }
                    }
                }
                proof {
                    lemma_entry_map_insert(old(self)@, i as int, x);
                }
                self.insert(i, x);
            },
        }
    }

    fn merge(&mut self, other: Self) {
        let ghost s0 = self@;
        let ghost o0 = other@;
        let ghost n = o0.len() as int;
        let mut other = other;
        // Entries of `other` are moved, not cloned: `rest` holds them reversed,
        // so that its last entry is the next one in order.
        let mut rest: Vec<T> = Vec::new();
        while other.len() > 0
            invariant
                other@.len() + rest@.len() == n,
                forall|t: int| 0 <= t < other@.len() ==> #[trigger] other@[t] == o0[t],
                forall|t: int| 0 <= t < rest@.len() ==> #[trigger] rest@[t] == o0[n - 1 - t],
            decreases other@.len(),
        {
            match other.pop() {
                Some(y) => rest.push(y),
                None => {},
            }
        }
        assert(o0.subrange(0, n) =~= o0);
        let mut i: usize = 0;
        while i < self.len() && rest.len() > 0
            invariant
                total_order::<T::Key>(),
                combine_keeps_key::<T>(),
                presorted(o0),
                n == o0.len(),
                presorted(self@),
                i <= self@.len(),
                rest@.len() <= n,
                forall|t: int| 0 <= t < rest@.len() ==> #[trigger] rest@[t] == o0[n - 1 - t],
                rest@.len() > 0 ==> forall|t: int|
                    0 <= t < i ==> key_lt(
                        #[trigger] self@[t].key_spec(),
                        o0[n - rest@.len()].key_spec(),
                    ),
                merge_maps(entry_map(self@), entry_map(o0.subrange(n - rest@.len(), n)))
                    == merge_maps(entry_map(s0), entry_map(o0)),
            decreases self@.len() - i + 2 * rest@.len(),
        {
            let ghost j = n - rest@.len();
            let last = rest.len() - 1;
            let ki = self[i].key();
            let kj = rest[last].key();
            assert(rest@[last as int] == o0[j]);
            proof {
                lemma_entry_map_suffix(o0, j);
                lemma_presorted_distinct(self@);
                lemma_entry_map(self@);
                if j + 1 < n {
                    assert(key_lt(o0[j].key_spec(), o0[j + 1].key_spec()));
                }
            }
            match ki.cmp(&kj) {
                Ordering::Equal => {
                    let y = rest.pop().unwrap();
                    let c = self[i].combine(&y);
                    proof {
                        lemma_entry_map_update(self@, i as int, c);
                        lemma_merge_maps_step(
                            entry_map(self@),
                            entry_map(o0.subrange(j + 1, n)),
                            y,
                        );
                    }
                    self[i] = c;
                    i = i + 1;
                },
                Ordering::Less => {
                    i = i + 1;
                },
                Ordering::Greater => {
                    let y = rest.pop().unwrap();
                    assert(key_lt(kj, ki));
                    assert(!has_key(self@, kj)) by {
                        if has_key(self@, kj) {
                            let t = choose|t: int|
                                0 <= t < self@.len() && #[trigger] self@[t].key_spec() == kj;
                            if t > i {
                                assert(key_lt(ki, self@[t].key_spec()));
                            }
                        }
                    }
                    proof {
                        lemma_entry_map_insert(self@, i as int, y);
                        lemma_merge_maps_step(
                            entry_map(self@),
                            entry_map(o0.subrange(j + 1, n)),
                            y,
                        );
                    }
                    self.insert(i, y);
                    i = i + 1;
                },
            }
        }
        while rest.len() > 0
            invariant
                total_order::<T::Key>(),
                presorted(o0),
                n == o0.len(),
                presorted(self@),
                rest@.len() <= n,
                forall|t: int| 0 <= t < rest@.len() ==> #[trigger] rest@[t] == o0[n - 1 - t],
                rest@.len() > 0 ==> forall|t: int|
                    0 <= t < self@.len() ==> key_lt(
                        #[trigger] self@[t].key_spec(),
                        o0[n - rest@.len()].key_spec(),
                    ),
                merge_maps(entry_map(self@), entry_map(o0.subrange(n - rest@.len(), n)))
                    == merge_maps(entry_map(s0), entry_map(o0)),
            decreases rest@.len(),
        {
            let ghost j = n - rest@.len();
            let y = rest.pop().unwrap();
            assert(y == o0[j]);
            proof {
                lemma_entry_map_suffix(o0, j);
                lemma_presorted_distinct(self@);
                lemma_entry_map(self@);
                if j + 1 < n {
                    assert(key_lt(o0[j].key_spec(), o0[j + 1].key_spec()));
                }
                assert(!has_key(self@, y.key_spec())) by {
                    if has_key(self@, y.key_spec()) {
                        let t = choose|t: int|
                            0 <= t < self@.len() && #[trigger] self@[t].key_spec() == y.key_spec();
                        assert(key_lt(self@[t].key_spec(), y.key_spec()));
                    }
                }
                lemma_entry_map_insert(self@, self@.len() as int, y);
                assert(self@.insert(self@.len() as int, y) =~= self@.push(y));
                lemma_merge_maps_step(entry_map(self@), entry_map(o0.subrange(j + 1, n)), y);
            }
            self.push(y);
        }
        proof {
            assert(o0.subrange(n, n) =~= Seq::<T>::empty());
            lemma_merge_maps_empty(entry_map(self@));
        }
    }

    fn get_by_key(&self, key: &T::Key) -> (r: Option<&T>) {
        proof {
            lemma_presorted_distinct(self@);
            lemma_entry_map(self@);
        }
        match search(self, key) {
            Ok(i) => Some(&self[i]),
            Err(i) => {
                assert(!has_key(self@, *key)) by {
                    if has_key(self@, *key) {
                        let t = choose|t: int| 0 <= t < self@.len() && #[trigger] self@[t].key_spec() == *key;
                        if t < i {
                            assert(key_lt(self@[t].key_spec(), *key));
                        } else {
                            assert(key_lt(*key, self@[t].key_spec()));
                        }
                    }
                }
                None
            },
        }
    }
}

} // verus!
