//! The two capabilities an element type supplies: a key and a combine.

use vstd::prelude::*;
use vstd::std_specs::cmp::OrdSpec;
use core::cmp::Ordering;

verus! {

/// Something with a key.
pub trait Keyed {
    type Key: Ord;

    /// The key of this element, as a pure function of the element.
    spec fn key_spec(&self) -> Self::Key;

    fn key(&self) -> (k: Self::Key)
        ensures
            k == self.key_spec(),
    ;
}

/// An associative binary operator.
pub trait Semigroup: Sized {
    /// The union of two elements, as a pure function of both.
    spec fn combine_spec(&self, other: &Self) -> Self;

    fn combine(&self, other: &Self) -> (r: Self)
        ensures
            r == self.combine_spec(other),
    ;
}

/// `a` orders strictly before `b`.
pub open spec fn key_lt<K: Ord>(a: K, b: K) -> bool {
    a.cmp_spec(&b) == Ordering::Less
}

/// `cmp` on `K` is a total order, as the `Ord` documentation asks of every impl.
pub open spec fn total_order<K: Ord>() -> bool {
    &&& K::obeys_cmp_spec()
    &&& forall|a: K, b: K| #[trigger] a.cmp_spec(&b) == Ordering::Equal <==> a == b
    &&& forall|a: K, b: K|
        #[trigger] a.cmp_spec(&b) == Ordering::Less <==> b.cmp_spec(&a) == Ordering::Greater
    &&& forall|a: K, b: K, c: K|
        #![trigger a.cmp_spec(&b), b.cmp_spec(&c)]
        key_lt(a, b) && key_lt(b, c) ==> key_lt(a, c)
}

/// Combining two elements of equal key keeps that key.
pub open spec fn combine_keeps_key<T: Keyed + Semigroup>() -> bool {
    forall|a: T, b: T|
        a.key_spec() == b.key_spec() ==> #[trigger] a.combine_spec(&b).key_spec() == a.key_spec()
}

/// Combining is associative.
pub open spec fn combine_associative<T: Semigroup>() -> bool {
    forall|a: T, b: T, c: T|
        #[trigger] a.combine_spec(&b).combine_spec(&c) == a.combine_spec(&b.combine_spec(&c))
}

} // verus!
