use presorted::{Keyed, Presorted, Semigroup};
use quickcheck::{Arbitrary, Gen, QuickCheck};
use std::cmp::Ordering;

#[derive(Debug, Copy, Clone)]
struct Thing(i32, f32);

impl PartialEq for Thing {
    fn eq(&self, other: &Thing) -> bool {
        self.key() == other.key()
    }
}

impl Eq for Thing {}

impl Ord for Thing {
    fn cmp(&self, other: &Thing) -> Ordering {
        self.key().cmp(&other.key())
    }
}

impl PartialOrd for Thing {
    fn partial_cmp(&self, other: &Thing) -> Option<Ordering> {
        Some(self.cmp(other))
    }
}

// Outside the verifier a trait's spec functions are ordinary methods: each
// impl gives them the meaning of the matching exec method.
impl Keyed for Thing {
    type Key = i32;
    fn key_spec(&self) -> Self::Key {
        self.0
    }
    fn key(&self) -> Self::Key {
        self.0
    }
}

impl Semigroup for Thing {
    fn combine_spec(&self, other: &Thing) -> Thing {
        self.combine(other)
    }
    fn combine(&self, other: &Thing) -> Thing {
        Thing(self.0, self.1 + other.1)
    }
}

impl Arbitrary for Thing {
    fn arbitrary(g: &mut Gen) -> Thing {
        Thing(i32::arbitrary(g), f32::arbitrary(g))
    }
}

/// An entry whose combine is not commutative: it appends the tags in order.
#[derive(Debug, Clone, PartialEq)]
struct Tagged(u64, Vec<u32>);

impl Keyed for Tagged {
    type Key = u64;
    fn key_spec(&self) -> u64 {
        self.0
    }
    fn key(&self) -> u64 {
        self.0
    }
}

impl Semigroup for Tagged {
    fn combine_spec(&self, other: &Tagged) -> Tagged {
        self.combine(other)
    }
    fn combine(&self, other: &Tagged) -> Tagged {
        let mut tags = self.1.clone();
        tags.extend_from_slice(&other.1);
        Tagged(self.0, tags)
    }
}

fn tagged(k: u64, tags: &[u32]) -> Tagged {
    Tagged(k, tags.to_vec())
}

fn is_sorted<T: Ord>(v: &[T]) -> bool {
    let mut i = 1;
    while i < v.len() {
        if v[i] <= v[i - 1] {
            return false;
        }
        i += 1;
    }
    true
}

#[test]
fn it_works() {
    let mut v = vec![Thing(1, 0.1), Thing(3, 0.3), Thing(5, 0.5)];
    v.put(Thing(4, 0.4));
    println!("{:?}", v);
    assert!(v == vec![Thing(1, 0.1), Thing(3, 0.3), Thing(4, 0.4), Thing(5, 0.5)]);
    v.put(Thing(4, 0.6));
    assert!(v == vec![Thing(1, 0.1), Thing(3, 0.3), Thing(4, 1.0), Thing(5, 0.5)]);

    assert!(v.get_by_key(&3) == Some(&Thing(3, 0.3)));

    let w = vec![Thing(1, 0.9), Thing(2, 0.2), Thing(6, 0.6)];
    v.merge(w);
    assert!(v ==
            vec![Thing(1, 1.0),
                 Thing(2, 0.2),
                 Thing(3, 0.3),
                 Thing(4, 1.0),
                 Thing(5, 0.5),
                 Thing(6, 0.6)]);
}

#[test]
fn combined_values_are_summed() {
    let mut v = vec![Thing(1, 0.25), Thing(3, 0.5)];
    v.put(Thing(3, 0.25));
    assert_eq!(v.len(), 2);
    assert_eq!(v[1].1, 0.75);
    v.merge(vec![Thing(1, 0.5)]);
    assert_eq!(v[0].1, 0.75);
}

#[test]
fn merge_is_sorted() {
    fn prop(mut v: Vec<Thing>, mut w: Vec<Thing>) -> bool {
        v.sort();
        v.dedup();
        w.sort();
        w.dedup();
        v.merge(w);
        is_sorted(&v)
    }
    QuickCheck::new().quickcheck(prop as fn(Vec<Thing>, Vec<Thing>) -> bool);
}

#[test]
fn puts_from_empty_stay_sorted_and_unique() {
    let mut v: Vec<Tagged> = Vec::new();
    for (i, k) in [7u64, 2, 9, 2, 0, 7, 7, 5].iter().enumerate() {
        v.put(tagged(*k, &[i as u32]));
    }
    let keys: Vec<u64> = v.iter().map(|t| t.0).collect();
    assert_eq!(keys, vec![0, 2, 5, 7, 9]);
    assert_eq!(v.get_by_key(&7), Some(&tagged(7, &[0, 5, 6])));
    assert_eq!(v.get_by_key(&2), Some(&tagged(2, &[1, 3])));
    assert_eq!(v.get_by_key(&0), Some(&tagged(0, &[4])));
}

#[test]
fn put_combines_existing_first() {
    let mut v = vec![tagged(1, &[10]), tagged(4, &[40])];
    v.put(tagged(4, &[41]));
    assert_eq!(v, vec![tagged(1, &[10]), tagged(4, &[40, 41])]);
}

#[test]
fn put_same_key_twice_into_empty() {
    let mut v: Vec<Tagged> = Vec::new();
    v.put(tagged(3, &[1]));
    v.put(tagged(3, &[2]));
    assert_eq!(v, vec![tagged(3, &[1, 2])]);
}

#[test]
fn put_at_both_ends() {
    let mut v = vec![tagged(5, &[5])];
    v.put(tagged(9, &[9]));
    v.put(tagged(1, &[1]));
    assert_eq!(v, vec![tagged(1, &[1]), tagged(5, &[5]), tagged(9, &[9])]);
}

#[test]
fn get_by_key_absent() {
    let v = vec![tagged(1, &[1]), tagged(3, &[3]), tagged(5, &[5])];
    assert_eq!(v.get_by_key(&0), None);
    assert_eq!(v.get_by_key(&4), None);
    assert_eq!(v.get_by_key(&6), None);
    let e: Vec<Tagged> = Vec::new();
    assert_eq!(e.get_by_key(&1), None);
}

#[test]
fn merge_disjoint_keeps_entries() {
    let mut a = vec![tagged(1, &[1]), tagged(4, &[4]), tagged(8, &[8])];
    let b = vec![tagged(0, &[0]), tagged(5, &[5]), tagged(9, &[9])];
    a.merge(b);
    assert_eq!(
        a,
        vec![
            tagged(0, &[0]),
            tagged(1, &[1]),
            tagged(4, &[4]),
            tagged(5, &[5]),
            tagged(8, &[8]),
            tagged(9, &[9]),
        ]
    );
}

#[test]
fn merge_combines_self_first() {
    let mut a = vec![tagged(2, &[1]), tagged(3, &[1])];
    let b = vec![tagged(2, &[2]), tagged(3, &[2]), tagged(4, &[2])];
    a.merge(b);
    assert_eq!(a, vec![tagged(2, &[1, 2]), tagged(3, &[1, 2]), tagged(4, &[2])]);
}

#[test]
fn merge_with_empty() {
    let mut a = vec![tagged(2, &[1])];
    a.merge(Vec::new());
    assert_eq!(a, vec![tagged(2, &[1])]);
    let mut e: Vec<Tagged> = Vec::new();
    e.merge(vec![tagged(1, &[1]), tagged(2, &[2])]);
    assert_eq!(e, vec![tagged(1, &[1]), tagged(2, &[2])]);
}

#[test]
fn merge_grouping_does_not_matter() {
    let a = vec![tagged(1, &[1]), tagged(3, &[1])];
    let b = vec![tagged(1, &[2]), tagged(2, &[2])];
    let c = vec![tagged(1, &[3]), tagged(3, &[3]), tagged(4, &[3])];

    let mut left = a.clone();
    left.merge(b.clone());
    left.merge(c.clone());

    let mut bc = b;
    bc.merge(c);
    let mut right = a;
    right.merge(bc);

    assert_eq!(left, right);
    assert_eq!(
        left,
        vec![tagged(1, &[1, 2, 3]), tagged(2, &[2]), tagged(3, &[1, 3]), tagged(4, &[3])]
    );
}

#[test]
fn merge_matches_repeated_put() {
    let mut merged = vec![tagged(2, &[0]), tagged(6, &[0])];
    let other = vec![tagged(1, &[1]), tagged(2, &[1]), tagged(7, &[1])];
    let mut put_one_by_one = merged.clone();
    for x in other.iter() {
        put_one_by_one.put(x.clone());
    }
    merged.merge(other);
    assert_eq!(merged, put_one_by_one);
}
