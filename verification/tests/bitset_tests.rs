use fibis::BitSet;

#[test]
fn insert_contains_remove_scenario() {
    let mut foo = BitSet::<0, 32>::new();
    assert!(foo.insert(0));
    assert!(foo.insert(10));
    assert!(foo.insert(32));
    assert_eq!(foo.len(), 3);
    assert!(foo.contains(0));
    assert!(foo.contains(10));
    assert!(foo.contains(32));
    assert!(!foo.contains(2));

    assert!(foo.remove(0));
    assert!(foo.remove(10));
    assert!(foo.remove(32));
    assert_eq!(foo.len(), 0);
    assert!(!foo.contains(0));
    assert!(!foo.contains(10));
    assert!(!foo.contains(32));
}

#[test]
fn unaligned_lower_bound_scenario() {
    let mut foo = BitSet::<3, 32>::new();
    assert!(foo.insert(3));
    assert!(foo.insert(10));
    assert!(foo.insert(5));
    assert_eq!(foo.len(), 3);
    assert!(foo.contains(3));
    assert!(foo.contains(10));
    assert!(foo.contains(5));
}

#[test]
fn boundary_values_unaligned() {
    let mut foo = BitSet::<3, 32>::new();
    assert!(!foo.contains(3));
    assert!(!foo.contains(32));
    assert!(foo.insert(3));
    assert!(foo.insert(32));
    assert!(foo.contains(3));
    assert!(foo.contains(32));
    assert_eq!(foo.len(), 2);
    assert!(foo.remove(3));
    assert!(!foo.contains(3));
    assert!(foo.contains(32));
    assert!(foo.remove(32));
    assert!(!foo.contains(32));
    assert!(foo.is_empty());
}

#[test]
fn from_iter_matches_sequential_inserts() {
    let values: Vec<usize> = (0..=32).collect();
    let bulk = BitSet::<0, 32>::from_iter(&values);
    assert_eq!(bulk.len(), 33);

    let mut one_by_one = BitSet::<0, 32>::new();
    for v in 0..=32 {
        one_by_one.insert(v);
    }
    assert_eq!(one_by_one.len(), 33);
    assert!(bulk == one_by_one);
}

#[test]
fn insert_is_idempotent() {
    let mut foo = BitSet::<0, 32>::new();
    assert!(foo.insert(7));
    let once = foo.clone();
    assert!(!foo.insert(7));
    assert_eq!(foo.len(), 1);
    assert!(foo == once);
}

#[test]
fn remove_absent_is_noop() {
    let mut foo = BitSet::<0, 32>::new();
    foo.insert(4);
    let before = foo.clone();
    assert!(!foo.remove(9));
    assert_eq!(foo.len(), 1);
    assert!(foo == before);
}

#[test]
fn cardinality_matches_membership_count() {
    let mut foo = BitSet::<10, 200>::new();
    foo.insert(10);
    foo.insert(64);
    foo.insert(64);
    foo.insert(200);
    foo.insert(137);
    foo.remove(64);
    foo.remove(64);
    foo.insert(74);
    foo.retain(|x| x % 2 == 0);
    let mut counted = 0;
    for v in 10..=200 {
        if foo.contains(v) {
            counted += 1;
        }
    }
    assert_eq!(foo.len(), counted);
}

#[test]
fn membership_round_trip() {
    let mut foo = BitSet::<5, 70>::new();
    for v in [5usize, 6, 38, 63, 64, 65, 70] {
        foo.insert(v);
        assert!(foo.contains(v));
        foo.remove(v);
        assert!(!foo.contains(v));
    }
}

#[test]
fn iteration_is_ascending_and_complete() {
    let mut foo = BitSet::<0, 100>::new();
    for v in [5usize, 1, 63, 64, 2, 100] {
        foo.insert(v);
    }
    foo.remove(2);
    let mut it = foo.iter();
    assert_eq!(it.next(), Some(1));
    assert_eq!(it.next(), Some(5));
    assert_eq!(it.next(), Some(63));
    assert_eq!(it.next(), Some(64));
    assert_eq!(it.next(), Some(100));
    assert_eq!(it.next(), None);
    assert_eq!(it.next(), None);
}

#[test]
fn iteration_of_empty_set() {
    let foo = BitSet::<7, 31>::new();
    let mut it = foo.iter();
    assert_eq!(it.next(), None);
}

#[test]
fn into_iter_yields_members() {
    let mut foo = BitSet::<0, 10>::new();
    foo.insert(9);
    foo.insert(0);
    let mut it = foo.into_iter();
    assert_eq!(it.next(), Some(0));
    assert_eq!(it.next(), Some(9));
    assert_eq!(it.next(), None);
}

#[test]
fn union_contains_members_of_either() {
    let mut a = BitSet::<0, 80>::new();
    a.insert(1);
    a.insert(64);
    let mut b = BitSet::<0, 80>::new();
    b.insert(2);
    b.insert(64);
    let mut u = a.union(&b);
    assert_eq!(u.next(), Some(1));
    assert_eq!(u.next(), Some(2));
    assert_eq!(u.next(), Some(64));
    assert_eq!(u.next(), None);
}

#[test]
fn intersection_contains_members_of_both() {
    let mut a = BitSet::<0, 80>::new();
    a.insert(1);
    a.insert(7);
    a.insert(64);
    let mut b = BitSet::<0, 80>::new();
    b.insert(7);
    b.insert(64);
    b.insert(80);
    let mut i = a.intersection(&b);
    assert_eq!(i.next(), Some(7));
    assert_eq!(i.next(), Some(64));
    assert_eq!(i.next(), None);
}

#[test]
fn difference_contains_members_of_self_only() {
    let mut a = BitSet::<0, 80>::new();
    a.insert(1);
    a.insert(7);
    a.insert(64);
    let mut b = BitSet::<0, 80>::new();
    b.insert(7);
    let mut d = a.difference(&b);
    assert_eq!(d.next(), Some(1));
    assert_eq!(d.next(), Some(64));
    assert_eq!(d.next(), None);
}

#[test]
fn symmetric_difference_contains_members_of_exactly_one() {
    let mut a = BitSet::<0, 80>::new();
    a.insert(1);
    a.insert(7);
    let mut b = BitSet::<0, 80>::new();
    b.insert(7);
    b.insert(80);
    let mut s = a.symmetric_difference(&b);
    assert_eq!(s.next(), Some(1));
    assert_eq!(s.next(), Some(80));
    assert_eq!(s.next(), None);
}

#[test]
fn subset_iff_intersection_is_self() {
    let mut a = BitSet::<0, 40>::new();
    a.insert(3);
    a.insert(17);
    let mut b = BitSet::<0, 40>::new();
    b.insert(3);
    b.insert(17);
    b.insert(40);
    assert!(a.is_subset(&b));
    assert!(!b.is_subset(&a));
    assert!(b.is_superset(&a));

    // The intersection of a subset with its superset yields the subset's
    // own members back.
    let mut i = a.intersection(&b);
    assert_eq!(i.next(), Some(3));
    assert_eq!(i.next(), Some(17));
    assert_eq!(i.next(), None);

    // Once a holds a value b lacks, the subset relation is gone.
    a.insert(20);
    assert!(!a.is_subset(&b));
}

#[test]
fn disjoint_iff_intersection_empty() {
    let mut foo = BitSet::<0, 32>::new();
    foo.insert(1);
    foo.insert(2);
    foo.insert(3);
    let mut bar = BitSet::<0, 32>::new();
    bar.insert(4);
    bar.insert(5);
    bar.insert(6);
    assert!(foo.is_disjoint(&bar));
    let mut i = foo.intersection(&bar);
    assert_eq!(i.next(), None);

    foo.insert(4);
    assert!(!foo.is_disjoint(&bar));
    let mut j = foo.intersection(&bar);
    assert_eq!(j.next(), Some(4));
    assert_eq!(j.next(), None);
}

#[test]
fn clear_empties_the_set() {
    let mut foo = BitSet::<0, 32>::new();
    foo.insert(1);
    foo.insert(10);
    foo.insert(5);
    assert_eq!(foo.len(), 3);
    assert!(!foo.is_empty());
    foo.clear();
    assert_eq!(foo.len(), 0);
    assert!(foo.is_empty());
    assert!(!foo.contains(1));
    assert!(!foo.contains(5));
    assert!(!foo.contains(10));
}

#[test]
fn retain_keeps_matching_members() {
    let mut foo = BitSet::<0, 32>::new();
    foo.insert(1);
    foo.insert(2);
    foo.insert(3);
    foo.retain(|x| x % 2 == 0);
    assert!(foo.contains(2));
    assert!(!foo.contains(1));
    assert!(!foo.contains(3));
    assert_eq!(foo.len(), 1);
}

#[test]
fn len_tracks_insert_and_remove() {
    let mut foo = BitSet::<0, 32>::new();
    foo.insert(1);
    foo.insert(10);
    foo.insert(5);
    assert_eq!(foo.len(), 3);
    foo.remove(1);
    assert_eq!(foo.len(), 2);
}

#[test]
fn is_empty_follows_contents() {
    let mut foo = BitSet::<0, 32>::new();
    assert!(foo.is_empty());
    foo.insert(1);
    assert_eq!(foo.len(), 1);
    assert!(!foo.is_empty());
    foo.remove(1);
    assert!(foo.is_empty());
}

#[test]
fn equality_follows_members_not_history() {
    let mut a = BitSet::<0, 64>::new();
    a.insert(1);
    a.insert(2);
    a.remove(2);
    let mut b = BitSet::<0, 64>::new();
    b.insert(1);
    assert!(a == b);
    b.insert(64);
    assert!(a != b);
}

#[test]
fn clones_are_independent() {
    let mut a = BitSet::<0, 32>::new();
    a.insert(8);
    let mut b = a.clone();
    assert!(a == b);
    b.insert(9);
    assert!(!a.contains(9));
    assert!(b.contains(9));
    assert!(a != b);
}

#[test]
fn single_value_domain() {
    let mut foo = BitSet::<17, 17>::new();
    assert!(foo.insert(17));
    assert!(foo.contains(17));
    assert_eq!(foo.len(), 1);
    let mut it = foo.iter();
    assert_eq!(it.next(), Some(17));
    assert_eq!(it.next(), None);
    assert!(foo.remove(17));
    assert!(foo.is_empty());
}

#[test]
fn word_boundary_values() {
    let mut foo = BitSet::<0, 200>::new();
    for v in [63usize, 64, 127, 128, 191, 192] {
        assert!(foo.insert(v));
    }
    assert_eq!(foo.len(), 6);
    for v in [63usize, 64, 127, 128, 191, 192] {
        assert!(foo.contains(v));
    }
    assert!(!foo.contains(62));
    assert!(!foo.contains(65));
    assert!(foo.remove(64));
    assert!(foo.contains(63));
    assert!(!foo.contains(64));
    assert_eq!(foo.len(), 5);
}

#[test]
fn from_iter_ignores_duplicates() {
    let values: Vec<usize> = vec![4, 4, 9, 4, 9];
    let foo = BitSet::<0, 10>::from_iter(&values);
    assert_eq!(foo.len(), 2);
    assert!(foo.contains(4));
    assert!(foo.contains(9));
}
