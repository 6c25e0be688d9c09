use pref_polys::utils::{BitSet, BitSetFns, GrowingBitSet};

#[test]
fn test_bit_set_functions() {
    let mut set = BitSet::new();

    set.add(124);
    set.add(1);
    set.add(15);

    assert!(set.contains(1));
    assert!(set.contains(15));
    assert!(set.contains(124));

    set.remove(15);
    assert!(!set.contains(15));

    let mut iter = set.iter();

    assert_eq!(iter.next(), Some(1));
    assert_eq!(iter.next(), Some(124));
    assert_eq!(iter.next(), None);
}

#[test]
fn test_removing_from_empty_set() {
    let mut set = BitSet::new();

    set.remove(15);

    assert!(set.is_empty())
}

#[test]
fn test_bitset_intersection() {
    let mut set1 = BitSet::new();
    let mut set2 = BitSet::new();

    set1.add(3);
    set1.add(5);
    set2.add(5);
    set2.add(6);

    let inter = set1.intersect(&set2);

    let mut iter = inter.iter();

    assert_eq!(iter.next(), Some(5));
    assert_eq!(iter.next(), None);
}

#[test]
fn test_bitset_union() {
    let mut set1 = BitSet::new();
    let mut set2 = BitSet::new();

    set1.add(3);
    set1.add(5);
    set2.add(5);
    set2.add(6);

    let union = set1.union(&set2);

    let mut iter = union.iter();

    assert_eq!(iter.next(), Some(3));
    assert_eq!(iter.next(), Some(5));
    assert_eq!(iter.next(), Some(6));
    assert_eq!(iter.next(), None);
}

#[test]
fn test_bit_set_iter() {
    let mut cell = BitSet::new();
    cell.add(124);
    cell.add(1);
    cell.add(3);
    cell.add(5);
    cell.add(7);
    cell.add(9);
    cell.add(11);
    cell.add(13);
    let mut iter = cell.iter();

    assert_eq!(iter.next(), Some(1));
    assert_eq!(iter.next(), Some(3));
    assert_eq!(iter.next(), Some(5));
    assert_eq!(iter.next(), Some(7));
    assert_eq!(iter.next(), Some(9));
    assert_eq!(iter.next(), Some(11));
    assert_eq!(iter.next(), Some(13));
    assert_eq!(iter.next(), Some(124));
    assert_eq!(iter.next(), None);
}

#[test]
fn test_growing_bit_set() {
    let mut set = GrowingBitSet::new();

    set.add(124);
    set.add(1);
    set.add(15);
    set.add(199);

    assert!(set.contains(1));
    assert!(set.contains(15));
    assert!(set.contains(124));
    assert!(set.contains(199));

    set.remove(15);
    assert!(!set.contains(15));

    set.add(987);
    assert!(set.contains(987));
    assert!(!set.contains(986));

    let mut iter = set.into_iter();

    assert_eq!(iter.next(), Some(1));
    assert_eq!(iter.next(), Some(124));
    assert_eq!(iter.next(), Some(199));
    assert_eq!(iter.next(), Some(987));
    assert_eq!(iter.next(), None);
}

#[test]
fn test_removing_from_empty_growing_set() {
    let mut set = GrowingBitSet::new();

    set.remove(15);
    set.remove(9876);

    assert!(set.is_empty())
}

#[test]
fn test_growing_bitset_intersection() {
    let mut set1 = GrowingBitSet::new();
    let mut set2 = GrowingBitSet::new();

    set1.add(3);
    set1.add(244);
    set1.add(995);
    set1.add(5);

    set2.add(5);
    set2.add(995);
    set2.add(6);
    set2.add(522);

    let inter = set1.intersect(&set2);

    let mut iter = inter.iter();

    assert_eq!(iter.next(), Some(5));
    assert_eq!(iter.next(), Some(995));
    assert_eq!(iter.next(), None);
}

#[test]
fn test_growing_bitset_union() {
    let mut set1 = GrowingBitSet::new();
    let mut set2 = GrowingBitSet::new();

    set1.add(3);
    set1.add(244);
    set1.add(995);
    set1.add(5);

    set2.add(5);
    set2.add(995);
    set2.add(6);
    set2.add(522);

    let union = set1.union(&set2);

    let mut iter = union.iter();

    assert_eq!(iter.next(), Some(3));
    assert_eq!(iter.next(), Some(5));
    assert_eq!(iter.next(), Some(6));
    assert_eq!(iter.next(), Some(244));
    assert_eq!(iter.next(), Some(522));
    assert_eq!(iter.next(), Some(995));
    assert_eq!(iter.next(), None);
}
