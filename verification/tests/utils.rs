use pref_polys::geom::Orientation;
use pref_polys::utils::metrics::AggregateTimer;
use pref_polys::utils::{BitSet, BitSetFns, BitSetIter, GrowingBitSet, MyError, MyVec};
use pref_polys::graph::file::parse_number;
use pref_polys::utils::text::{push_decimal, push_digits};
use std::time::Duration;

#[test]
fn timer_adds_up_measurements() {
    let mut timer = AggregateTimer::default();
    assert_eq!(timer.count(), 0);
    assert_eq!(timer.dur(), Duration::from_secs(0));
    timer.add_measurement(Duration::from_millis(100));
    timer.add_measurement(Duration::from_millis(250));
    assert_eq!(timer.count(), 2);
    assert_eq!(timer.dur(), Duration::from_millis(350));
    assert_eq!(timer.total_nanoseconds(), 350_000_000);
}

#[test]
fn timer_refuses_what_it_cannot_hold() {
    let mut timer = AggregateTimer::default();
    assert!(timer.try_add_measurement(Duration::MAX));
    assert!(!timer.try_add_measurement(Duration::from_nanos(1)));
    assert_eq!(timer.count(), 1);
    assert_eq!(timer.dur(), Duration::MAX);
    assert!(timer.try_add_measurement(Duration::from_nanos(0)));
    assert_eq!(timer.count(), 2);
}

#[test]
fn timers_merge() {
    let mut yes = AggregateTimer::default();
    let mut no = AggregateTimer::default();
    yes.add_measurement(Duration::from_millis(200));
    no.add_measurement(Duration::from_millis(100));
    no.add_measurement(Duration::from_millis(200));
    let total = yes.merged(&no).unwrap();
    assert_eq!(total.count(), 3);
    assert_eq!(total.dur(), Duration::from_millis(500));
    let mut full = AggregateTimer::default();
    full.add_measurement(Duration::MAX);
    assert!(full.merged(&yes).is_none());
}

#[test]
fn error_messages() {
    assert_eq!(MyError::InvalidTrajectories.message(), "Invalid Trajectories");
    assert_eq!(MyError::WrongArgumentNumber.message(), "Too few arguments");
}

#[test]
fn my_vec_takes_ids_as_indices() {
    let v: MyVec<u32> = MyVec::from(vec![5, 6, 7]);
    assert_eq!(v[1usize], 6);
    assert_eq!(v[2u32], 7);
    assert_eq!(v[0i32], 5);
    assert_eq!(*v.at(2), 7);
    assert_eq!(v.len(), 3);
    assert_eq!(v.iter().sum::<u32>(), 18);
    let empty: MyVec<u8> = MyVec::new();
    assert!(empty.is_empty());
    let other: MyVec<u8> = MyVec::default();
    assert_eq!(other.len(), 0);
}

#[test]
fn orientation_has_two_sides() {
    assert_ne!(Orientation::Inside, Orientation::Outside);
    assert_eq!(Orientation::Inside, Orientation::Inside.clone());
}

#[test]
fn bit_set_from_a_word() {
    let set = BitSet::from(0b1010u128);
    assert!(set.contains(1) && set.contains(3));
    assert!(!set.contains(0) && !set.contains(2));
    let mut iter = BitSetIter::new(set);
    assert_eq!(iter.next(), Some(1));
    assert_eq!(iter.next(), Some(3));
    assert_eq!(iter.next(), None);
    assert_eq!(iter.next(), None);
    let top = BitSet::from(1u128 << 127);
    let mut iter = top.into_iter();
    assert_eq!(iter.next(), Some(127));
    assert_eq!(iter.next(), None);
}

#[test]
fn bit_set_difference_and_sum() {
    let all = BitSet::from(0b1110u128);
    let part = BitSet::from(0b0110u128);
    let rest = all - part;
    assert_eq!(rest, BitSet::from(0b1000u128));
    assert_eq!(rest + part, all);
    assert!(!rest.is_empty());
    assert!((all - all).is_empty());
}

#[test]
fn growing_bit_set_grows_by_words() {
    let mut set = GrowingBitSet::new();
    assert!(set.is_empty());
    assert!(!set.contains(4000));
    set.add(u32::MAX);
    assert!(set.contains(u32::MAX));
    assert!(!set.contains(u32::MAX - 1));
    set.remove(u32::MAX);
    assert!(set.is_empty());
    assert_eq!(GrowingBitSet::element_into_index_and_val(300), (2, 44));
    assert_eq!(GrowingBitSet::index_and_val_into_usize(2, 44), 300);
    let mut small = GrowingBitSet::new();
    small.grow_if_necessary(5);
    assert!(small.has_index(5) && !small.has_index(6));
    small.add(700);
    let mut iter = small.iter();
    assert_eq!(iter.next(), Some(700));
    assert_eq!(iter.next(), None);
    assert_eq!(iter.next(), None);
}

#[test]
fn union_keeps_what_both_sets_have_room_for() {
    let mut small = GrowingBitSet::new();
    let mut large = GrowingBitSet::new();
    small.add(7);
    large.add(9);
    large.add(1000);
    let union = small.union(&large);
    assert!(union.contains(7) && union.contains(9));
    assert!(!union.contains(1000));
    let inter = large.intersect(&large);
    assert!(inter.contains(1000) && inter.contains(9));
    assert_eq!(small.clone(), small);
    assert_ne!(small, large);
}

#[test]
fn numbers_are_written_in_decimal() {
    let mut out = b"x=".to_vec();
    push_decimal(&mut out, -120);
    out.push(b' ');
    push_decimal(&mut out, 0);
    out.push(b' ');
    push_digits(&mut out, 9007);
    assert_eq!(String::from_utf8(out).unwrap(), "x=-120 0 9007");
    let mut out = Vec::new();
    push_decimal(&mut out, i64::MIN);
    assert_eq!(String::from_utf8(out).unwrap(), "-9223372036854775808");
    let mut out = Vec::new();
    push_decimal(&mut out, i64::MAX);
    assert_eq!(String::from_utf8(out).unwrap(), "9223372036854775807");
    let mut out = Vec::new();
    push_digits(&mut out, u64::MAX);
    assert_eq!(String::from_utf8(out).unwrap(), "18446744073709551615");
}

#[test]
fn written_numbers_are_read_back() {
    for n in [0u64, 7, 10, 99, 100, 4096, u32::MAX as u64, u64::MAX] {
        let mut out = Vec::new();
        push_digits(&mut out, n);
        assert_eq!(parse_number(&out, u64::MAX), Some(n));
    }
}

#[test]
fn bit_sets_print_their_members_in_order() {
    let mut set = BitSet::new();
    set.add(124);
    set.add(1);
    set.add(15);
    assert_eq!(String::from_utf8(set.print()).unwrap(), "1 15 124 \n");
    assert_eq!(String::from_utf8(BitSet::new().print()).unwrap(), "\n");
    let mut growing = GrowingBitSet::new();
    growing.add(987);
    growing.add(0);
    growing.add(128);
    assert_eq!(String::from_utf8(growing.print()).unwrap(), "0 128 987 \n");
    assert_eq!(String::from_utf8(GrowingBitSet::new().print()).unwrap(), "\n");
}
