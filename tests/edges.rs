use tree_bitset::iter::{Bucket, BucketIterator};
use tree_bitset::TreeBitSet;

#[test]
fn empty_set_contains_nothing() {
    let a = TreeBitSet::<u64>::new();
    assert!(!a.contains(0));
    assert!(!a.contains(1));
    assert!(!a.contains(u64::MAX));
    let b = TreeBitSet::<u32>::new();
    assert!(!b.contains(0));
    assert!(!b.contains(u32::MAX));
    let c = TreeBitSet::<u128>::new();
    assert!(!c.contains(0));
    assert!(!c.contains(u128::MAX));
}

#[test]
fn bucket_edges_round_trip_u64() {
    let mut s = TreeBitSet::<u64>::new();
    s.insert(64);
    s.insert(127);
    assert!(s.contains(64));
    assert!(s.contains(127));
    assert!(!s.contains(63));
    assert!(!s.contains(128));
    assert_eq!(vec![64, 127], s.to_vec());
    s.remove(64);
    assert!(!s.contains(64));
    assert_eq!(vec![127], s.to_vec());
    s.remove(127);
    assert_eq!(Vec::<u64>::new(), s.to_vec());
}

#[test]
fn largest_members_round_trip() {
    let mut a = TreeBitSet::<u64>::new();
    a.insert(u64::MAX);
    a.insert(u64::MAX - 63);
    assert!(a.contains(u64::MAX));
    assert_eq!(vec![u64::MAX - 63, u64::MAX], a.to_vec());
    a.remove(u64::MAX);
    assert_eq!(vec![u64::MAX - 63], a.to_vec());

    let mut b = TreeBitSet::<u32>::new();
    b.insert(u32::MAX);
    b.insert(0);
    assert_eq!("{0, 4294967295}", b.debug_string());

    let mut c = TreeBitSet::<u128>::new();
    c.insert(u128::MAX);
    c.insert(u128::MAX - 127);
    assert!(c.contains(u128::MAX));
    assert_eq!(vec![u128::MAX - 127, u128::MAX], c.to_vec());
    assert_eq!(
        "{340282366920938463463374607431768211328, 340282366920938463463374607431768211455}",
        c.debug_string()
    );
}

#[test]
fn full_word_unpacks_every_position() {
    let mut it = BucketIterator::<u64>::new(Bucket::new(128, u64::MAX));
    for i in 0..64u64 {
        assert_eq!(Some(128 + i), it.next());
    }
    assert_eq!(None, it.next());
}

#[test]
fn full_top_word_stops_at_the_largest_value() {
    let mut it = BucketIterator::<u32>::new(Bucket::new(u32::MAX - 31, u32::MAX));
    for i in 0..32u32 {
        assert_eq!(Some(u32::MAX - 31 + i), it.next());
    }
    assert_eq!(None, it.next());
}

#[test]
fn top_bit_alone_unpacks() {
    let mut it = BucketIterator::<u64>::new(Bucket::new(0, 1 << 63));
    assert_eq!(Some(63), it.next());
    assert_eq!(None, it.next());
}

#[test]
fn wide_words_unpack_by_trailing_zeros() {
    let mut it = BucketIterator::<u128>::new(Bucket::new(256, 0b1010 | 1 << 100 | 1 << 127));
    assert_eq!(Some(257), it.next());
    assert_eq!(Some(259), it.next());
    assert_eq!(Some(356), it.next());
    assert_eq!(Some(383), it.next());
    assert_eq!(None, it.next());
}

#[test]
fn wide_set_renders_in_order() {
    let s = TreeBitSet::<u128>::from_slice(&[1 << 100, 7, 130, 129]);
    assert_eq!("{7, 129, 130, 1267650600228229401496703205376}", s.debug_string());
}
