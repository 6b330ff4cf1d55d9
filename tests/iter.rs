use tree_bitset::iter::{Bucket, BucketIterator};

#[test]
fn iterate_empty_bucket() {
    let mut iterator = BucketIterator::<u64>::new(Bucket::new(0, 0));
    assert_eq!(None, iterator.next());
}

#[test]
fn iterate_first_bits() {
    let mut iterator = BucketIterator::<u64>::new(Bucket::new(0, 0x7));
    assert_eq!(Some(0), iterator.next());
    assert_eq!(Some(1), iterator.next());
    assert_eq!(Some(2), iterator.next());
    assert_eq!(None, iterator.next());
}

#[test]
fn iterate_skip_bits() {
    let mut iterator = BucketIterator::<u64>::new(Bucket::new(0, 0xa));
    assert_eq!(Some(1), iterator.next());
    assert_eq!(Some(3), iterator.next());
    assert_eq!(None, iterator.next());
}
