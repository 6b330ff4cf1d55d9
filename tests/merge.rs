use tree_bitset::combination_iter::{BucketCombination, BucketCombinationIterator, Combination};
use tree_bitset::join_iter::{BucketJoinIterator, Join};
use tree_bitset::TreeBitSet;

#[test]
fn combines_correctly() {
    let p = TreeBitSet::from_slice(&[1, 2, 64, 666]);
    let q = TreeBitSet::from_slice(&[3, 4, 333]);

    let mut iter = BucketCombinationIterator::new(p.bucket_iter(), q.bucket_iter());
    let mut combinations = Vec::new();
    while let Some(c) = iter.next() {
        combinations.push(c);
    }

    assert_eq!(
        vec![
            BucketCombination::new(0_u64, Combination::PQ(1 << 1 | 1 << 2, 1 << 3 | 1 << 4)),
            BucketCombination::new(64, Combination::P(1 << 0)),
            BucketCombination::new(320, Combination::Q(1 << 13)),
            BucketCombination::new(640, Combination::P(1 << 26))
        ],
        combinations
    );
}

#[test]
fn joins_correctly() {
    let p = TreeBitSet::from_slice(&[1, 2, 64, 666]);
    let q = TreeBitSet::from_slice(&[3, 4, 333]);

    let mut iter = BucketJoinIterator::new(p.bucket_iter(), q.bucket_iter());
    let mut joins = Vec::new();
    while let Some(j) = iter.next() {
        joins.push(j);
    }

    assert_eq!(
        vec![
            (0_u64, Join::PQ(1 << 1 | 1 << 2, 1 << 3 | 1 << 4)),
            (64, Join::P(1 << 0)),
            (320, Join::Q(1 << 13)),
            (640, Join::P(1 << 26))
        ],
        joins
    );
}
