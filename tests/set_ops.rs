use tree_bitset::join_iter::{BitJoinIterator, BucketJoinIterator};
use tree_bitset::op;
use tree_bitset::TreeBitSet;

fn drain_union(a: &TreeBitSet<u64>, b: &TreeBitSet<u64>) -> Vec<u64> {
    let mut it = a.union(b);
    let mut out = Vec::new();
    while let Some(x) = it.next() {
        out.push(x);
    }
    out
}

#[test]
fn union_enumerates_sorted_members_of_either() {
    let a = TreeBitSet::<u64>::from_slice(&[1, 2, 64, 666]);
    let b = TreeBitSet::<u64>::from_slice(&[3, 4, 333]);
    assert_eq!(vec![1, 2, 3, 4, 64, 333, 666], drain_union(&a, &b));
}

#[test]
fn intersection_of_disjoint_sets_is_empty() {
    let a = TreeBitSet::<u64>::from_slice(&[1, 2, 64, 666]);
    let b = TreeBitSet::<u64>::from_slice(&[3, 4, 333]);
    let mut it = a.intersection(&b);
    assert_eq!(None, it.next());
    assert_eq!(None, it.next());
}

#[test]
fn difference_keeps_left_only_members_in_order() {
    let a = TreeBitSet::<u64>::from_slice(&[1, 2, 64, 666]);
    let b = TreeBitSet::<u64>::from_slice(&[3, 4, 333]);
    let mut it = a.difference(&b);
    let mut out = Vec::new();
    while let Some(x) = it.next() {
        out.push(x);
    }
    assert_eq!(vec![1, 2, 64, 666], out);
}

#[test]
fn set_algebra_within_shared_buckets() {
    let a = TreeBitSet::<u32>::from_slice(&[0, 5, 31, 32, 40, 1000]);
    let b = TreeBitSet::<u32>::from_slice(&[5, 31, 33, 40, 2000]);
    assert_eq!(
        vec![5, 31, 40],
        a.intersection(&b).collect().to_vec()
    );
    assert_eq!(vec![0, 32, 1000], a.difference(&b).collect().to_vec());
    assert_eq!(vec![33, 2000], b.difference(&a).collect().to_vec());
    assert_eq!(
        vec![0, 5, 31, 32, 33, 40, 1000, 2000],
        a.union(&b).collect().to_vec()
    );
}

#[test]
fn set_algebra_with_empty_operand() {
    let a = TreeBitSet::<u64>::from_slice(&[7, 700]);
    let e = TreeBitSet::<u64>::new();
    assert_eq!(vec![7, 700], a.union(&e).collect().to_vec());
    assert_eq!(vec![7, 700], e.union(&a).collect().to_vec());
    assert_eq!(Vec::<u64>::new(), a.intersection(&e).collect().to_vec());
    assert_eq!(vec![7, 700], a.difference(&e).collect().to_vec());
    assert_eq!(Vec::<u64>::new(), e.difference(&a).collect().to_vec());
}

#[test]
fn set_algebra_of_a_set_with_itself() {
    let a = TreeBitSet::<u128>::from_slice(&[1, 127, 128, 300]);
    assert_eq!(a, a.union(&a).collect());
    assert_eq!(a, a.intersection(&a).collect());
    assert_eq!(TreeBitSet::new(), a.difference(&a).collect());
}

#[test]
fn join_iterator_yields_combined_members() {
    let p = TreeBitSet::<u64>::from_slice(&[1, 2, 64, 666]);
    let q = TreeBitSet::<u64>::from_slice(&[2, 4, 333, 666]);
    let mut it = BitJoinIterator::new(
        BucketJoinIterator::new(p.bucket_iter(), q.bucket_iter()),
        op::Intersection,
    );
    assert_eq!(Some(2), it.next());
    assert_eq!(Some(666), it.next());
    assert_eq!(None, it.next());
}

#[test]
fn ascending_enumeration_after_scattered_inserts() {
    let mut s = TreeBitSet::<u64>::new();
    for x in [9000u64, 3, 64, 63, 1 << 40, 65, 0, 128, 3] {
        s.insert(x);
    }
    let v = s.to_vec();
    assert_eq!(vec![0, 3, 63, 64, 65, 128, 9000, 1 << 40], v);
    assert!(v.windows(2).all(|w| w[0] < w[1]));
    let mut it = s.iter();
    let mut walked = Vec::new();
    while let Some(x) = it.next() {
        walked.push(x);
    }
    assert_eq!(v, walked);
}

#[test]
fn inserting_twice_equals_inserting_once() {
    let mut once = TreeBitSet::<u64>::from_slice(&[10, 500]);
    let mut twice = once.clone();
    once.insert(77);
    twice.insert(77);
    twice.insert(77);
    assert_eq!(once, twice);
    assert_eq!("{10, 77, 500}", twice.debug_string());
}

#[test]
fn construction_ignores_order_and_repetition() {
    let a = TreeBitSet::<u64>::from_slice(&[5, 3, 5, 200, 64, 3]);
    let b = TreeBitSet::<u64>::from_slice(&[200, 64, 3, 5]);
    assert_eq!(a, b);
    let mut c = TreeBitSet::<u64>::new();
    c.extend(&[64, 200]);
    c.extend(&[5, 3, 3]);
    assert_eq!(a, c);
}

#[test]
fn insert_then_remove_round_trips() {
    let mut s = TreeBitSet::<u64>::from_slice(&[1, 2, 3]);
    s.insert(100);
    s.remove(100);
    assert!(!s.contains(100));
    assert!(!s.to_vec().contains(&100));
    assert_eq!(TreeBitSet::from_slice(&[1, 2, 3]), s);
}

#[test]
fn removing_last_member_of_a_bucket_drops_it() {
    let mut s = TreeBitSet::<u64>::from_slice(&[5, 700]);
    s.remove(700);
    assert_eq!(TreeBitSet::from_slice(&[5]), s);
    s.remove(5);
    assert_eq!(TreeBitSet::new(), s);
    s.remove(5);
    assert_eq!(TreeBitSet::<u64>::default(), s);
}

#[test]
fn clear_empties_the_set() {
    let mut s = TreeBitSet::<u32>::from_slice(&[1, 99, 12345]);
    s.clear();
    assert_eq!("{}", s.debug_string());
    assert!(!s.contains(99));
    assert_eq!(TreeBitSet::new(), s);
}
