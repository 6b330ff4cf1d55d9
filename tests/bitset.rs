use tree_bitset::TreeBitSet;

#[test]
fn basic_u64() {
    let mut bits: TreeBitSet = TreeBitSet::new();

    assert_eq!("{}", bits.debug_string());

    bits.insert(42);
    assert_eq!("{42}", bits.debug_string());

    bits.insert(43);
    assert_eq!("{42, 43}", bits.debug_string());

    bits.insert(6666);
    assert_eq!("{42, 43, 6666}", bits.debug_string());

    bits.insert(887);
    assert_eq!("{42, 43, 887, 6666}", bits.debug_string());

    println!("{:#?}", bits);

    bits.remove(887);
    assert_eq!("{42, 43, 6666}", bits.debug_string());

    let cloned = bits.clone();
    assert_eq!(cloned, bits);

    assert!(!bits.contains(0));
    assert!(!bits.contains(1));
    assert!(bits.contains(42));
    assert!(bits.contains(6666));
    assert!(!bits.contains(6667));
}

#[test]
fn basic_u32() {
    let mut bits: TreeBitSet<u32> = TreeBitSet::new();

    assert_eq!("{}", bits.debug_string());

    bits.insert(42);
    assert_eq!("{42}", bits.debug_string());

    bits.insert(43);
    assert_eq!("{42, 43}", bits.debug_string());

    bits.insert(6666);
    assert_eq!("{42, 43, 6666}", bits.debug_string());

    bits.insert(887);
    assert_eq!("{42, 43, 887, 6666}", bits.debug_string());

    println!("{:#?}", bits);

    bits.remove(887);
    assert_eq!("{42, 43, 6666}", bits.debug_string());

    assert!(!bits.contains(0));
    assert!(!bits.contains(1));
    assert!(bits.contains(42));
    assert!(bits.contains(6666));
    assert!(!bits.contains(6667));
}

#[test]
fn union() {
    let a = TreeBitSet::<u64>::from_slice(&[100, 200, 300, 400]);
    let b = TreeBitSet::<u64>::from_slice(&[400, 500, 600]);

    let union: TreeBitSet = a.union(&b).collect();

    assert_eq!(TreeBitSet::from_slice(&[100, 200, 300, 400, 500, 600]), union);

    println!("union: {:#?}", union);
}

#[test]
fn intersection() {
    let a = TreeBitSet::<u64>::from_slice(&[100, 200, 300, 400, 500]);
    let b = TreeBitSet::<u64>::from_slice(&[400, 500, 600, 700]);

    let intersection: TreeBitSet = a.intersection(&b).collect();

    assert_eq!(TreeBitSet::from_slice(&[400, 500]), intersection);
}

#[test]
fn difference() {
    let a = TreeBitSet::<u64>::from_slice(&[100, 200, 300, 400, 500]);
    let b = TreeBitSet::<u64>::from_slice(&[400, 500, 600, 700]);

    let intersection: TreeBitSet = a.difference(&b).collect();

    assert_eq!(TreeBitSet::from_slice(&[100, 200, 300]), intersection);
}
