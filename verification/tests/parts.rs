use phash_rs::bits::{count_ones, pack};
use phash_rs::hex::{decode, encode};
use phash_rs::median::{median_of, sorted};
use phash_rs::text::le;
use phash_rs::union_find::DisjointSets;
use phash_rs::HashError;

#[test]
fn count_ones_counts_set_bits() {
    assert_eq!(count_ones(0), 0);
    assert_eq!(count_ones(1), 1);
    assert_eq!(count_ones(0x80), 1);
    assert_eq!(count_ones(0xff), 8);
    assert_eq!(count_ones(0xa5), 4);
    for b in 0..=255u8 {
        assert_eq!(count_ones(b), b.count_ones());
    }
}

#[test]
fn pack_writes_the_first_bit_highest() {
    assert_eq!(pack(&[true, true, false, false, false, false, false, false, true]), vec![0xc0, 0x80]);
    assert_eq!(pack(&[]), Vec::<u8>::new());
}

#[test]
fn encode_and_decode_are_inverse() {
    assert_eq!(encode(&vec![0x00, 0x9a, 0xff]), "009aff");
    assert_eq!(decode("009aff"), Ok(vec![0x00, 0x9a, 0xff]));
    assert_eq!(decode("009AFF"), Ok(vec![0x00, 0x9a, 0xff]));
    assert_eq!(decode("9"), Err(HashError::OddLength));
    assert_eq!(decode("9x"), Err(HashError::InvalidDigit));
    assert_eq!(encode(&Vec::new()), "");
    assert_eq!(decode(""), Ok(Vec::new()));
}

#[test]
fn sorted_puts_values_in_ascending_order() {
    assert_eq!(sorted(&vec![3, -1, 2, 3, i64::MIN, i64::MAX, 0]), vec![i64::MIN, -1, 0, 2, 3, 3, i64::MAX]);
    assert_eq!(sorted(&Vec::new()), Vec::<i64>::new());
    assert_eq!(sorted(&vec![5]), vec![5]);
}

#[test]
fn median_is_the_element_at_half_the_length() {
    assert_eq!(median_of(&vec![5]), 5);
    assert_eq!(median_of(&vec![9, 1]), 9);
    assert_eq!(median_of(&vec![3, 1, 2]), 2);
    assert_eq!(median_of(&vec![4, 1, 3, 2]), 3);
    assert_eq!(median_of(&vec![7, 7, 7, 1]), 7);
    assert_eq!(median_of(&vec![-5, 10, 0, 3, 3]), 3);
}

#[test]
fn le_orders_texts_by_characters() {
    assert!(le("", ""));
    assert!(le("", "a"));
    assert!(!le("a", ""));
    assert!(le("a", "a"));
    assert!(le("a", "b"));
    assert!(!le("b", "a"));
    assert!(le("a", "ab"));
    assert!(!le("ab", "a"));
    assert!(le("B", "a"));
    assert!(le("a/1", "a/10"));
    assert!(le("a/10", "a/2"));
    assert!(le("z", "\u{e9}"));
    assert!(!le("\u{e9}", "z"));
    assert!(le("\u{e9}", "\u{1f600}"));
    let samples = ["", "a", "ab", "B", "b", "a/1", "\u{e9}", "\u{ffff}", "\u{10000}", "zz"];
    for x in samples {
        for y in samples {
            assert_eq!(le(x, y), x <= y);
        }
    }
}

#[test]
fn disjoint_sets_start_apart_and_merge() {
    let mut sets = DisjointSets::new(6);
    assert_eq!(sets.len(), 6);
    for i in 0..6 {
        assert_eq!(sets.find(i), i);
    }
    sets.union(0, 1);
    sets.union(2, 3);
    assert_eq!(sets.find(0), sets.find(1));
    assert_eq!(sets.find(2), sets.find(3));
    assert_ne!(sets.find(0), sets.find(2));
    sets.union(1, 3);
    let root = sets.find(0);
    for i in 0..4 {
        assert_eq!(sets.find(i), root);
    }
    assert_ne!(sets.find(4), root);
    assert_ne!(sets.find(5), root);
    assert_ne!(sets.find(4), sets.find(5));
    sets.union(4, 4);
    assert_ne!(sets.find(4), sets.find(5));
    sets.union(0, 1);
    assert_eq!(sets.find(1), root);
}

#[test]
fn disjoint_sets_of_nothing() {
    let sets = DisjointSets::new(0);
    assert_eq!(sets.len(), 0);
}
