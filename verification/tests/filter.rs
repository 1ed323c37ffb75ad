use gxhash::GxHasher;
use hypertrie::bloom_filter::{BloomFilter, SEED};
use hypertrie::error::TrieError;
use std::hash::Hasher;

fn filter(size: usize, num_hashes: usize) -> BloomFilter {
    match BloomFilter::new(size, num_hashes) {
        Ok(f) => f,
        Err(e) => panic!("construction refused: {:?}", e),
    }
}

fn reference_hash(item: &str, salt: u8) -> u64 {
    let mut hasher = GxHasher::with_seed(SEED);
    hasher.write(item.as_bytes());
    hasher.write(&[salt]);
    hasher.finish()
}

#[test]
fn zero_parameter_is_refused() {
    assert!(matches!(BloomFilter::new(0, 3), Err(TrieError::InvalidConfiguration)));
    assert!(matches!(BloomFilter::new(3, 0), Err(TrieError::InvalidConfiguration)));
    assert!(matches!(BloomFilter::new(0, 0), Err(TrieError::InvalidConfiguration)));
    assert!(BloomFilter::new(1, 1).is_ok());
}

#[test]
fn seed_is_the_fixed_one() {
    assert_eq!(SEED, 1846279233212321312);
}

#[test]
fn new_filter_has_all_bits_clear() {
    let f = filter(8, 3);
    for h in 0u64..32 {
        assert!(!f.contains_hashes(&vec![h]));
    }
    assert!(f.contains_hashes(&vec![]));
}

#[test]
fn hashes_are_reduced_modulo_the_size() {
    let mut f = filter(8, 3);
    f.insert_hashes(&vec![9, 20]);
    // 9 % 8 == 1 and 20 % 8 == 4
    for bit in 0u64..8 {
        assert_eq!(f.contains_hashes(&vec![bit]), bit == 1 || bit == 4);
    }
    assert!(f.contains_hashes(&vec![1, 4]));
    assert!(f.contains_hashes(&vec![17, 12, 9]));
    assert!(!f.contains_hashes(&vec![1, 4, 5]));
    assert!(!f.contains_hashes(&vec![5, 1, 4]));
}

#[test]
fn largest_hash_is_reduced() {
    let mut f = filter(10, 1);
    f.insert_hashes(&vec![u64::MAX]);
    // u64::MAX % 10 == 5
    for bit in 0u64..10 {
        assert_eq!(f.contains_hashes(&vec![bit]), bit == 5);
    }
}

#[test]
fn marking_keeps_earlier_bits() {
    let mut f = filter(16, 2);
    f.insert_hashes(&vec![3]);
    f.insert_hashes(&vec![5]);
    f.insert_hashes(&vec![3]);
    for bit in 0u64..16 {
        assert_eq!(f.contains_hashes(&vec![bit]), bit == 3 || bit == 5);
    }
}

#[test]
fn hash_item_salts_each_hash() {
    let f = filter(64, 5);
    let hashes = f.hash_item("hello");
    assert_eq!(hashes.len(), 5);
    for (i, h) in hashes.iter().enumerate() {
        assert_eq!(*h, reference_hash("hello", i as u8));
    }
    assert_ne!(hashes[0], hashes[1]);
}

#[test]
fn hash_item_hashes_the_utf8_bytes() {
    let f = filter(64, 2);
    let hashes = f.hash_item("h\u{e9}llo \u{2122}");
    assert_eq!(hashes, vec![
        reference_hash("h\u{e9}llo \u{2122}", 0),
        reference_hash("h\u{e9}llo \u{2122}", 1),
    ]);
    assert_ne!(f.hash_item("a"), f.hash_item("b"));
    assert_ne!(f.hash_item("ab"), f.hash_item("ba"));
    assert_eq!(f.hash_item("same"), f.hash_item("same"));
}

#[test]
fn hash_item_salt_wraps_after_a_byte() {
    let f = filter(64, 258);
    let hashes = f.hash_item("x");
    assert_eq!(hashes.len(), 258);
    assert_eq!(hashes[255], reference_hash("x", 255));
    assert_eq!(hashes[256], hashes[0]);
    assert_eq!(hashes[257], hashes[1]);
}

#[test]
fn inserted_item_is_never_reported_absent() {
    let mut f = filter(32, 3);
    let items = ["alpha", "beta", "gamma", "", "delta epsilon"];
    for item in items {
        f.insert(item);
        assert!(f.contains(item));
    }
    for item in items {
        assert!(f.contains(item));
    }
}

#[test]
fn insert_sets_the_bits_of_the_item_hashes() {
    let mut f = filter(1024, 4);
    f.insert("hello");
    for salt in 0u8..4 {
        assert!(f.contains_hashes(&vec![reference_hash("hello", salt) % 1024]));
    }
    let set: usize = (0u64..1024).filter(|b| f.contains_hashes(&vec![*b])).count();
    assert!(set >= 1 && set <= 4);
}

#[test]
fn empty_filter_reports_absent() {
    let f = filter(1024, 4);
    assert!(!f.contains("hello"));
    assert!(!f.contains(""));
}
