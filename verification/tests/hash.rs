use bloom_filter_rs::hash::{fnv1a, hash_indices};

#[test]
fn fnv_deterministic() {
    assert_eq!(fnv1a(b"hello"), fnv1a(b"hello"));
}

#[test]
fn fnv_different_inputs() {
    assert_ne!(fnv1a(b"hello"), fnv1a(b"world"));
}

#[test]
fn hash_indices_in_range() {
    let indices = hash_indices(b"test", 5, 1000);
    assert_eq!(indices.len(), 5);
    for &idx in &indices {
        assert!(idx < 1000, "idx={idx}");
    }
}

#[test]
fn hash_indices_deterministic() {
    let a = hash_indices(b"test", 10, 1000);
    let b = hash_indices(b"test", 10, 1000);
    assert_eq!(a, b);
}

#[test]
fn hash_indices_different_for_different_inputs() {
    let a = hash_indices(b"foo", 5, 1000);
    let b = hash_indices(b"bar", 5, 1000);
    assert_ne!(a, b);
}

#[test]
fn fnv_known_values() {
    assert_eq!(fnv1a(b""), 0xcbf29ce484222325);
    assert_eq!(fnv1a(b"a"), 0xaf63dc4c8601ec8c);
    assert_eq!(fnv1a(b"hello"), 0xa430d84680aabd0b);
}

#[test]
fn hash_indices_known_values() {
    assert_eq!(hash_indices(b"test", 5, 1000), vec![77, 331, 201, 71, 941]);
    assert_eq!(hash_indices(b"hello", 3, 64), vec![11, 39, 3]);
    assert_eq!(hash_indices(b"", 4, 10), vec![7, 7, 7, 3]);
}

#[test]
fn hash_indices_zero_hashes_is_empty() {
    assert!(hash_indices(b"anything", 0, 10).is_empty());
}

#[test]
fn hash_indices_single_slot() {
    assert_eq!(hash_indices(b"abc", 3, 1), vec![0, 0, 0]);
}

#[test]
fn hash_indices_no_hashes_no_slots() {
    assert!(hash_indices(b"x", 0, 0).is_empty());
}
