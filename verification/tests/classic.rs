use bloom_filter_rs::classic::BloomFilter;

fn optimal_m(n: usize, p: f64) -> usize {
    let m = -(n as f64) * p.ln() / (std::f64::consts::LN_2.powi(2));
    m.ceil() as usize
}

fn optimal_k(m: usize, n: usize) -> usize {
    let k = (m as f64 / n as f64) * std::f64::consts::LN_2;
    k.round().max(1.0) as usize
}

/// A filter sized for `expected_items` at false-positive rate `fp_rate`.
fn sized(expected_items: usize, fp_rate: f64) -> BloomFilter {
    let num_bits = optimal_m(expected_items, fp_rate).max(64);
    let num_hashes = optimal_k(num_bits, expected_items);
    BloomFilter::with_params(num_bits, num_hashes)
}

#[test]
fn classic_insert_and_contains() {
    let mut bf = sized(100, 0.01);
    bf.insert(b"hello");
    assert!(bf.contains(b"hello"));
    assert!(!bf.contains(b"world"));
}

#[test]
fn classic_no_false_negatives() {
    let mut bf = sized(100, 0.01);
    let items: Vec<&[u8]> = vec![b"alpha", b"beta", b"gamma", b"delta", b"epsilon"];
    for &item in &items {
        bf.insert(item);
    }
    for &item in &items {
        assert!(bf.contains(item), "false negative for {:?}", std::str::from_utf8(item).unwrap());
    }
}

#[test]
fn classic_count_tracking() {
    let mut bf = sized(100, 0.01);
    assert_eq!(bf.count(), 0);
    bf.insert(b"a");
    assert_eq!(bf.count(), 1);
    bf.insert(b"b");
    assert_eq!(bf.count(), 2);
}

#[test]
fn false_positive_rate_matches_theory() {
    let n = 10_000;
    let target_fpr = 0.01;
    let mut bf = sized(n, target_fpr);
    for i in 0..n {
        let bytes = format!("item_{}", i);
        bf.insert(bytes.as_bytes());
    }
    let test_count = 100_000;
    let mut fp_count = 0;
    for i in n..(n + test_count) {
        let bytes = format!("item_{}", i);
        if bf.contains(bytes.as_bytes()) {
            fp_count += 1;
        }
    }
    let actual_fpr = fp_count as f64 / test_count as f64;
    assert!(actual_fpr < target_fpr * 5.0, "actual_fpr={actual_fpr}, target={target_fpr}");
}

#[test]
fn empty_filter_no_false_positives() {
    let bf = sized(100, 0.01);
    assert!(!bf.contains(b"anything"));
    assert!(!bf.contains(b"something"));
}

#[test]
fn duplicate_insert_is_idempotent() {
    let mut bf = sized(100, 0.01);
    bf.insert(b"hello");
    bf.insert(b"hello");
    assert!(bf.contains(b"hello"));
    assert_eq!(bf.count(), 2);
}

#[test]
fn with_params() {
    let bf = BloomFilter::with_params(1024, 5);
    assert_eq!(bf.num_bits(), 1024);
    assert_eq!(bf.num_hashes(), 5);
}

#[test]
fn large_filter() {
    let mut bf = sized(1_000_000, 0.001);
    for i in 0..1000 {
        bf.insert(format!("big_{}", i).as_bytes());
    }
    assert!(bf.contains(b"big_0"));
    assert!(bf.contains(b"big_999"));
    assert!(!bf.contains(b"big_1000"));
}

#[test]
fn string_items() {
    let mut bf = sized(100, 0.01);
    bf.insert("hello world".as_bytes());
    assert!(bf.contains("hello world".as_bytes()));
    assert!(!bf.contains("goodbye world".as_bytes()));
}

#[test]
fn num_bits_and_hashes() {
    let bf = sized(1000, 0.01);
    assert!(bf.num_bits() > 0);
    assert!(bf.num_hashes() > 0);
}

#[test]
fn with_params_clamps_small_values() {
    let bf = BloomFilter::with_params(10, 0);
    assert_eq!(bf.num_bits(), 64);
    assert_eq!(bf.num_hashes(), 1);
    assert_eq!(bf.count(), 0);
    let bf = BloomFilter::with_params(0, 3);
    assert_eq!(bf.num_bits(), 64);
    assert_eq!(bf.num_hashes(), 3);
}

#[test]
fn with_params_non_multiple_of_word() {
    let mut bf = BloomFilter::with_params(100, 4);
    assert_eq!(bf.num_bits(), 100);
    for i in 0..50 {
        bf.insert(format!("w{}", i).as_bytes());
    }
    for i in 0..50 {
        assert!(bf.contains(format!("w{}", i).as_bytes()));
    }
}

#[test]
fn inserted_items_stay_reported() {
    let mut bf = BloomFilter::with_params(64, 2);
    bf.insert(b"first");
    for i in 0..40 {
        bf.insert(format!("more{}", i).as_bytes());
        assert!(bf.contains(b"first"));
    }
}

#[test]
fn fresh_filter_reports_nothing() {
    let bf = BloomFilter::with_params(64, 1);
    for i in 0..100 {
        assert!(!bf.contains(format!("q{}", i).as_bytes()));
    }
}

#[test]
fn insertion_order_does_not_matter() {
    let mut a = BloomFilter::with_params(128, 3);
    let mut b = BloomFilter::with_params(128, 3);
    a.insert(b"x");
    a.insert(b"y");
    b.insert(b"y");
    b.insert(b"x");
    for i in 0..200 {
        let probe = format!("p{}", i);
        assert_eq!(a.contains(probe.as_bytes()), b.contains(probe.as_bytes()));
    }
}

#[test]
fn single_probe_bit_decides_membership() {
    // With one hash and 64 bits, "hello" probes bit 11 of 64.
    let mut bf = BloomFilter::with_params(64, 1);
    bf.insert(b"hello");
    assert!(bf.contains(b"hello"));
}

#[test]
fn crate_example() {
    let mut bf = sized(1000, 0.01);
    bf.insert(b"hello");
    bf.insert(b"world");
    assert!(bf.contains(b"hello"));
    assert!(bf.contains(b"world"));
    assert!(!bf.contains(b"missing"));
}
