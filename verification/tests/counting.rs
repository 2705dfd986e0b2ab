use bloom_filter_rs::counting::CountingBloomFilter;

fn optimal_m(n: usize, p: f64) -> usize {
    let m = -(n as f64) * p.ln() / (std::f64::consts::LN_2.powi(2));
    m.ceil() as usize
}

fn optimal_k(m: usize, n: usize) -> usize {
    let k = (m as f64 / n as f64) * std::f64::consts::LN_2;
    k.round().max(1.0) as usize
}

/// A counting filter sized for `expected_items` at false-positive rate `fp_rate`.
fn sized(expected_items: usize, fp_rate: f64) -> CountingBloomFilter {
    let num_buckets = optimal_m(expected_items, fp_rate);
    let num_hashes = optimal_k(num_buckets, expected_items);
    CountingBloomFilter::with_params(num_buckets, num_hashes)
}

#[test]
fn counting_insert_and_contains() {
    let mut bf = sized(100, 0.01);
    bf.insert(b"hello");
    assert!(bf.contains(b"hello"));
    assert!(!bf.contains(b"world"));
}

#[test]
fn delete_works() {
    let mut bf = sized(100, 0.01);
    bf.insert(b"hello");
    assert!(bf.contains(b"hello"));
    bf.remove(b"hello");
    assert!(!bf.contains(b"hello"));
}

#[test]
fn delete_one_of_duplicates() {
    let mut bf = sized(100, 0.01);
    bf.insert(b"hello");
    bf.insert(b"hello");
    bf.remove(b"hello");
    assert!(bf.contains(b"hello"));
    bf.remove(b"hello");
    assert!(!bf.contains(b"hello"));
}

#[test]
fn counting_no_false_negatives() {
    let mut bf = sized(100, 0.01);
    bf.insert(b"alpha");
    bf.insert(b"beta");
    bf.insert(b"gamma");
    assert!(bf.contains(b"alpha"));
    assert!(bf.contains(b"beta"));
    assert!(bf.contains(b"gamma"));
}

#[test]
fn count_after_operations() {
    let mut bf = sized(100, 0.01);
    bf.insert(b"a");
    bf.insert(b"b");
    assert_eq!(bf.count(), 2);
    bf.remove(b"a");
    assert_eq!(bf.count(), 1);
    bf.remove(b"b");
    assert_eq!(bf.count(), 0);
}

#[test]
fn false_positive_rate() {
    let n = 5000;
    let target_fpr = 0.05;
    let mut bf = sized(n, target_fpr);
    for i in 0..n {
        bf.insert(format!("item_{}", i).as_bytes());
    }
    let test_count = 50_000;
    let mut fp = 0;
    for i in n..(n + test_count) {
        if bf.contains(format!("item_{}", i).as_bytes()) {
            fp += 1;
        }
    }
    let actual_fpr = fp as f64 / test_count as f64;
    assert!(actual_fpr < target_fpr * 5.0, "actual_fpr={actual_fpr}");
}

#[test]
fn remove_doesnt_affect_others() {
    let mut bf = sized(100, 0.01);
    bf.insert(b"a");
    bf.insert(b"b");
    bf.insert(b"c");
    bf.remove(b"b");
    assert!(bf.contains(b"a"));
    assert!(bf.contains(b"c"));
}

#[test]
fn empty_after_all_removals() {
    let mut bf = sized(100, 0.01);
    bf.insert(b"x");
    bf.insert(b"y");
    bf.remove(b"x");
    bf.remove(b"y");
    assert!(!bf.contains(b"x"));
    assert!(!bf.contains(b"y"));
    assert!(!bf.contains(b"z"));
}

#[test]
fn saturating_counters() {
    let mut bf = sized(10, 0.01);
    for _ in 0..300 {
        bf.insert(b"test");
    }
    assert!(bf.contains(b"test"));
}

#[test]
fn remove_nonexistent_doesnt_panic() {
    let mut bf = sized(100, 0.01);
    bf.remove(b"ghost");
}

#[test]
fn count_saturates_at_zero() {
    let mut bf = CountingBloomFilter::with_params(16, 2);
    bf.remove(b"nothing");
    assert_eq!(bf.count(), 0);
    bf.insert(b"one");
    bf.remove(b"one");
    bf.remove(b"one");
    assert_eq!(bf.count(), 0);
    assert!(!bf.contains(b"one"));
}

#[test]
fn repeated_probe_index_is_counted_twice() {
    // The empty item probes buckets [7, 7, 7, 3] of 10: bucket 7 is raised by three.
    let mut bf = CountingBloomFilter::with_params(10, 4);
    bf.insert(b"");
    assert!(bf.contains(b""));
    bf.remove(b"");
    assert!(!bf.contains(b""));
    assert_eq!(bf.count(), 0);
}

#[test]
fn saturated_counter_survives_removal() {
    // 300 insertions saturate the probed counters at 255; 255 removals clear them.
    let mut bf = CountingBloomFilter::with_params(32, 1);
    for _ in 0..300 {
        bf.insert(b"s");
    }
    for _ in 0..254 {
        bf.remove(b"s");
    }
    assert!(bf.contains(b"s"));
    bf.remove(b"s");
    assert!(!bf.contains(b"s"));
    assert_eq!(bf.count(), 45);
}

#[test]
fn zero_hashes_reports_everything() {
    let bf = CountingBloomFilter::with_params(8, 0);
    assert!(bf.contains(b"anything"));
}

#[test]
fn removal_undoes_insertion_without_saturation() {
    let mut bf = CountingBloomFilter::with_params(64, 3);
    bf.insert(b"keep");
    bf.insert(b"drop");
    bf.remove(b"drop");
    assert!(bf.contains(b"keep"));
    bf.remove(b"keep");
    for i in 0..100 {
        assert!(!bf.contains(format!("k{}", i).as_bytes()));
    }
    assert!(!bf.contains(b"keep"));
    assert!(!bf.contains(b"drop"));
}

#[test]
fn removing_absent_item_keeps_count() {
    let mut bf = CountingBloomFilter::with_params(64, 3);
    bf.insert(b"a");
    assert!(!bf.contains(b"b"));
    bf.remove(b"b");
    assert_eq!(bf.count(), 1);
    assert!(bf.contains(b"a"));
}

#[test]
fn held_items_track_inserts_and_removes() {
    let mut bf = CountingBloomFilter::with_params(256, 3);
    let items: Vec<String> = (0..20).map(|i| format!("held{}", i)).collect();
    for item in &items {
        bf.insert(item.as_bytes());
    }
    for item in items.iter().step_by(2) {
        bf.remove(item.as_bytes());
    }
    assert_eq!(bf.count(), 10);
    for item in items.iter().skip(1).step_by(2) {
        assert!(bf.contains(item.as_bytes()));
    }
}
