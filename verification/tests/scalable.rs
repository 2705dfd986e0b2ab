use bloom_filter_rs::scalable::ScalableBloomFilter;

fn optimal_m(n: usize, p: f64) -> usize {
    let m = -(n as f64) * p.ln() / (std::f64::consts::LN_2.powi(2));
    m.ceil() as usize
}

fn optimal_k(m: usize, n: usize) -> usize {
    let k = (m as f64 / n as f64) * std::f64::consts::LN_2;
    k.round().max(1.0) as usize
}

/// Bit and hash counts of a classic partition sized for `items` at `fp_rate`.
fn sizing(items: usize, fp_rate: f64) -> (usize, usize) {
    let num_bits = optimal_m(items, fp_rate).max(64);
    (num_bits, optimal_k(num_bits, items))
}

/// A scalable filter together with its target false-positive rate.
struct Sized {
    filter: ScalableBloomFilter,
    target_fpr: f64,
}

impl Sized {
    fn new(initial_items: usize, fp_rate: f64, growth_factor: usize) -> Sized {
        let (num_bits, num_hashes) = sizing(initial_items, fp_rate);
        Sized {
            filter: ScalableBloomFilter::with_params(initial_items, growth_factor, num_bits, num_hashes),
            target_fpr: fp_rate,
        }
    }

    fn insert(&mut self, item: &[u8]) {
        let next = match self.filter.next_partition_items() {
            Ok(Some(items)) => Some(sizing(items, self.target_fpr / 2.0)),
            Ok(None) => None,
            Err(_) => panic!("attempt to multiply with overflow"),
        };
        self.filter.insert(item, next);
    }

    fn contains(&self, item: &[u8]) -> bool {
        self.filter.contains(item)
    }

    fn count(&self) -> usize {
        self.filter.count()
    }

    fn num_partitions(&self) -> usize {
        self.filter.num_partitions()
    }
}

#[test]
fn basic_insert_contains() {
    let mut bf = Sized::new(100, 0.01, 2);
    bf.insert(b"hello");
    assert!(bf.contains(b"hello"));
    assert!(!bf.contains(b"world"));
}

#[test]
fn scales_with_many_inserts() {
    let mut bf = Sized::new(50, 0.01, 2);
    for i in 0..500 {
        bf.insert(format!("item_{}", i).as_bytes());
    }
    assert!(bf.num_partitions() > 1, "should have scaled");
    for i in 0..500 {
        assert!(bf.contains(format!("item_{}", i).as_bytes()), "false negative for {i}");
    }
}

#[test]
fn scalable_count_tracking() {
    let mut bf = Sized::new(100, 0.01, 2);
    assert_eq!(bf.count(), 0);
    for i in 0..10 {
        bf.insert(format!("x{}", i).as_bytes());
    }
    assert_eq!(bf.count(), 10);
}

#[test]
fn false_positive_rate_stays_bounded() {
    let mut bf = Sized::new(100, 0.01, 2);
    for i in 0..500 {
        bf.insert(format!("item_{}", i).as_bytes());
    }
    let test_count = 10_000;
    let mut fp = 0;
    for i in 500..(500 + test_count) {
        if bf.contains(format!("item_{}", i).as_bytes()) {
            fp += 1;
        }
    }
    let actual_fpr = fp as f64 / test_count as f64;
    assert!(actual_fpr < 0.1, "actual_fpr={actual_fpr}");
}

#[test]
fn single_partition_for_few_items() {
    let mut bf = Sized::new(1000, 0.01, 2);
    for i in 0..50 {
        bf.insert(format!("x{}", i).as_bytes());
    }
    assert_eq!(bf.num_partitions(), 1);
}

#[test]
fn partition_growth() {
    let mut bf = Sized::new(10, 0.01, 2);
    for i in 0..100 {
        bf.insert(format!("x{}", i).as_bytes());
    }
    assert!(bf.num_partitions() >= 3);
}

#[test]
fn empty_contains_nothing() {
    let bf = Sized::new(100, 0.01, 2);
    assert!(!bf.contains(b"anything"));
    assert_eq!(bf.count(), 0);
}

#[test]
fn growth_happens_exactly_when_partition_is_full() {
    // Partitions hold 2, 6, 18, ... items.
    let mut bf = ScalableBloomFilter::with_params(2, 3, 128, 2);
    assert!(matches!(bf.next_partition_items(), Ok(None)));
    bf.insert(b"a", None);
    assert!(matches!(bf.next_partition_items(), Ok(None)));
    bf.insert(b"b", None);
    assert_eq!(bf.num_partitions(), 1);
    assert!(matches!(bf.next_partition_items(), Ok(Some(6))));
    bf.insert(b"c", Some((256, 3)));
    assert_eq!(bf.num_partitions(), 2);
    assert!(matches!(bf.next_partition_items(), Ok(None)));
    for item in [b"d", b"e", b"f", b"g", b"h"] {
        bf.insert(item, None);
    }
    assert_eq!(bf.num_partitions(), 2);
    assert!(matches!(bf.next_partition_items(), Ok(Some(18))));
    assert_eq!(bf.count(), 8);
    for item in [b"a", b"b", b"c", b"d", b"e", b"f", b"g", b"h"] {
        assert!(bf.contains(item));
    }
}

#[test]
fn zero_capacity_grows_on_every_insert() {
    let mut bf = ScalableBloomFilter::with_params(0, 2, 64, 1);
    assert!(matches!(bf.next_partition_items(), Ok(Some(0))));
    bf.insert(b"one", Some((64, 1)));
    bf.insert(b"two", Some((64, 1)));
    assert_eq!(bf.num_partitions(), 3);
    assert!(bf.contains(b"one"));
    assert!(bf.contains(b"two"));
}

#[test]
fn growth_overflow_is_reported() {
    let mut bf = ScalableBloomFilter::with_params(2, usize::MAX, 64, 1);
    bf.insert(b"a", None);
    bf.insert(b"b", None);
    assert!(bf.next_partition_items().is_err());
}

#[test]
fn unused_sizing_is_ignored() {
    let mut bf = ScalableBloomFilter::with_params(10, 2, 64, 1);
    bf.insert(b"a", Some((4096, 7)));
    assert_eq!(bf.num_partitions(), 1);
    assert!(bf.contains(b"a"));
}

#[test]
fn partition_count_follows_capacity() {
    // First partition holds 10 items, then 20, 40, 80: together 10, 30, 70, 150.
    let mut bf = Sized::new(10, 0.01, 2);
    for i in 0..70 {
        bf.insert(format!("c{}", i).as_bytes());
    }
    assert_eq!(bf.num_partitions(), 3);
    bf.insert(b"one more");
    assert_eq!(bf.num_partitions(), 4);
    for i in 71..100 {
        bf.insert(format!("c{}", i).as_bytes());
    }
    assert_eq!(bf.num_partitions(), 4);
    assert_eq!(bf.count(), 100);
}
