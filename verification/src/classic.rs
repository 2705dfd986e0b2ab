//! Classic Bloom filter.
//!
//! A space-efficient probabilistic data structure for set membership testing.
//! False positives are possible; false negatives are not.
//!
//! The filter is modelled by [`BloomFilterView`]: a sequence of `num_bits`
//! booleans, the number of hash functions, and the number of insertions.

use vstd::prelude::*;

use crate::hash::{hash_indices, hash_indices_spec, lemma_hash_indices_in_range};

verus! {

/// The mathematical model of a classic Bloom filter.
pub struct BloomFilterView {
    /// One boolean per bit of the filter; its length is the number of bits.
    pub bits: Seq<bool>,
    /// Number of probe indices computed per item.
    pub num_hashes: usize,
    /// Number of insertions performed so far.
    pub count: nat,
}

impl BloomFilterView {
    /// A filter that can be probed: at least 64 bits (a length that fits a
    /// `usize`) and at least one hash function.
    pub open spec fn wf(self) -> bool {
        &&& 64 <= self.bits.len() <= usize::MAX
        &&& self.num_hashes >= 1
    }

    /// The filter with `num_bits` clear bits and no insertions.
    pub open spec fn empty(num_bits: nat, num_hashes: usize) -> BloomFilterView {
        BloomFilterView { bits: Seq::new(num_bits, |i: int| false), num_hashes, count: 0 }
    }

    /// The empty filter made from explicit parameters: at least 64 bits and
    /// at least one hash function.
    pub open spec fn sized(num_bits: usize, num_hashes: usize) -> BloomFilterView {
        BloomFilterView::empty(
            if num_bits < 64 {
                64nat
            } else {
                num_bits as nat
            },
            if num_hashes < 1 {
                1usize
            } else {
                num_hashes
            },
        )
    }

    /// The probe indices of `item` in this filter.
    pub open spec fn indices(self, item: Seq<u8>) -> Seq<usize> {
        hash_indices_spec(item, self.num_hashes, self.bits.len() as usize)
    }

    /// `item` may be present: every one of its probe bits is set.
    pub open spec fn may_contain(self, item: Seq<u8>) -> bool {
        forall|j: int|
            0 <= j < self.indices(item).len() ==> #[trigger] self.bits[self.indices(item)[j] as int]
    }

    /// The filter after inserting `item`: its probe bits are set, all other
    /// bits are kept, and the insertion is counted.
    pub open spec fn insert(self, item: Seq<u8>) -> BloomFilterView {
        BloomFilterView {
            bits: Seq::new(
                self.bits.len(),
                |i: int| self.bits[i] || self.indices(item).contains(i as usize),
            ),
            num_hashes: self.num_hashes,
            count: self.count + 1,
        }
    }
}

impl BloomFilterView {
    /// The filter after inserting `items`, first to last.
    pub open spec fn insert_all(self, items: Seq<Seq<u8>>) -> BloomFilterView
        decreases items.len(),
    {
        if items.len() == 0 {
            self
        } else {
            self.insert_all(items.drop_last()).insert(items.last())
        }
    }

    /// Some item of `items` has `i` among its probe indices in this filter.
    pub open spec fn probed_by(self, items: Seq<Seq<u8>>, i: int) -> bool {
        exists|t: int| 0 <= t < items.len() && #[trigger] self.indices(items[t]).contains(i as usize)
    }
}

/// Bit `b` (counted from the least significant) of the word `w`.
pub open spec fn word_bit(w: u64, b: int) -> bool {
    (w >> (b as u64)) & 1u64 == 1u64
}

/// Bit `i` of a sequence of 64-bit words (clear past the last word).
pub open spec fn storage_bit(words: Seq<u64>, i: int) -> bool {
    0 <= i < words.len() * 64 && word_bit(words[i / 64], i % 64)
}

proof fn lemma_word_bit_facts()
    ensures
        forall|b: u64| b < 64 ==> #[trigger] ((0u64 >> b) & 1u64) != 1u64,
        forall|w: u64, b: u64, j: u64|
            b < 64 && j < 64 ==> (#[trigger] (((w | (1u64 << b)) >> j) & 1u64) == 1u64) == ((((w
                >> j) & 1u64) == 1u64) || j == b),
        forall|w: u64, b: u64|
            b < 64 ==> ((#[trigger] (w & (1u64 << b)) == 0u64) == (((w >> b) & 1u64) != 1u64)),
{
    assert(forall|b: u64| b < 64 ==> #[trigger] ((0u64 >> b) & 1u64) != 1u64) by (bit_vector);
    assert(forall|w: u64, b: u64, j: u64|
        b < 64 && j < 64 ==> (#[trigger] (((w | (1u64 << b)) >> j) & 1u64) == 1u64) == ((((w >> j)
            & 1u64) == 1u64) || j == b)) by (bit_vector);
    assert(forall|w: u64, b: u64|
        b < 64 ==> ((#[trigger] (w & (1u64 << b)) == 0u64) == (((w >> b) & 1u64) != 1u64)))
        by (bit_vector);
}

/// No false negatives: right after `item` is inserted, the filter reports it.
pub proof fn lemma_insert_then_may_contain(filter: BloomFilterView, item: Seq<u8>)
    requires
        filter.wf(),
    ensures
        filter.insert(item).may_contain(item),
{
    let after = filter.insert(item);
    let idx = filter.indices(item);
    lemma_hash_indices_in_range(item, filter.num_hashes, filter.bits.len() as usize);
    assert(after.indices(item) == idx);
    assert forall|j: int| 0 <= j < after.indices(item).len() implies #[trigger] after.bits[after.indices(
        item,
    )[j] as int] by {
        assert(idx.contains(idx[j]));
    }
}

/// Insertion only sets bits: an item reported before an insertion is still
/// reported after it.
pub proof fn lemma_insert_keeps_members(filter: BloomFilterView, item: Seq<u8>, other: Seq<u8>)
    requires
        filter.wf(),
        filter.may_contain(other),
    ensures
        filter.insert(item).may_contain(other),
{
    let after = filter.insert(item);
    let idx = filter.indices(other);
    lemma_hash_indices_in_range(other, filter.num_hashes, filter.bits.len() as usize);
    assert(after.indices(other) == idx);
    assert forall|j: int| 0 <= j < idx.len() implies #[trigger] after.bits[idx[j] as int] by {
        assert(filter.bits[idx[j] as int]);
    }
}

/// A filter with no bits set reports no item.
pub proof fn lemma_empty_reports_nothing(num_bits: nat, num_hashes: usize, item: Seq<u8>)
    requires
        BloomFilterView::empty(num_bits, num_hashes).wf(),
    ensures
        !BloomFilterView::empty(num_bits, num_hashes).may_contain(item),
{
    let filter = BloomFilterView::empty(num_bits, num_hashes);
    let idx = filter.indices(item);
    lemma_hash_indices_in_range(item, num_hashes, num_bits as usize);
    assert(!filter.bits[idx[0] as int]);
}

/// Inserting the same item twice sets the same bits as inserting it once.
pub proof fn lemma_insert_idempotent(filter: BloomFilterView, item: Seq<u8>)
    ensures
        filter.insert(item).insert(item).bits == filter.insert(item).bits,
        filter.insert(item).insert(item).count == filter.insert(item).count + 1,
{
    let once = filter.insert(item);
    assert(once.indices(item) == filter.indices(item));
    assert(once.insert(item).bits =~= once.bits);
}

/// The bits of a filter do not depend on the order in which items were inserted.
pub proof fn lemma_insert_commutes(filter: BloomFilterView, first: Seq<u8>, second: Seq<u8>)
    ensures
        filter.insert(first).insert(second) == filter.insert(second).insert(first),
{
    let a = filter.insert(first).insert(second);
    let b = filter.insert(second).insert(first);
    assert(filter.insert(first).indices(second) == filter.indices(second));
    assert(filter.insert(second).indices(first) == filter.indices(first));
    assert(a.bits =~= b.bits);
}

/// After a sequence of insertions, a bit is set exactly when it was set
/// before or some inserted item probes it; every insertion is counted.
pub proof fn lemma_insert_all_closed_form(filter: BloomFilterView, items: Seq<Seq<u8>>)
    ensures
        filter.insert_all(items).bits.len() == filter.bits.len(),
        filter.insert_all(items).num_hashes == filter.num_hashes,
        filter.insert_all(items).count == filter.count + items.len(),
        forall|i: int|
            0 <= i < filter.bits.len() ==> #[trigger] filter.insert_all(items).bits[i] == (
            filter.bits[i] || filter.probed_by(items, i)),
    decreases items.len(),
{
    if items.len() > 0 {
        let prev = items.drop_last();
        let last = items.last();
        lemma_insert_all_closed_form(filter, prev);
        let mid = filter.insert_all(prev);
        assert(mid.indices(last) == filter.indices(last));
        assert forall|i: int| 0 <= i < filter.bits.len() implies #[trigger] filter.insert_all(
            items,
        ).bits[i] == (filter.bits[i] || filter.probed_by(items, i)) by {
            if filter.probed_by(prev, i) {
                let t = choose|t: int|
                    0 <= t < prev.len() && #[trigger] filter.indices(prev[t]).contains(i as usize);
                assert(items[t] == prev[t]);
            }
            if filter.indices(last).contains(i as usize) {
                assert(items[items.len() - 1] == last);
            }
            if filter.probed_by(items, i) {
                let t = choose|t: int|
                    0 <= t < items.len() && #[trigger] filter.indices(items[t]).contains(i as usize);
                if t < prev.len() {
                    assert(prev[t] == items[t]);
                }
            }
        }
    }
}

/// Membership after a sequence of insertions: an item is reported exactly
/// when each of its probe bits was set before or is probed by some inserted item.
pub proof fn lemma_membership_closed_form(
    filter: BloomFilterView,
    items: Seq<Seq<u8>>,
    item: Seq<u8>,
)
    requires
        filter.wf(),
    ensures
        filter.insert_all(items).may_contain(item) == (forall|j: int|
            0 <= j < filter.indices(item).len() ==> #[trigger] filter.bits[filter.indices(
                item,
            )[j] as int] || filter.probed_by(items, filter.indices(item)[j] as int)),
{
    let after = filter.insert_all(items);
    let idx = filter.indices(item);
    lemma_insert_all_closed_form(filter, items);
    lemma_hash_indices_in_range(item, filter.num_hashes, filter.bits.len() as usize);
    assert(after.indices(item) == idx);
    if after.may_contain(item) {
        assert forall|j: int| 0 <= j < idx.len() implies #[trigger] filter.bits[idx[j] as int]
            || filter.probed_by(items, idx[j] as int) by {
            assert(after.bits[idx[j] as int]);
        }
    }
    if forall|j: int|
        0 <= j < idx.len() ==> #[trigger] filter.bits[idx[j] as int] || filter.probed_by(
            items,
            idx[j] as int,
        ) {
        assert forall|j: int| 0 <= j < idx.len() implies #[trigger] after.bits[idx[j] as int] by {
            assert(filter.bits[idx[j] as int] || filter.probed_by(items, idx[j] as int));
        }
    }
}

/// Membership in a filter made empty and then given a sequence of items: an
/// item is reported exactly when each of its probe indices is a probe index
/// of some inserted item.
pub proof fn lemma_membership_from_empty(
    num_bits: nat,
    num_hashes: usize,
    items: Seq<Seq<u8>>,
    item: Seq<u8>,
)
    requires
        BloomFilterView::empty(num_bits, num_hashes).wf(),
    ensures
        ({
            let filter = BloomFilterView::empty(num_bits, num_hashes);
            filter.insert_all(items).may_contain(item) == (forall|j: int|
                0 <= j < filter.indices(item).len() ==> #[trigger] filter.probed_by(
                    items,
                    filter.indices(item)[j] as int,
                ))
        }),
{
    let filter = BloomFilterView::empty(num_bits, num_hashes);
    let idx = filter.indices(item);
    lemma_membership_closed_form(filter, items, item);
    lemma_hash_indices_in_range(item, num_hashes, num_bits as usize);
    assert forall|j: int| 0 <= j < idx.len() implies (filter.bits[idx[j] as int] || filter.probed_by(
        items,
        idx[j] as int,
    )) == #[trigger] filter.probed_by(items, idx[j] as int) by {
        assert(!filter.bits[idx[j] as int]);
    }
}

/// No false negatives over any sequence of insertions: every inserted item
/// is reported afterwards, however many items followed it.
pub proof fn lemma_no_false_negatives(filter: BloomFilterView, items: Seq<Seq<u8>>, t: int)
    requires
        filter.wf(),
        0 <= t < items.len(),
    ensures
        filter.insert_all(items).may_contain(items[t]),
{
    let idx = filter.indices(items[t]);
    lemma_membership_closed_form(filter, items, items[t]);
    assert forall|j: int| 0 <= j < idx.len() implies #[trigger] filter.bits[idx[j] as int]
        || filter.probed_by(items, idx[j] as int) by {
        assert(idx.contains(idx[j]));
        assert(filter.indices(items[t]).contains(idx[j] as int as usize));
    }
}

/// Classic Bloom filter.
pub struct BloomFilter {
    bits: Vec<u64>,
    num_bits: usize,
    num_hashes: usize,
    count: usize,
}

impl BloomFilter {
    #[verifier::type_invariant]
    spec fn inv(self) -> bool {
        &&& self.num_bits >= 64
        &&& self.num_hashes >= 1
        &&& (self.bits@.len() == 0 || self.bits@.len() * 64 >= self.num_bits)
    }

    /// Bit `i` of the packed storage (clear outside the storage).
    spec fn bit(&self, i: int) -> bool {
        storage_bit(self.bits@, i)
    }

    /// The filter has storage for its bits. Only a filter made with
    /// `with_params(0, _)` has none, and every probe of such a filter panics.
    pub closed spec fn has_storage(&self) -> bool {
        self.bits@.len() > 0
    }
}

impl View for BloomFilter {
    type V = BloomFilterView;

    closed spec fn view(&self) -> BloomFilterView {
        BloomFilterView {
            bits: Seq::new(self.num_bits as nat, |i: int| self.bit(i)),
            num_hashes: self.num_hashes,
            count: self.count as nat,
        }
    }
}

impl BloomFilter {
    /// Create with explicit `num_bits` and `num_hashes`.
    ///
    /// The storage holds `ceil(num_bits / 64)` words; the filter reports at
    /// least 64 bits and at least one hash function.
    pub fn with_params(num_bits: usize, num_hashes: usize) -> (filter: Self)
        ensures
            filter@ == BloomFilterView::sized(num_bits, num_hashes),
            filter@.wf(),
            filter.has_storage() == (num_bits > 0),
    {
        let num_words: usize = num_bits / 64 + if num_bits % 64 == 0 { 0 } else { 1 };
        let mut bits: Vec<u64> = Vec::new();
        let mut i: usize = 0;
        while i < num_words
            invariant
                i <= num_words,
                bits@.len() == i,
                forall|j: int| 0 <= j < i ==> bits@[j] == 0u64,
            decreases num_words - i,
        {
            bits.push(0u64);
            i += 1;
        }
        let stored_bits: usize = if num_bits < 64 { 64 } else { num_bits };
        let stored_hashes: usize = if num_hashes < 1 { 1 } else { num_hashes };
        let filter = BloomFilter { bits, num_bits: stored_bits, num_hashes: stored_hashes, count: 0 };
        proof {
            lemma_word_bit_facts();
            assert forall|j: int| 0 <= j < stored_bits implies !#[trigger] filter.bit(j) by {
                if 0 <= j < filter.bits@.len() * 64 {
                    assert(filter.bits@[j / 64] == 0u64);
                    assert(((0u64 >> ((j % 64) as u64)) & 1u64) != 1u64);
                }
            }
            assert(filter@.bits =~= Seq::new(stored_bits as nat, |i: int| false));
        }
        filter
    }

    /// Insert an item.
    pub fn insert(&mut self, item: &[u8])
        requires
            old(self).has_storage(),
            old(self)@.count < usize::MAX,
        ensures
            final(self)@ == old(self)@.insert(item@),
            final(self)@.wf(),
            final(self).has_storage(),
    {
        proof {
            use_type_invariant(&*self);
        }
        let indices = hash_indices(item, self.num_hashes, self.num_bits);
        let ghost old_filter = *self;
        let mut bits: Vec<u64> = Vec::new();
        std::mem::swap(&mut bits, &mut self.bits);
        let num_bits: usize = self.num_bits;
        let mut j: usize = 0;
        while j < indices.len()
            invariant
                0 <= j <= indices@.len(),
                indices@ == old_filter@.indices(item@),
                indices@.len() == old_filter.num_hashes,
                forall|t: int| 0 <= t < indices@.len() ==> #[trigger] indices@[t] < num_bits,
                num_bits == old_filter.num_bits,
                bits@.len() == old_filter.bits@.len(),
                bits@.len() > 0,
                bits@.len() * 64 >= num_bits,
                forall|i: int|
                    0 <= i < num_bits ==> #[trigger] storage_bit(bits@, i) == (old_filter.bit(i)
                        || indices@.take(j as int).contains(i as usize)),
            decreases indices@.len() - j,
        {
            let idx: usize = indices[j];
            let word: usize = idx / 64;
            let b: usize = idx % 64;
            let ghost before = bits@;
            proof {
                lemma_word_bit_facts();
            }
            let w: u64 = bits[word];
            bits.set(word, w | (1u64 << (b as u64)));
            proof {
                assert forall|i: int| 0 <= i < num_bits implies #[trigger] storage_bit(bits@, i) == (
                old_filter.bit(i) || indices@.take(j + 1).contains(i as usize)) by {
                    let prev = indices@.take(j as int);
                    assert(indices@.take(j + 1) =~= prev.push(idx));
                    assert(prev.push(idx).contains(i as usize) == (prev.contains(i as usize) || i
                        == idx as int)) by {
                        if prev.contains(i as usize) {
                            let t = choose|t: int| 0 <= t < prev.len() && prev[t] == i as usize;
                            assert(prev.push(idx)[t] == i as usize);
                        }
                        if i == idx as int {
                            assert(prev.push(idx)[prev.len() as int] == i as usize);
                        }
                        if prev.push(idx).contains(i as usize) {
                            let t = choose|t: int|
                                0 <= t < prev.push(idx).len() && prev.push(idx)[t] == i as usize;
                            if t < prev.len() {
                                assert(prev[t] == i as usize);
                            }
                        }
                    }
                    if i / 64 == word as int {
                        let ib: u64 = (i % 64) as u64;
                        assert(((((w | (1u64 << (b as u64))) >> ib) & 1u64) == 1u64) == ((((w >> ib)
                            & 1u64) == 1u64) || ib == b as u64));
                        assert(bits@[i / 64] == w | (1u64 << (b as u64)));
                        assert(before[i / 64] == w);
                        assert(storage_bit(bits@, i) == ((((w | (1u64 << (b as u64))) >> ib) & 1u64)
                            == 1u64));
                        assert(storage_bit(before, i) == (((w >> ib) & 1u64) == 1u64));
                        assert((ib == b as u64) == (i == idx as int));
                    } else {
                        assert(bits@[i / 64] == before[i / 64]);
                        assert(i != idx as int);
                        assert(storage_bit(bits@, i) == storage_bit(before, i));
                    }
                }
            }
            j += 1;
        }
        self.bits = bits;
        self.count = self.count + 1;
        proof {
            assert(indices@.take(indices@.len() as int) =~= indices@);
            assert(self@.bits =~= old_filter@.insert(item@).bits);
        }
    }

    /// Check if an item is possibly in the set.
    ///
    /// Returns `true` if the item might be present (may be a false positive).
    /// Returns `false` if the item is definitely not present.
    pub fn contains(&self, item: &[u8]) -> (present: bool)
        requires
            self.has_storage(),
        ensures
            present == self@.may_contain(item@),
    {
        proof {
            use_type_invariant(self);
        }
        let indices = hash_indices(item, self.num_hashes, self.num_bits);
        let mut j: usize = 0;
        while j < indices.len()
            invariant
                0 <= j <= indices@.len(),
                indices@ == self@.indices(item@),
                forall|t: int| 0 <= t < indices@.len() ==> #[trigger] indices@[t] < self.num_bits,
                self.bits@.len() * 64 >= self.num_bits,
                forall|t: int| 0 <= t < j ==> #[trigger] self@.bits[indices@[t] as int],
            decreases indices@.len() - j,
        {
            let idx: usize = indices[j];
            let word: usize = idx / 64;
            let b: usize = idx % 64;
            proof {
                lemma_word_bit_facts();
            }
            let w: u64 = self.bits[word];
            if w & (1u64 << (b as u64)) == 0 {
                proof {
                    assert(((w >> (b as u64)) & 1u64) != 1u64);
                    assert(!self@.bits[indices@[j as int] as int]);
                }
                return false;
            }
            proof {
                assert(((w >> (b as u64)) & 1u64) == 1u64);
                assert(self@.bits[indices@[j as int] as int]);
            }
            j += 1;
        }
        true
    }

    /// Number of items inserted.
    pub fn count(&self) -> (n: usize)
        ensures
            n == self@.count,
    {
        self.count
    }

    /// Number of bits in the filter.
    pub fn num_bits(&self) -> (n: usize)
        ensures
            n == self@.bits.len(),
    {
        self.num_bits
    }

    /// Number of hash functions.
    pub fn num_hashes(&self) -> (n: usize)
        ensures
            n == self@.num_hashes,
    {
        self.num_hashes
    }
}

} // verus!
