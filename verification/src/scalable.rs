//! Scalable Bloom filter.
//!
//! Grows by adding a new classic partition whenever the newest one has taken
//! as many items as it was sized for. Each new partition is sized for
//! `growth_factor` times the items of the previous one. Lookups consult every
//! partition; insertions go to the newest.
//!
//! Sizing a partition for a target false-positive rate is a floating-point
//! computation that happens outside this crate: the filter reports how many
//! items the next partition must hold ([`ScalableBloomFilter::next_partition_items`]),
//! and the caller hands the resulting bit and hash counts to
//! [`ScalableBloomFilter::insert`].

use vstd::arithmetic::power::{lemma_pow0, lemma_pow_increases, lemma_pow_positive, pow};
use vstd::prelude::*;

use crate::classic::{
    lemma_insert_keeps_members,
    lemma_insert_then_may_contain,
    lemma_empty_reports_nothing,
    BloomFilter,
    BloomFilterView,
};

verus! {

/// The mathematical model of a scalable Bloom filter.
pub struct ScalableBloomFilterView {
    /// The partitions, oldest first; insertions go to the last one.
    pub partitions: Seq<BloomFilterView>,
    /// Each new partition holds this many times the items of the previous one.
    pub growth_factor: usize,
    /// The number of items the newest partition is sized for.
    pub items_per_partition: usize,
    /// Total number of items inserted.
    pub count: nat,
}

impl ScalableBloomFilterView {
    /// At least one partition, every partition probe-able.
    pub open spec fn wf(self) -> bool {
        &&& self.partitions.len() > 0
        &&& forall|i: int| 0 <= i < self.partitions.len() ==> #[trigger] self.partitions[i].wf()
    }

    /// A filter with one empty partition of the given size.
    pub open spec fn initial(
        initial_items: usize,
        growth_factor: usize,
        num_bits: usize,
        num_hashes: usize,
    ) -> ScalableBloomFilterView {
        ScalableBloomFilterView {
            partitions: seq![BloomFilterView::sized(num_bits, num_hashes)],
            growth_factor,
            items_per_partition: initial_items,
            count: 0,
        }
    }

    /// The newest partition is full: the next insertion first adds a partition.
    pub open spec fn growth_due(self) -> bool {
        self.partitions.last().count >= self.items_per_partition
    }

    /// The number of items the next partition is sized for.
    pub open spec fn next_items(self) -> int {
        self.items_per_partition * self.growth_factor
    }

    /// `item` may be present: some partition reports it.
    pub open spec fn may_contain(self, item: Seq<u8>) -> bool {
        exists|i: int| 0 <= i < self.partitions.len() && #[trigger] self.partitions[i].may_contain(item)
    }

    /// The partitions after the growth step of an insertion: when growth is
    /// due, an empty partition with the bit and hash counts in `sizing` is appended.
    pub open spec fn grown(self, sizing: Option<(usize, usize)>) -> Seq<BloomFilterView> {
        if self.growth_due() {
            self.partitions.push(BloomFilterView::sized(sizing.unwrap().0, sizing.unwrap().1))
        } else {
            self.partitions
        }
    }

    /// The filter after inserting `item`, where `sizing` gives the bit and
    /// hash counts of the partition added if growth is due.
    pub open spec fn insert(self, item: Seq<u8>, sizing: Option<(usize, usize)>) -> ScalableBloomFilterView {
        let parts = self.grown(sizing);
        let last = parts.len() - 1;
        ScalableBloomFilterView {
            partitions: parts.update(last, parts[last].insert(item)),
            growth_factor: self.growth_factor,
            items_per_partition: if self.growth_due() {
                self.next_items() as usize
            } else {
                self.items_per_partition
            },
            count: self.count + 1,
        }
    }
}

impl ScalableBloomFilterView {
    /// The filter after inserting `items`, first to last, where `sizings[t]`
    /// gives the bit and hash counts of the partition that the insertion of
    /// `items[t]` adds, if it adds one.
    pub open spec fn insert_all(
        self,
        items: Seq<Seq<u8>>,
        sizings: Seq<Option<(usize, usize)>>,
    ) -> ScalableBloomFilterView
        decreases items.len(),
    {
        if items.len() == 0 {
            self
        } else {
            self.insert_all(items.drop_last(), sizings).insert(items.last(), sizings[items.len() - 1])
        }
    }
}

/// The number of items the first `partitions` partitions are sized for,
/// when the first is sized for `first` items and each later one for
/// `growth` times the items of the one before.
pub open spec fn capacity(first: nat, growth: nat, partitions: nat) -> int
    decreases partitions,
{
    if partitions == 0 {
        0
    } else {
        capacity(first, growth, (partitions - 1) as nat) + first * pow(
            growth as int,
            (partitions - 1) as nat,
        )
    }
}

/// Capacity grows with the number of partitions.
pub proof fn lemma_capacity_monotone(first: nat, growth: nat, a: nat, b: nat)
    requires
        growth >= 1,
        a <= b,
    ensures
        capacity(first, growth, a) <= capacity(first, growth, b),
    decreases b,
{
    if a < b {
        lemma_capacity_monotone(first, growth, a, (b - 1) as nat);
        lemma_pow_positive(growth as int, (b - 1) as nat);
        let p = pow(growth as int, (b - 1) as nat);
        assert(first * p >= 0) by (nonlinear_arith)
            requires
                p > 0,
        ;
    }
}

proof fn lemma_pow_next(b: int, e: nat)
    ensures
        pow(b, e + 1) == b * pow(b, e),
{
    reveal(pow);
}

/// The state reached after `items.len()` insertions into a new filter: the
/// newest partition is number `J`, sized for `n0 * g^(J-1)` items, and holds
/// the items beyond the capacity of the partitions before it.
proof fn lemma_growth_invariant(
    n0: usize,
    g: usize,
    num_bits: usize,
    num_hashes: usize,
    items: Seq<Seq<u8>>,
    sizings: Seq<Option<(usize, usize)>>,
)
    requires
        n0 >= 1,
        g >= 1,
        n0 * pow(g as int, items.len()) <= usize::MAX,
    ensures
        ({
            let s = ScalableBloomFilterView::initial(n0, g, num_bits, num_hashes).insert_all(
                items,
                sizings,
            );
            let parts = s.partitions.len();
            let n = items.len() as int;
            &&& s.count == n
            &&& s.growth_factor == g
            &&& 1 <= parts <= n + 1
            &&& s.items_per_partition == n0 * pow(g as int, (parts - 1) as nat)
            &&& s.partitions.last().count + capacity(n0 as nat, g as nat, (parts - 1) as nat) == n
            &&& capacity(n0 as nat, g as nat, (parts - 1) as nat) <= n
            &&& n <= capacity(n0 as nat, g as nat, parts)
            &&& parts > 1 ==> capacity(n0 as nat, g as nat, (parts - 1) as nat) < n
        }),
    decreases items.len(),
{
    let start = ScalableBloomFilterView::initial(n0, g, num_bits, num_hashes);
    if items.len() == 0 {
        lemma_pow0(g as int);
        assert(start.insert_all(items, sizings) == start);
        let one = pow(g as int, 0);
        assert(one == 1);
        assert(n0 * one == n0) by (nonlinear_arith)
            requires
                one == 1,
        ;
        assert(start.partitions.last() == BloomFilterView::sized(num_bits, num_hashes));
        assert(capacity(n0 as nat, g as nat, 0) == 0);
        assert(capacity(n0 as nat, g as nat, 1) == n0 * pow(g as int, 0));
    } else {
        let prev = items.drop_last();
        let n = items.len() as int;
        lemma_pow_increases(g as nat, prev.len(), items.len());
        let pp = pow(g as int, prev.len());
        let pn = pow(g as int, items.len());
        assert(n0 * pp <= n0 * pn) by (nonlinear_arith)
            requires
                pp <= pn,
                n0 >= 1,
        ;
        lemma_growth_invariant(n0, g, num_bits, num_hashes, prev, sizings);
        let mid = start.insert_all(prev, sizings);
        let parts = mid.partitions.len();
        let cap_before = capacity(n0 as nat, g as nat, (parts - 1) as nat);
        let cap_now = capacity(n0 as nat, g as nat, parts);
        let here = pow(g as int, (parts - 1) as nat);
        let next = pow(g as int, parts as nat);
        lemma_pow_next(g as int, (parts - 1) as nat);
        assert(cap_now == cap_before + n0 * here);
        assert(mid.growth_due() == (n - 1 == cap_now));
        let s = mid.insert(items.last(), sizings[items.len() - 1]);
        assert(s == start.insert_all(items, sizings));
        if mid.growth_due() {
            lemma_pow_positive(g as int, parts as nat);
            lemma_pow_increases(g as nat, parts as nat, items.len());
            assert(mid.next_items() == n0 * next && 1 <= n0 * next <= n0 * pn) by (nonlinear_arith)
                requires
                    mid.next_items() == mid.items_per_partition * g,
                    mid.items_per_partition == n0 * here,
                    next == g * here,
                    next >= 1,
                    next <= pn,
                    n0 >= 1,
            ;
            assert(capacity(n0 as nat, g as nat, (parts + 1) as nat) == cap_now + n0 * next);
            assert(s.partitions.last() == BloomFilterView::sized(
                sizings[items.len() - 1].unwrap().0,
                sizings[items.len() - 1].unwrap().1,
            ).insert(items.last()));
        } else {
            assert(s.partitions.last() == mid.partitions.last().insert(items.last()));
        }
    }
}

/// Growth over a sequence of insertions into a new filter whose first
/// partition is sized for `n0 >= 1` items, with growth factor `g >= 1`: after
/// `N` insertions the count is `N`, and the number of partitions is the
/// least `J >= 1` whose partitions are together sized for at least `N` items.
pub proof fn lemma_partitions_after_inserts(
    n0: usize,
    g: usize,
    num_bits: usize,
    num_hashes: usize,
    items: Seq<Seq<u8>>,
    sizings: Seq<Option<(usize, usize)>>,
)
    requires
        n0 >= 1,
        g >= 1,
        n0 * pow(g as int, items.len()) <= usize::MAX,
    ensures
        ({
            let s = ScalableBloomFilterView::initial(n0, g, num_bits, num_hashes).insert_all(
                items,
                sizings,
            );
            &&& s.count == items.len()
            &&& s.partitions.len() >= 1
            &&& capacity(n0 as nat, g as nat, s.partitions.len()) >= items.len()
            &&& forall|j: nat|
                1 <= j < s.partitions.len() ==> #[trigger] capacity(n0 as nat, g as nat, j)
                    < items.len()
        }),
{
    lemma_growth_invariant(n0, g, num_bits, num_hashes, items, sizings);
    let s = ScalableBloomFilterView::initial(n0, g, num_bits, num_hashes).insert_all(items, sizings);
    let parts = s.partitions.len();
    assert forall|j: nat| 1 <= j < parts implies #[trigger] capacity(n0 as nat, g as nat, j)
        < items.len() by {
        lemma_capacity_monotone(n0 as nat, g as nat, j, (parts - 1) as nat);
    }
}

/// Any sequence of insertions keeps the filter well formed.
pub proof fn lemma_insert_all_wf(
    filter: ScalableBloomFilterView,
    items: Seq<Seq<u8>>,
    sizings: Seq<Option<(usize, usize)>>,
)
    requires
        filter.wf(),
    ensures
        filter.insert_all(items, sizings).wf(),
    decreases items.len(),
{
    if items.len() > 0 {
        lemma_insert_all_wf(filter, items.drop_last(), sizings);
        lemma_insert_then_may_contain_scalable(
            filter.insert_all(items.drop_last(), sizings),
            items.last(),
            sizings[items.len() - 1],
        );
    }
}

/// No false negatives over any sequence of insertions: every inserted item
/// is reported afterwards, whichever partition it went into.
pub proof fn lemma_no_false_negatives_scalable(
    filter: ScalableBloomFilterView,
    items: Seq<Seq<u8>>,
    sizings: Seq<Option<(usize, usize)>>,
    t: int,
)
    requires
        filter.wf(),
        0 <= t < items.len(),
    ensures
        filter.insert_all(items, sizings).may_contain(items[t]),
    decreases items.len(),
{
    let prev = items.drop_last();
    let mid = filter.insert_all(prev, sizings);
    let sizing = sizings[items.len() - 1];
    lemma_insert_all_wf(filter, prev, sizings);
    if t == items.len() - 1 {
        lemma_insert_then_may_contain_scalable(mid, items.last(), sizing);
    } else {
        lemma_no_false_negatives_scalable(filter, prev, sizings, t);
        assert(prev[t] == items[t]);
        lemma_insert_keeps_members_scalable(mid, items.last(), items[t], sizing);
    }
}

/// No false negatives: right after `item` is inserted, the filter reports it,
/// whether or not a partition was added.
pub proof fn lemma_insert_then_may_contain_scalable(
    filter: ScalableBloomFilterView,
    item: Seq<u8>,
    sizing: Option<(usize, usize)>,
)
    requires
        filter.wf(),
    ensures
        filter.insert(item, sizing).may_contain(item),
        filter.insert(item, sizing).wf(),
{
    let parts = filter.grown(sizing);
    let last = parts.len() - 1;
    assert(parts[last].wf());
    lemma_insert_then_may_contain(parts[last], item);
    let after = filter.insert(item, sizing);
    assert(after.partitions[last].may_contain(item));
    assert forall|i: int| 0 <= i < after.partitions.len() implies #[trigger] after.partitions[i].wf() by {
        assert(parts[i].wf());
    }
}

/// An item reported before an insertion is still reported after it.
pub proof fn lemma_insert_keeps_members_scalable(
    filter: ScalableBloomFilterView,
    item: Seq<u8>,
    other: Seq<u8>,
    sizing: Option<(usize, usize)>,
)
    requires
        filter.wf(),
        filter.may_contain(other),
    ensures
        filter.insert(item, sizing).may_contain(other),
{
    let parts = filter.grown(sizing);
    let last = parts.len() - 1;
    let after = filter.insert(item, sizing);
    let i = choose|i: int| 0 <= i < filter.partitions.len() && #[trigger] filter.partitions[i].may_contain(other);
    assert(parts[i] == filter.partitions[i]);
    if i == last {
        lemma_insert_keeps_members(parts[last], item, other);
    }
    assert(after.partitions[i].may_contain(other));
}

/// Insertion counts the item and adds a partition exactly when the newest
/// one is full; existing partitions other than the newest are unchanged.
pub proof fn lemma_insert_growth(
    filter: ScalableBloomFilterView,
    item: Seq<u8>,
    sizing: Option<(usize, usize)>,
)
    requires
        filter.wf(),
    ensures
        filter.insert(item, sizing).count == filter.count + 1,
        filter.insert(item, sizing).partitions.len() == filter.partitions.len() + if filter.growth_due() {
            1int
        } else {
            0int
        },
        forall|i: int|
            0 <= i < filter.partitions.len() - 1 ==> #[trigger] filter.insert(item, sizing).partitions[i]
                == filter.partitions[i],
{
}

/// A freshly made filter reports no item.
pub proof fn lemma_initial_reports_nothing(
    initial_items: usize,
    growth_factor: usize,
    num_bits: usize,
    num_hashes: usize,
    item: Seq<u8>,
)
    ensures
        !ScalableBloomFilterView::initial(initial_items, growth_factor, num_bits, num_hashes).may_contain(item),
{
    let filter = ScalableBloomFilterView::initial(initial_items, growth_factor, num_bits, num_hashes);
    let only = BloomFilterView::sized(num_bits, num_hashes);
    lemma_empty_reports_nothing(only.bits.len(), only.num_hashes, item);
    assert forall|i: int| 0 <= i < filter.partitions.len() implies !#[trigger] filter.partitions[i].may_contain(item) by {
        assert(filter.partitions[i] == only);
    }
}

/// The product `items_per_partition * growth_factor` does not fit a `usize`.
pub struct CapacityOverflow;

/// Scalable Bloom filter that grows as needed.
pub struct ScalableBloomFilter {
    filters: Vec<BloomFilter>,
    growth_factor: usize,
    items_per_partition: usize,
    current_count: usize,
}

impl View for ScalableBloomFilter {
    type V = ScalableBloomFilterView;

    closed spec fn view(&self) -> ScalableBloomFilterView {
        ScalableBloomFilterView {
            partitions: self.filters@.map_values(|f: BloomFilter| f@),
            growth_factor: self.growth_factor,
            items_per_partition: self.items_per_partition,
            count: self.current_count as nat,
        }
    }
}

impl ScalableBloomFilter {
    /// Every partition has storage and a well-formed model, and none has
    /// taken more items than the whole filter.
    pub closed spec fn wf(&self) -> bool {
        &&& self.filters@.len() > 0
        &&& forall|i: int|
            0 <= i < self.filters@.len() ==> {
                &&& #[trigger] self.filters@[i].has_storage()
                &&& self.filters@[i]@.wf()
                &&& self.filters@[i]@.count <= self.current_count
            }
    }

    /// Create a scalable Bloom filter whose first partition has `num_bits`
    /// bits and `num_hashes` hash functions and is sized for `initial_items`
    /// items; each later partition holds `growth_factor` times as many.
    pub fn with_params(
        initial_items: usize,
        growth_factor: usize,
        num_bits: usize,
        num_hashes: usize,
    ) -> (filter: Self)
        requires
            num_bits > 0,
        ensures
            filter.wf(),
            filter@ == ScalableBloomFilterView::initial(initial_items, growth_factor, num_bits, num_hashes),
    {
        let first = BloomFilter::with_params(num_bits, num_hashes);
        let mut filters: Vec<BloomFilter> = Vec::new();
        filters.push(first);
        let filter = ScalableBloomFilter {
            filters,
            growth_factor,
            items_per_partition: initial_items,
            current_count: 0,
        };
        proof {
            assert(filter@.partitions =~= seq![BloomFilterView::sized(num_bits, num_hashes)]);
        }
        filter
    }

    /// The number of items the partition added by the next insertion is
    /// sized for, if that insertion adds one.
    ///
    /// Returns `Ok(None)` when the newest partition still has room,
    /// `Ok(Some(n))` when it is full and the next partition holds `n` items,
    /// and `Err` when that `n` does not fit a `usize`.
    pub fn next_partition_items(&self) -> (next: Result<Option<usize>, CapacityOverflow>)
        requires
            self.wf(),
        ensures
            match next {
                Ok(None) => !self@.growth_due(),
                Ok(Some(n)) => self@.growth_due() && n == self@.next_items(),
                Err(_) => self@.growth_due() && self@.next_items() > usize::MAX,
            },
    {
        let last = self.filters.len() - 1;
        if self.filters[last].count() >= self.items_per_partition {
            match self.items_per_partition.checked_mul(self.growth_factor) {
                Some(n) => Ok(Some(n)),
                None => Err(CapacityOverflow),
            }
        } else {
            Ok(None)
        }
    }

    /// Appends an empty partition with the given size, now sized for `items` items.
    fn add_partition(&mut self, num_bits: usize, num_hashes: usize, items: usize)
        requires
            old(self).wf(),
            num_bits > 0,
        ensures
            final(self).wf(),
            final(self)@ == (ScalableBloomFilterView {
                partitions: old(self)@.partitions.push(BloomFilterView::sized(num_bits, num_hashes)),
                items_per_partition: items,
                ..old(self)@
            }),
    {
        let fresh = BloomFilter::with_params(num_bits, num_hashes);
        self.filters.push(fresh);
        self.items_per_partition = items;
        proof {
            assert(self@.partitions =~= old(self)@.partitions.push(
                BloomFilterView::sized(num_bits, num_hashes),
            ));
            assert forall|i: int| 0 <= i < self.filters@.len() implies {
                &&& #[trigger] self.filters@[i].has_storage()
                &&& self.filters@[i]@.wf()
                &&& self.filters@[i]@.count <= self.current_count
            } by {
                if i < old(self).filters@.len() {
                    assert(self.filters@[i] == old(self).filters@[i]);
                }
            }
        }
    }

    /// Inserts `item` into the newest partition and counts it.
    fn insert_into_newest(&mut self, item: &[u8])
        requires
            old(self).wf(),
            old(self)@.count < usize::MAX,
        ensures
            final(self).wf(),
            final(self)@ == (ScalableBloomFilterView {
                partitions: old(self)@.partitions.update(
                    old(self)@.partitions.len() - 1,
                    old(self)@.partitions.last().insert(item@),
                ),
                count: old(self)@.count + 1,
                ..old(self)@
            }),
    {
        let ghost kept = self.filters@.drop_last();
        assert(self.wf());
        assert(self.filters@[self.filters@.len() - 1].has_storage());
        let mut last = self.filters.pop().unwrap();
        last.insert(item);
        self.filters.push(last);
        self.current_count = self.current_count + 1;
        proof {
            assert(self.filters@ =~= kept.push(last));
            assert forall|i: int| 0 <= i < self.filters@.len() implies {
                &&& #[trigger] self.filters@[i].has_storage()
                &&& self.filters@[i]@.wf()
                &&& self.filters@[i]@.count <= self.current_count
            } by {
                assert(old(self).wf());
                if i < kept.len() {
                    assert(self.filters@[i] == old(self).filters@[i]);
                    assert(old(self).filters@[i].has_storage());
                } else {
                    assert(self.filters@[i] == last);
                }
            }
            assert(self.wf());
            assert(self@.partitions =~= old(self)@.partitions.update(
                old(self)@.partitions.len() - 1,
                old(self)@.partitions.last().insert(item@),
            ));
        }
    }

    /// Insert an item.
    ///
    /// When the newest partition is full, a partition is added first: it
    /// has the bit and hash counts given in `new_partition` and is sized for
    /// the items that `next_partition_items` reports. Otherwise
    /// `new_partition` is not used.
    pub fn insert(&mut self, item: &[u8], new_partition: Option<(usize, usize)>)
        requires
            old(self).wf(),
            old(self)@.count < usize::MAX,
            old(self)@.growth_due() ==> (new_partition matches Some(sizing) && sizing.0 > 0
                && old(self)@.next_items() <= usize::MAX),
        ensures
            final(self).wf(),
            final(self)@ == old(self)@.insert(item@, new_partition),
    {
        let last_index = self.filters.len() - 1;
        if self.filters[last_index].count() >= self.items_per_partition {
            let new_items: usize = self.items_per_partition * self.growth_factor;
            let sizing = new_partition.unwrap();
            self.add_partition(sizing.0, sizing.1, new_items);
        }
        self.insert_into_newest(item);
    }

    /// Check if an item is possibly in the set (checks all partitions).
    pub fn contains(&self, item: &[u8]) -> (present: bool)
        requires
            self.wf(),
        ensures
            present == self@.may_contain(item@),
    {
        let mut i: usize = 0;
        while i < self.filters.len()
            invariant
                self.wf(),
                0 <= i <= self.filters@.len(),
                forall|t: int| 0 <= t < i ==> !#[trigger] self@.partitions[t].may_contain(item@),
            decreases self.filters@.len() - i,
        {
            if self.filters[i].contains(item) {
                assert(self@.partitions[i as int].may_contain(item@));
                return true;
            }
            i += 1;
        }
        false
    }

    /// Total number of items inserted.
    pub fn count(&self) -> (n: usize)
        ensures
            n == self@.count,
    {
        self.current_count
    }

    /// Number of partitions.
    pub fn num_partitions(&self) -> (n: usize)
        ensures
            n == self@.partitions.len(),
    {
        self.filters.len()
    }
}

} // verus!
