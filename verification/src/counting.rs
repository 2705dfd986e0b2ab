//! Counting Bloom filter.
//!
//! A Bloom filter variant that uses counters instead of bits, enabling
//! deletion of items. Each bucket is a `u8` counter that saturates at 255
//! when incremented and at 0 when decremented.
//!
//! The filter is modelled by [`CountingBloomFilterView`]. Inserting an item
//! adds, to each counter, the number of times that counter's index occurs
//! among the item's probe indices (capped at 255); removing subtracts it
//! (floored at 0).

use vstd::prelude::*;

use crate::hash::{hash_indices, hash_indices_spec, lemma_hash_indices_in_range};

verus! {

/// Number of times `x` occurs in `s`.
pub open spec fn occurrences(s: Seq<usize>, x: usize) -> nat
    decreases s.len(),
{
    if s.len() == 0 {
        0
    } else {
        occurrences(s.drop_last(), x) + if s.last() == x {
            1nat
        } else {
            0nat
        }
    }
}

/// An element of a sequence occurs in it at least once.
pub proof fn lemma_occurrences_of_member(s: Seq<usize>, j: int)
    requires
        0 <= j < s.len(),
    ensures
        occurrences(s, s[j]) >= 1,
    decreases s.len(),
{
    if j < s.len() - 1 {
        lemma_occurrences_of_member(s.drop_last(), j);
    }
}

/// No value occurs more often than the sequence is long.
pub proof fn lemma_occurrences_at_most_len(s: Seq<usize>, x: usize)
    ensures
        occurrences(s, x) <= s.len(),
    decreases s.len(),
{
    if s.len() > 0 {
        lemma_occurrences_at_most_len(s.drop_last(), x);
    }
}

/// Occurrences in a prefix grow by one exactly at the next element.
proof fn lemma_occurrences_take_next(s: Seq<usize>, j: int, x: usize)
    requires
        0 <= j < s.len(),
    ensures
        occurrences(s.take(j + 1), x) == occurrences(s.take(j), x) + if s[j] == x {
            1nat
        } else {
            0nat
        },
{
    assert(s.take(j + 1).drop_last() =~= s.take(j));
}

/// The total number of probes that `items` make at index `x`, with `num_hashes`
/// hash functions over `num_buckets` buckets.
pub open spec fn probe_load(
    num_hashes: usize,
    num_buckets: usize,
    items: Seq<Seq<u8>>,
    x: usize,
) -> nat
    decreases items.len(),
{
    if items.len() == 0 {
        0
    } else {
        probe_load(num_hashes, num_buckets, items.drop_last(), x) + occurrences(
            hash_indices_spec(items.last(), num_hashes, num_buckets),
            x,
        )
    }
}

/// A value occurs in a sequence exactly when the sequence contains it.
pub proof fn lemma_occurrences_positive(s: Seq<usize>, x: usize)
    ensures
        (occurrences(s, x) > 0) == s.contains(x),
    decreases s.len(),
{
    if s.len() > 0 {
        let prev = s.drop_last();
        lemma_occurrences_positive(prev, x);
        if prev.contains(x) {
            let j = choose|j: int| 0 <= j < prev.len() && prev[j] == x;
            assert(s[j] == x);
        }
        if s.last() == x {
            assert(s[s.len() - 1] == x);
        }
        if s.contains(x) {
            let j = choose|j: int| 0 <= j < s.len() && s[j] == x;
            if j < prev.len() {
                assert(prev[j] == x);
            }
        }
    }
}

/// Taking one item out of a list lowers every load by that item's probes.
pub proof fn lemma_probe_load_remove(
    num_hashes: usize,
    num_buckets: usize,
    items: Seq<Seq<u8>>,
    t: int,
    x: usize,
)
    requires
        0 <= t < items.len(),
    ensures
        probe_load(num_hashes, num_buckets, items, x) == probe_load(
            num_hashes,
            num_buckets,
            items.remove(t),
            x,
        ) + occurrences(hash_indices_spec(items[t], num_hashes, num_buckets), x),
    decreases items.len(),
{
    if t == items.len() - 1 {
        assert(items.remove(t) =~= items.drop_last());
    } else {
        lemma_probe_load_remove(num_hashes, num_buckets, items.drop_last(), t, x);
        assert(items.remove(t).drop_last() =~= items.drop_last().remove(t));
        assert(items.remove(t).last() == items.last());
    }
}

/// A load is positive exactly when some item probes that index.
pub proof fn lemma_probe_load_positive(
    num_hashes: usize,
    num_buckets: usize,
    items: Seq<Seq<u8>>,
    x: usize,
)
    ensures
        (probe_load(num_hashes, num_buckets, items, x) > 0) == (exists|t: int|
            0 <= t < items.len() && #[trigger] hash_indices_spec(
                items[t],
                num_hashes,
                num_buckets,
            ).contains(x)),
    decreases items.len(),
{
    if items.len() > 0 {
        let prev = items.drop_last();
        let last = items.last();
        lemma_probe_load_positive(num_hashes, num_buckets, prev, x);
        lemma_occurrences_positive(hash_indices_spec(last, num_hashes, num_buckets), x);
        if exists|t: int|
            0 <= t < prev.len() && #[trigger] hash_indices_spec(
                prev[t],
                num_hashes,
                num_buckets,
            ).contains(x) {
            let t = choose|t: int|
                0 <= t < prev.len() && #[trigger] hash_indices_spec(
                    prev[t],
                    num_hashes,
                    num_buckets,
                ).contains(x);
            assert(items[t] == prev[t]);
        }
        if hash_indices_spec(last, num_hashes, num_buckets).contains(x) {
            assert(items[items.len() - 1] == last);
        }
        if exists|t: int|
            0 <= t < items.len() && #[trigger] hash_indices_spec(
                items[t],
                num_hashes,
                num_buckets,
            ).contains(x) {
            let t = choose|t: int|
                0 <= t < items.len() && #[trigger] hash_indices_spec(
                    items[t],
                    num_hashes,
                    num_buckets,
                ).contains(x);
            if t < prev.len() {
                assert(prev[t] == items[t]);
            }
        }
    }
}

/// The mathematical model of a counting Bloom filter.
pub struct CountingBloomFilterView {
    /// One counter per bucket; its length is the number of buckets.
    pub counters: Seq<u8>,
    /// Number of probe indices computed per item.
    pub num_hashes: usize,
    /// Number of items currently counted (insertions minus removals, floored at 0).
    pub count: nat,
}

impl CountingBloomFilterView {
    /// A filter that can be probed: at least one bucket, and a bucket count
    /// that fits a `usize`.
    pub open spec fn wf(self) -> bool {
        0 < self.counters.len() <= usize::MAX
    }

    /// The filter with `num_buckets` zero counters and no items.
    pub open spec fn empty(num_buckets: nat, num_hashes: usize) -> CountingBloomFilterView {
        CountingBloomFilterView {
            counters: Seq::new(num_buckets, |i: int| 0u8),
            num_hashes,
            count: 0,
        }
    }

    /// The probe indices of `item` in this filter.
    pub open spec fn indices(self, item: Seq<u8>) -> Seq<usize> {
        hash_indices_spec(item, self.num_hashes, self.counters.len() as usize)
    }

    /// The total number of probes that `items` make at index `x` of this filter.
    pub open spec fn load(self, items: Seq<Seq<u8>>, x: usize) -> nat {
        probe_load(self.num_hashes, self.counters.len() as usize, items, x)
    }

    /// The filter holds exactly `items`, a list in any order that may repeat
    /// an item: each counter is the number of probes the items make at its
    /// index, and the count is the number of items.
    pub open spec fn holds(self, items: Seq<Seq<u8>>) -> bool {
        &&& self.count == items.len()
        &&& forall|i: int|
            0 <= i < self.counters.len() ==> #[trigger] self.counters[i] == self.load(items, i as usize)
    }

    /// Some item of `items` has `x` among its probe indices in this filter.
    pub open spec fn probed_by(self, items: Seq<Seq<u8>>, x: usize) -> bool {
        exists|t: int| 0 <= t < items.len() && #[trigger] self.indices(items[t]).contains(x)
    }

    /// `item` may be present: every one of its probe counters is nonzero.
    pub open spec fn may_contain(self, item: Seq<u8>) -> bool {
        forall|j: int|
            0 <= j < self.indices(item).len() ==> #[trigger] self.counters[self.indices(
                item,
            )[j] as int] > 0
    }

    /// The filter after inserting `item`: each counter grows by the number of
    /// times its index is probed, capped at 255.
    pub open spec fn insert(self, item: Seq<u8>) -> CountingBloomFilterView {
        CountingBloomFilterView {
            counters: Seq::new(
                self.counters.len(),
                |i: int|
                    {
                        let n = self.counters[i] + occurrences(self.indices(item), i as usize);
                        if n > 255 {
                            255u8
                        } else {
                            n as u8
                        }
                    },
            ),
            num_hashes: self.num_hashes,
            count: self.count + 1,
        }
    }

    /// The filter after removing `item`: each counter shrinks by the number of
    /// times its index is probed, floored at 0. The item count drops by one
    /// when the filter reported `item` before the removal (and the count is
    /// not already 0); an item reported absent was not in the filter, so the
    /// count is kept.
    pub open spec fn remove(self, item: Seq<u8>) -> CountingBloomFilterView {
        CountingBloomFilterView {
            counters: Seq::new(
                self.counters.len(),
                |i: int|
                    {
                        let n = self.counters[i] - occurrences(self.indices(item), i as usize);
                        if n < 0 {
                            0u8
                        } else {
                            n as u8
                        }
                    },
            ),
            num_hashes: self.num_hashes,
            count: if self.may_contain(item) && self.count > 0 {
                (self.count - 1) as nat
            } else {
                self.count
            },
        }
    }
}

/// No false negatives: right after `item` is inserted, the filter reports it.
pub proof fn lemma_insert_then_may_contain(filter: CountingBloomFilterView, item: Seq<u8>)
    requires
        filter.wf(),
    ensures
        filter.insert(item).may_contain(item),
{
    let after = filter.insert(item);
    let idx = filter.indices(item);
    lemma_hash_indices_in_range(item, filter.num_hashes, filter.counters.len() as usize);
    assert(after.indices(item) == idx);
    assert forall|j: int| 0 <= j < idx.len() implies #[trigger] after.counters[idx[j] as int] > 0 by {
        lemma_occurrences_of_member(idx, j);
    }
}

/// Insertion never lowers a counter: an item reported before an insertion is
/// still reported after it.
pub proof fn lemma_insert_keeps_members(
    filter: CountingBloomFilterView,
    item: Seq<u8>,
    other: Seq<u8>,
)
    requires
        filter.wf(),
        filter.may_contain(other),
    ensures
        filter.insert(item).may_contain(other),
{
    let after = filter.insert(item);
    let idx = filter.indices(other);
    lemma_hash_indices_in_range(other, filter.num_hashes, filter.counters.len() as usize);
    assert(after.indices(other) == idx);
    assert forall|j: int| 0 <= j < idx.len() implies #[trigger] after.counters[idx[j] as int] > 0 by {
        assert(filter.counters[idx[j] as int] > 0);
    }
}

/// Removal undoes insertion: when no counter saturates while `item` is
/// inserted, removing it afterwards restores the filter exactly.
pub proof fn lemma_remove_undoes_insert(filter: CountingBloomFilterView, item: Seq<u8>)
    requires
        filter.wf(),
        forall|i: int|
            0 <= i < filter.counters.len() ==> filter.counters[i] + occurrences(
                filter.indices(item),
                i as usize,
            ) <= 255,
    ensures
        filter.insert(item).remove(item) == filter,
{
    let after = filter.insert(item);
    lemma_insert_then_may_contain(filter, item);
    assert(after.indices(item) == filter.indices(item));
    assert(after.remove(item).counters =~= filter.counters);
}

/// Removal undoes insertion whenever every counter has room for one
/// increment per hash function.
pub proof fn lemma_remove_undoes_insert_with_headroom(filter: CountingBloomFilterView, item: Seq<u8>)
    requires
        filter.wf(),
        forall|i: int| 0 <= i < filter.counters.len() ==> filter.counters[i] + filter.num_hashes <= 255,
    ensures
        filter.insert(item).remove(item) == filter,
{
    let idx = filter.indices(item);
    assert forall|i: int|
        0 <= i < filter.counters.len() implies filter.counters[i] + occurrences(idx, i as usize)
        <= 255 by {
        lemma_occurrences_at_most_len(idx, i as usize);
    }
    lemma_remove_undoes_insert(filter, item);
}

/// Removing one item leaves another reported, as long as every counter still
/// accounts for both items' probes.
pub proof fn lemma_remove_keeps_other(
    filter: CountingBloomFilterView,
    kept: Seq<u8>,
    removed: Seq<u8>,
)
    requires
        filter.wf(),
        forall|i: int|
            0 <= i < filter.counters.len() ==> filter.counters[i] >= occurrences(
                filter.indices(kept),
                i as usize,
            ) + occurrences(filter.indices(removed), i as usize),
    ensures
        filter.remove(removed).may_contain(kept),
{
    let after = filter.remove(removed);
    let idx = filter.indices(kept);
    lemma_hash_indices_in_range(kept, filter.num_hashes, filter.counters.len() as usize);
    assert(after.indices(kept) == idx);
    assert forall|j: int| 0 <= j < idx.len() implies #[trigger] after.counters[idx[j] as int] > 0 by {
        lemma_occurrences_of_member(idx, j);
        let p = idx[j] as int;
        assert(filter.counters[p] >= occurrences(idx, idx[j]) + occurrences(
            filter.indices(removed),
            p as usize,
        ));
    }
}

/// A filter whose counters are all zero reports no item.
pub proof fn lemma_empty_reports_nothing(num_buckets: nat, num_hashes: usize, item: Seq<u8>)
    requires
        CountingBloomFilterView::empty(num_buckets, num_hashes).wf(),
        num_hashes >= 1,
    ensures
        !CountingBloomFilterView::empty(num_buckets, num_hashes).may_contain(item),
{
    let filter = CountingBloomFilterView::empty(num_buckets, num_hashes);
    let idx = filter.indices(item);
    lemma_hash_indices_in_range(item, num_hashes, num_buckets as usize);
    assert(filter.counters[idx[0] as int] == 0);
}

/// Removing from a filter whose counters are all zero leaves it unchanged.
pub proof fn lemma_remove_from_empty(num_buckets: nat, num_hashes: usize, item: Seq<u8>)
    ensures
        CountingBloomFilterView::empty(num_buckets, num_hashes).remove(item)
            == CountingBloomFilterView::empty(num_buckets, num_hashes),
{
    let filter = CountingBloomFilterView::empty(num_buckets, num_hashes);
    assert(filter.remove(item).counters =~= filter.counters);
}

/// The counters of a filter do not depend on the order in which items were inserted.
pub proof fn lemma_insert_commutes(
    filter: CountingBloomFilterView,
    first: Seq<u8>,
    second: Seq<u8>,
)
    ensures
        filter.insert(first).insert(second) == filter.insert(second).insert(first),
{
    let a = filter.insert(first).insert(second);
    let b = filter.insert(second).insert(first);
    assert(filter.insert(first).indices(second) == filter.indices(second));
    assert(filter.insert(second).indices(first) == filter.indices(first));
    assert(a.counters =~= b.counters);
}

/// A filter with all counters zero holds no items.
pub proof fn lemma_empty_holds_nothing(num_buckets: nat, num_hashes: usize)
    ensures
        CountingBloomFilterView::empty(num_buckets, num_hashes).holds(Seq::empty()),
{
}

/// Inserting an item into a filter that holds `items` yields one that holds
/// `items` plus that item, as long as no counter would pass 255.
pub proof fn lemma_insert_holds(
    filter: CountingBloomFilterView,
    items: Seq<Seq<u8>>,
    item: Seq<u8>,
)
    requires
        filter.holds(items),
        forall|i: int|
            0 <= i < filter.counters.len() ==> #[trigger] filter.load(items.push(item), i as usize)
                <= 255,
    ensures
        filter.insert(item).holds(items.push(item)),
{
    let after = filter.insert(item);
    assert(items.push(item).drop_last() =~= items);
    assert forall|i: int| 0 <= i < after.counters.len() implies #[trigger] after.counters[i]
        == after.load(items.push(item), i as usize) by {
        assert(filter.load(items.push(item), i as usize) <= 255);
    }
}

/// A counter of a filter that holds `items` is nonzero exactly when some
/// held item probes it.
proof fn lemma_counter_positive(filter: CountingBloomFilterView, items: Seq<Seq<u8>>, x: usize)
    requires
        filter.wf(),
        filter.holds(items),
        x < filter.counters.len(),
    ensures
        (filter.counters[x as int] > 0) == filter.probed_by(items, x),
{
    let k = filter.num_hashes;
    let m = filter.counters.len() as usize;
    lemma_probe_load_positive(k, m, items, x);
    assert(filter.counters[x as int] == filter.load(items, x as int as usize));
    if filter.probed_by(items, x) {
        let t = choose|t: int| 0 <= t < items.len() && #[trigger] filter.indices(items[t]).contains(x);
        assert(hash_indices_spec(items[t], k, m).contains(x));
    }
    if exists|t: int| 0 <= t < items.len() && #[trigger] hash_indices_spec(items[t], k, m).contains(x) {
        let t = choose|t: int| 0 <= t < items.len() && #[trigger] hash_indices_spec(items[t], k, m).contains(x);
        assert(filter.indices(items[t]).contains(x));
    }
}

/// Membership in a filter that holds `items`: an item is reported exactly
/// when each of its probe indices is a probe index of some held item.
pub proof fn lemma_holds_membership(
    filter: CountingBloomFilterView,
    items: Seq<Seq<u8>>,
    item: Seq<u8>,
)
    requires
        filter.wf(),
        filter.holds(items),
    ensures
        filter.may_contain(item) == (forall|j: int|
            0 <= j < filter.indices(item).len() ==> #[trigger] filter.probed_by(
                items,
                filter.indices(item)[j],
            )),
{
    let idx = filter.indices(item);
    lemma_hash_indices_in_range(item, filter.num_hashes, filter.counters.len() as usize);
    if filter.may_contain(item) {
        assert forall|j: int| 0 <= j < idx.len() implies #[trigger] filter.probed_by(items, idx[j]) by {
            lemma_counter_positive(filter, items, idx[j]);
            assert(filter.counters[idx[j] as int] > 0);
        }
    }
    if forall|j: int| 0 <= j < idx.len() ==> #[trigger] filter.probed_by(items, idx[j]) {
        assert forall|j: int| 0 <= j < idx.len() implies #[trigger] filter.counters[idx[j] as int]
            > 0 by {
            lemma_counter_positive(filter, items, idx[j]);
            assert(filter.probed_by(items, idx[j]));
        }
    }
}

/// No false negatives: every item that a filter holds is reported.
pub proof fn lemma_holds_no_false_negatives(
    filter: CountingBloomFilterView,
    items: Seq<Seq<u8>>,
    t: int,
)
    requires
        filter.wf(),
        filter.holds(items),
        0 <= t < items.len(),
    ensures
        filter.may_contain(items[t]),
{
    let idx = filter.indices(items[t]);
    lemma_holds_membership(filter, items, items[t]);
    assert forall|j: int| 0 <= j < idx.len() implies #[trigger] filter.probed_by(items, idx[j]) by {
        assert(idx.contains(idx[j]));
    }
}

/// Removing a held item yields a filter that holds the other items: the
/// count drops by one, and (by the membership law) every remaining item is
/// still reported.
pub proof fn lemma_remove_holds(filter: CountingBloomFilterView, items: Seq<Seq<u8>>, t: int)
    requires
        filter.wf(),
        filter.holds(items),
        0 <= t < items.len(),
    ensures
        filter.remove(items[t]).holds(items.remove(t)),
        filter.remove(items[t]).count == items.len() - 1,
{
    let after = filter.remove(items[t]);
    lemma_holds_no_false_negatives(filter, items, t);
    assert forall|i: int| 0 <= i < after.counters.len() implies #[trigger] after.counters[i]
        == after.load(items.remove(t), i as usize) by {
        lemma_probe_load_remove(
            filter.num_hashes,
            filter.counters.len() as usize,
            items,
            t,
            i as usize,
        );
    }
}

/// Counting Bloom filter with `u8` counters.
pub struct CountingBloomFilter {
    counters: Vec<u8>,
    num_buckets: usize,
    num_hashes: usize,
    count: usize,
}

impl CountingBloomFilter {
    #[verifier::type_invariant]
    spec fn inv(self) -> bool {
        self.counters@.len() == self.num_buckets
    }
}

impl View for CountingBloomFilter {
    type V = CountingBloomFilterView;

    closed spec fn view(&self) -> CountingBloomFilterView {
        CountingBloomFilterView {
            counters: self.counters@,
            num_hashes: self.num_hashes,
            count: self.count as nat,
        }
    }
}

impl CountingBloomFilter {
    /// Create a counting Bloom filter with `num_buckets` zero counters and
    /// `num_hashes` hash functions.
    pub fn with_params(num_buckets: usize, num_hashes: usize) -> (filter: Self)
        ensures
            filter@ == CountingBloomFilterView::empty(num_buckets as nat, num_hashes),
    {
        let mut counters: Vec<u8> = Vec::new();
        let mut i: usize = 0;
        while i < num_buckets
            invariant
                i <= num_buckets,
                counters@ =~= Seq::new(i as nat, |t: int| 0u8),
            decreases num_buckets - i,
        {
            counters.push(0u8);
            i += 1;
        }
        CountingBloomFilter { counters, num_buckets, num_hashes, count: 0 }
    }

    /// Moves the contents out, leaving an empty filter behind.
    fn take_parts(&mut self) -> (parts: (Vec<u8>, usize, usize, usize))
        ensures
            parts.0@ == old(self).counters@,
            parts.0@.len() == parts.1,
            parts.1 == old(self).num_buckets,
            parts.2 == old(self).num_hashes,
            parts.3 == old(self).count,
    {
        proof {
            use_type_invariant(&*self);
        }
        let mut taken = CountingBloomFilter {
            counters: Vec::new(),
            num_buckets: 0,
            num_hashes: 0,
            count: 0,
        };
        std::mem::swap(&mut taken, self);
        proof {
            use_type_invariant(&taken);
        }
        let CountingBloomFilter { counters, num_buckets, num_hashes, count } = taken;
        (counters, num_buckets, num_hashes, count)
    }

    /// Insert an item (increments counters, saturating at 255).
    pub fn insert(&mut self, item: &[u8])
        requires
            old(self)@.wf(),
            old(self)@.count < usize::MAX,
        ensures
            final(self)@ == old(self)@.insert(item@),
    {
        let (mut counters, num_buckets, num_hashes, count) = self.take_parts();
        let ghost start = counters@;
        let indices = hash_indices(item, num_hashes, num_buckets);
        let mut j: usize = 0;
        while j < indices.len()
            invariant
                0 <= j <= indices@.len(),
                indices@ == hash_indices_spec(item@, num_hashes, num_buckets),
                forall|t: int| 0 <= t < indices@.len() ==> #[trigger] indices@[t] < num_buckets,
                counters@.len() == num_buckets,
                start.len() == num_buckets,
                forall|i: int|
                    0 <= i < num_buckets ==> #[trigger] counters@[i] == {
                        let n = start[i] + occurrences(indices@.take(j as int), i as usize);
                        if n > 255 {
                            255u8
                        } else {
                            n as u8
                        }
                    },
            decreases indices@.len() - j,
        {
            let idx: usize = indices[j];
            let c: u8 = counters[idx];
            counters.set(idx, c.saturating_add(1));
            proof {
                assert forall|i: int| 0 <= i < num_buckets implies #[trigger] counters@[i] == {
                    let n = start[i] + occurrences(indices@.take(j + 1), i as usize);
                    if n > 255 {
                        255u8
                    } else {
                        n as u8
                    }
                } by {
                    lemma_occurrences_take_next(indices@, j as int, i as usize);
                }
            }
            j += 1;
        }
        proof {
            assert(indices@.take(indices@.len() as int) =~= indices@);
        }
        *self = CountingBloomFilter { counters, num_buckets, num_hashes, count: count + 1 };
        proof {
            assert(self@.counters =~= old(self)@.insert(item@).counters);
        }
    }

    /// Remove an item (decrements counters). Saturates to 0.
    ///
    /// The item count goes down only when the filter reported the item as
    /// present before the removal.
    pub fn remove(&mut self, item: &[u8])
        requires
            old(self)@.wf(),
        ensures
            final(self)@ == old(self)@.remove(item@),
    {
        let present = self.contains(item);
        let (mut counters, num_buckets, num_hashes, count) = self.take_parts();
        let ghost start = counters@;
        let indices = hash_indices(item, num_hashes, num_buckets);
        let mut j: usize = 0;
        while j < indices.len()
            invariant
                0 <= j <= indices@.len(),
                indices@ == hash_indices_spec(item@, num_hashes, num_buckets),
                forall|t: int| 0 <= t < indices@.len() ==> #[trigger] indices@[t] < num_buckets,
                counters@.len() == num_buckets,
                start.len() == num_buckets,
                forall|i: int|
                    0 <= i < num_buckets ==> #[trigger] counters@[i] == {
                        let n = start[i] - occurrences(indices@.take(j as int), i as usize);
                        if n < 0 {
                            0u8
                        } else {
                            n as u8
                        }
                    },
            decreases indices@.len() - j,
        {
            let idx: usize = indices[j];
            let c: u8 = counters[idx];
            counters.set(idx, c.saturating_sub(1));
            proof {
                assert forall|i: int| 0 <= i < num_buckets implies #[trigger] counters@[i] == {
                    let n = start[i] - occurrences(indices@.take(j + 1), i as usize);
                    if n < 0 {
                        0u8
                    } else {
                        n as u8
                    }
                } by {
                    lemma_occurrences_take_next(indices@, j as int, i as usize);
                }
            }
            j += 1;
        }
        proof {
            assert(indices@.take(indices@.len() as int) =~= indices@);
        }
        *self = CountingBloomFilter {
            counters,
            num_buckets,
            num_hashes,
            count: if present {
                count.saturating_sub(1)
            } else {
                count
            },
        };
        proof {
            assert(self@.counters =~= old(self)@.remove(item@).counters);
        }
    }

    /// Check if an item is possibly in the set.
    pub fn contains(&self, item: &[u8]) -> (present: bool)
        requires
            self@.wf(),
        ensures
            present == self@.may_contain(item@),
    {
        proof {
            use_type_invariant(self);
        }
        let indices = hash_indices(item, self.num_hashes, self.num_buckets);
        let mut j: usize = 0;
        while j < indices.len()
            invariant
                0 <= j <= indices@.len(),
                indices@ == self@.indices(item@),
                forall|t: int| 0 <= t < indices@.len() ==> #[trigger] indices@[t] < self.num_buckets,
                self.counters@.len() == self.num_buckets,
                forall|t: int| 0 <= t < j ==> #[trigger] self@.counters[indices@[t] as int] > 0,
            decreases indices@.len() - j,
        {
            if self.counters[indices[j]] == 0 {
                return false;
            }
            j += 1;
        }
        true
    }

    /// Number of items currently in the filter.
    pub fn count(&self) -> (n: usize)
        ensures
            n == self@.count,
    {
        self.count
    }
}

} // verus!
