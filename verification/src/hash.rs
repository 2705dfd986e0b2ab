//! Hashing for Bloom filters.
//!
//! FNV-1a (64-bit) is the base hash. The `k` probe indices of an item are
//! derived by double hashing: `h_i = h1 + i * h2 (mod 2^64)`, reduced modulo
//! the table size, where `h1` is the FNV-1a hash of the item and `h2` the
//! FNV-1a hash of the item followed by the byte `0xFF`.

use vstd::arithmetic::div_mod::lemma_add_mod_noop_right;
use vstd::prelude::*;

verus! {

/// FNV-1a of the empty sequence is the 64-bit offset basis 0xcbf29ce484222325.
pub proof fn lemma_fnv1a_empty()
    ensures
        fnv1a_spec(Seq::<u8>::empty()) == 0xcbf29ce484222325u64,
{
}

/// FNV-1a processes every byte, whatever its value: appending a byte `b` to
/// the input xors `b` into the hash and multiplies by 0x100000001b3 modulo 2^64.
pub proof fn lemma_fnv1a_push(data: Seq<u8>, b: u8)
    ensures
        fnv1a_spec(data.push(b)) as int == ((fnv1a_spec(data) ^ (b as u64)) as int
            * 0x100000001b3int) % 0x1_0000_0000_0000_0000int,
{
    assert(data.push(b).drop_last() =~= data);
}

/// Double hashing over the whole item: probe `i` is
/// `(h1 + i * h2) mod 2^64 mod m`, where `h1` is FNV-1a of the item and
/// `h2` is FNV-1a of the item followed by the byte 0xFF.
pub proof fn lemma_hash_indices_formula(data: Seq<u8>, k: usize, m: usize, i: int)
    requires
        m > 0,
        0 <= i < k,
    ensures
        hash_indices_spec(data, k, m).len() == k,
        hash_indices_spec(data, k, m)[i] as int == ((fnv1a_spec(data) as int + i * fnv1a_spec(
            data.push(0xFFu8),
        ) as int) % 0x1_0000_0000_0000_0000int) % (m as int),
{
    let h1 = fnv1a_spec(data);
    let h2 = fnv1a_spec(data.push(0xFFu8));
    let modulus: int = 0x1_0000_0000_0000_0000int;
    let iu: u64 = i as u64;
    assert(iu as int == i);
    let prod: u64 = iu.wrapping_mul(h2);
    assert(prod as int == (i * h2 as int) % modulus);
    let sum: u64 = h1.wrapping_add(prod);
    assert(sum as int == (h1 as int + prod as int) % modulus);
    lemma_add_mod_noop_right(h1 as int, i * h2 as int, modulus);
    assert(sum as int == (h1 as int + i * h2 as int) % modulus);
    let r: u64 = sum % (m as u64);
    assert(r < m);
}

/// FNV-1a 64-bit offset basis.
pub const FNV_OFFSET_BASIS: u64 = 0xcbf29ce484222325u64;

/// FNV-1a 64-bit prime.
pub const FNV_PRIME: u64 = 0x100000001b3u64;

/// The byte appended to an item to derive its second base hash.
pub const SECOND_HASH_SUFFIX: u8 = 0xFFu8;

/// One FNV-1a round: xor in the byte, then multiply by the prime modulo 2^64.
pub open spec fn fnv1a_step(hash: u64, byte: u8) -> u64 {
    (hash ^ (byte as u64)).wrapping_mul(FNV_PRIME)
}

/// FNV-1a hash of a byte sequence: the rounds applied from the first byte to the last.
pub open spec fn fnv1a_spec(data: Seq<u8>) -> u64
    decreases data.len(),
{
    if data.len() == 0 {
        FNV_OFFSET_BASIS
    } else {
        fnv1a_step(fnv1a_spec(data.drop_last()), data.last())
    }
}

/// The `i`-th probe index for base hashes `h1`, `h2` in a table of `m` slots.
pub open spec fn probe_index(h1: u64, h2: u64, i: int, m: usize) -> usize {
    (h1.wrapping_add((i as u64).wrapping_mul(h2)) % (m as u64)) as usize
}

/// The `k` probe indices of `data` in a table of `m` slots.
pub open spec fn hash_indices_spec(data: Seq<u8>, k: usize, m: usize) -> Seq<usize> {
    let h1 = fnv1a_spec(data);
    let h2 = fnv1a_spec(data.push(SECOND_HASH_SUFFIX));
    Seq::new(k as nat, |i: int| probe_index(h1, h2, i, m))
}

/// Every probe index lies inside the table.
pub proof fn lemma_hash_indices_in_range(data: Seq<u8>, k: usize, m: usize)
    requires
        k == 0 || m > 0,
    ensures
        hash_indices_spec(data, k, m).len() == k,
        forall|j: int|
            0 <= j < k ==> #[trigger] hash_indices_spec(data, k, m)[j] < m,
{
    let idx = hash_indices_spec(data, k, m);
    assert forall|j: int| 0 <= j < k implies #[trigger] idx[j] < m by {
        let h1 = fnv1a_spec(data);
        let h2 = fnv1a_spec(data.push(SECOND_HASH_SUFFIX));
        let h: u64 = h1.wrapping_add((j as u64).wrapping_mul(h2));
        let mm: u64 = m as u64;
        assert(h % mm < mm);
    }
}

/// FNV-1a hash of a byte slice (64-bit).
pub fn fnv1a(data: &[u8]) -> (hash: u64)
    ensures
        hash == fnv1a_spec(data@),
{
    let mut hash: u64 = FNV_OFFSET_BASIS;
    let mut i: usize = 0;
    while i < data.len()
        invariant
            i <= data.len(),
            hash == fnv1a_spec(data@.take(i as int)),
        decreases data.len() - i,
    {
        let byte: u8 = data[i];
        hash = (hash ^ (byte as u64)).wrapping_mul(FNV_PRIME);
        assert(data@.take(i + 1).drop_last() =~= data@.take(i as int));
        i += 1;
    }
    assert(data@.take(data.len() as int) =~= data@);
    hash
}

/// Generate `k` hash indices in the range `[0, m)` from a byte slice.
///
/// With `m == 0` only `k == 0` is accepted (any index would divide by zero).
/// The second base hash is FNV-1a of `data` followed by `0xFF`; it is
/// obtained by running one more FNV-1a round on the first.
pub fn hash_indices(data: &[u8], k: usize, m: usize) -> (indices: Vec<usize>)
    requires
        k == 0 || m > 0,
    ensures
        indices@ == hash_indices_spec(data@, k, m),
        indices@.len() == k,
        forall|j: int| 0 <= j < k ==> #[trigger] indices@[j] < m,
{
    let h1: u64 = fnv1a(data);
    let h2: u64 = (h1 ^ (SECOND_HASH_SUFFIX as u64)).wrapping_mul(FNV_PRIME);
    assert(data@.push(SECOND_HASH_SUFFIX).drop_last() =~= data@);
    assert(h2 == fnv1a_spec(data@.push(SECOND_HASH_SUFFIX)));
    let mm: u64 = m as u64;
    let mut indices: Vec<usize> = Vec::new();
    let mut i: usize = 0;
    while i < k
        invariant
            i <= k,
            mm == m,
            k == 0 || m > 0,
            h1 == fnv1a_spec(data@),
            h2 == fnv1a_spec(data@.push(SECOND_HASH_SUFFIX)),
            indices@ =~= hash_indices_spec(data@, k, m).take(i as int),
        decreases k - i,
    {
        let h: u64 = h1.wrapping_add((i as u64).wrapping_mul(h2));
        let r: u64 = h % mm;
        assert(r < mm);
        indices.push(r as usize);
        i += 1;
    }
    proof {
        lemma_hash_indices_in_range(data@, k, m);
    }
    indices
}

} // verus!
