//! The FNV-1a hash family: eight 64-bit hash functions that share one
//! multiplier and differ only in their initial accumulator.

use vstd::prelude::*;

verus! {

/// Multiplier shared by every function of the family.
pub const FNV_PRIME: u64 = 1099511628211u64;

/// Initial accumulator of the standard 64-bit FNV-1a hash; it is also the
/// first seed of the family.
pub const FNV_OFFSET_BASIS: u64 = 14695981039346656037u64;

/// Number of seeds, hence of hash functions, in the family.
pub const NUM_SEEDS: usize = 8;

/// The seeds, in the order in which a filter uses them.
pub const INIT_VALUES: [u64; 8] = [
    14695981039346656037u64,
    9425296925403859339u64,
    13716263814064014149u64,
    3525492407291847033u64,
    8607404175481815707u64,
    9818874561736458749u64,
    10026508429719773353u64,
    3560712257386009938u64,
];

/// Initial accumulator of the `i`-th hash function, `0 <= i < NUM_SEEDS`.
pub open spec fn seed(i: int) -> u64 {
    INIT_VALUES[i]
}

/// One round of FNV-1a: xor the byte into the accumulator, then multiply by
/// the prime modulo 2^64.
pub open spec fn fnv1a_step(h: u64, b: u8) -> u64 {
    (((h ^ (b as u64)) as nat * (FNV_PRIME as nat)) % 0x1_0000_0000_0000_0000nat) as u64
}

/// The FNV-1a hash of `data` started from the accumulator `init`: the rounds
/// are applied to the bytes from first to last.
pub open spec fn fnv1a_hash(init: u64, data: Seq<u8>) -> u64
    decreases data.len(),
{
    if data.len() == 0 {
        init
    } else {
        fnv1a_step(fnv1a_hash(init, data.drop_last()), data.last())
    }
}

/// Returns the `i`-th seed of the family.
pub fn init_value(i: usize) -> (r: u64)
    requires
        i < NUM_SEEDS,
    ensures
        r == seed(i as int),
{
    INIT_VALUES[i]
}

/// Hashes `data` with FNV-1a, starting from `h` or, when `h` is `None`, from
/// the standard offset basis.
pub fn fnv1a(data: &[u8], h: Option<u64>) -> (r: u64)
    ensures
        r == fnv1a_hash(
            match h {
                Some(init) => init,
                None => FNV_OFFSET_BASIS,
            },
            data@,
        ),
{
    let init: u64 = match h {
        Some(init) => init,
        None => FNV_OFFSET_BASIS,
    };
    let mut acc: u64 = init;
    let mut i: usize = 0;
    while i < data.len()
        invariant
            i <= data@.len(),
            acc == fnv1a_hash(init, data@.take(i as int)),
        decreases data@.len() - i,
    {
        proof {
            assert(data@.take(i + 1).drop_last() == data@.take(i as int));
        }
        acc = (acc ^ (data[i] as u64)).wrapping_mul(FNV_PRIME);
        i += 1;
    }
    proof {
        assert(data@.take(i as int) == data@);
    }
    acc
}

/// Hashes `data` with the standard 64-bit FNV-1a hash.
pub fn fnv1a_64(data: &[u8]) -> (r: u64)
    ensures
        r == fnv1a_hash(FNV_OFFSET_BASIS, data@),
{
    fnv1a(data, None)
}

/// Computes the first `N` hashes of the family in a single pass over `data`.
/// Each result equals the hash that a separate pass with that seed gives.
pub fn fnv1a_batch<const N: usize>(data: &[u8]) -> (h: [u64; N])
    requires
        N <= NUM_SEEDS,
    ensures
        forall|k: int| 0 <= k < N ==> h@[k] == fnv1a_hash(seed(k), data@),
{
    let mut h: [u64; N] = [0u64; N];
    let mut k: usize = 0;
    while k < N
        invariant
            k <= N <= NUM_SEEDS,
            forall|j: int| 0 <= j < k ==> h@[j] == seed(j),
        decreases N - k,
    {
        h[k] = init_value(k);
        k += 1;
    }
    let mut i: usize = 0;
    while i < data.len()
        invariant
            i <= data@.len(),
            N <= NUM_SEEDS,
            forall|j: int| 0 <= j < N ==> h@[j] == fnv1a_hash(seed(j), data@.take(i as int)),
        decreases data@.len() - i,
    {
        proof {
            assert(data@.take(i + 1).drop_last() == data@.take(i as int));
        }
        let b: u64 = data[i] as u64;
        let mut k: usize = 0;
        while k < N
            invariant
                k <= N <= NUM_SEEDS,
                i < data@.len(),
                b == data@[i as int] as u64,
                data@.take(i + 1).drop_last() == data@.take(i as int),
                forall|j: int|
                    0 <= j < k ==> h@[j] == fnv1a_hash(seed(j), data@.take(i + 1)),
                forall|j: int|
                    k <= j < N ==> h@[j] == fnv1a_hash(seed(j), data@.take(i as int)),
            decreases N - k,
        {
            h[k] = (h[k] ^ b).wrapping_mul(FNV_PRIME);
            k += 1;
        }
        i += 1;
    }
    proof {
        assert(data@.take(i as int) == data@);
    }
    h
}

} // verus!
