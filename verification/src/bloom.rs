//! Membership filter: a fixed-size bit array that is queried and updated
//! through several seeded hash functions. A query may report a key that was
//! never inserted, but never misses one that was.

use vstd::prelude::*;
use vstd::arithmetic::div_mod::lemma_mod_bound;
use vstd::slice::{slice_subrange, slice_to_vec};
use crate::endian::{read_i32_le, read_u64_le, write_i32_le, write_u64_le};
use crate::error::FilterError;
use crate::snapshot::{parse_snapshot, snapshot_of, HEADER_LEN};
use crate::text::append_bytes;
use crate::hash::{fnv1a, fnv1a_hash, init_value, seed, NUM_SEEDS};

verus! {

/// Bit `j` of the byte `b`, counting from the least significant bit.
pub open spec fn bit_of(b: u8, j: int) -> bool {
    b & (1u8 << (j as u8)) != 0
}

/// The byte `b` with bit `j` set.
pub open spec fn with_bit_of(b: u8, j: int) -> u8 {
    b | (1u8 << (j as u8))
}

/// The mathematical value of a filter: its bit array, stored as bytes with
/// position `p` at bit `p % 8` of byte `p / 8`, and the number of hash
/// functions applied to each key.
pub struct FilterView {
    pub bits: Seq<u8>,
    pub num_hashes: nat,
}

impl FilterView {
    /// The bit array is not empty and the hash count lies in `[1, 8]`.
    pub open spec fn wf(self) -> bool {
        &&& self.bits.len() > 0
        &&& 1 <= self.num_hashes <= NUM_SEEDS
    }

    /// Number of bit positions.
    pub open spec fn bit_count(self) -> int {
        8 * (self.bits.len() as int)
    }

    /// Whether position `p` is set.
    pub open spec fn is_set(self, p: int) -> bool {
        bit_of(self.bits[p / 8], p % 8)
    }

    /// The position that the hash value `h` selects: `h` reduced modulo the
    /// number of positions.
    pub open spec fn slot(self, h: u64) -> int {
        (h as int) % self.bit_count()
    }

    /// The position that the `i`-th hash function assigns to `key`.
    pub open spec fn position(self, key: Seq<u8>, i: int) -> int {
        self.slot(fnv1a_hash(seed(i), key))
    }

    /// Every hash function points at a set position.
    pub open spec fn contains(self, key: Seq<u8>) -> bool {
        forall|i: int| 0 <= i < self.num_hashes ==> self.is_set(#[trigger] self.position(key, i))
    }

    /// The filter with position `p` set.
    pub open spec fn with_bit(self, p: int) -> FilterView {
        FilterView {
            bits: self.bits.update(p / 8, with_bit_of(self.bits[p / 8], p % 8)),
            num_hashes: self.num_hashes,
        }
    }

    /// The filter after the positions of the first `k` hash functions of
    /// `key` have been set.
    pub open spec fn insert_first(self, key: Seq<u8>, k: nat) -> FilterView
        decreases k,
    {
        if k == 0 {
            self
        } else {
            self.insert_first(key, (k - 1) as nat).with_bit(self.position(key, k - 1))
        }
    }

    /// The filter after `key` has been inserted.
    pub open spec fn insert(self, key: Seq<u8>) -> FilterView {
        self.insert_first(key, self.num_hashes)
    }

    /// The filter after the keys of `keys` have been inserted, first to last.
    pub open spec fn insert_all(self, keys: Seq<Seq<u8>>) -> FilterView
        decreases keys.len(),
    {
        if keys.len() == 0 {
            self
        } else {
            self.insert_all(keys.drop_last()).insert(keys.last())
        }
    }
}

/// The view of a freshly created filter of `size` bits: `size` rounded up to
/// whole bytes, all of them zero.
pub open spec fn empty_filter(size: nat, num_hashes: nat) -> FilterView {
    FilterView { bits: Seq::new((size + 7) / 8, |i: int| 0u8), num_hashes }
}

/// The parameters from which a filter can be created.
pub open spec fn valid_configuration(size: nat, num_hashes: nat) -> bool {
    size > 0 && 1 <= num_hashes <= NUM_SEEDS
}

/// A fixed-size bit array with `num_hashes` hash functions.
pub struct BloomFilter {
    data: Vec<u8>,
    num_hashes: usize,
}

impl View for BloomFilter {
    type V = FilterView;

    closed spec fn view(&self) -> FilterView {
        FilterView { bits: self.data@, num_hashes: self.num_hashes as nat }
    }
}

impl BloomFilter {
    /// What holds of every filter: its view is well formed. A proof learns
    /// it of a filter at hand from `use_type_invariant`.
    #[verifier::type_invariant]
    pub open spec fn inv(self) -> bool {
        self@.wf()
    }

    /// Creates a filter of `size` bits, rounded up to a multiple of 8, all
    /// cleared, with `num_hashes` hash functions.
    pub fn new(size: usize, num_hashes: usize) -> (r: Result<BloomFilter, FilterError>)
        ensures
            match r {
                Ok(filter) => valid_configuration(size as nat, num_hashes as nat) && filter@
                    == empty_filter(size as nat, num_hashes as nat),
                Err(e) => !valid_configuration(size as nat, num_hashes as nat) && e
                    == FilterError::InvalidConfiguration,
            },
    {
        if size == 0 || num_hashes == 0 || num_hashes > NUM_SEEDS {
            return Err(FilterError::InvalidConfiguration);
        }
        let size_bytes: usize = if size % 8 == 0 {
            size / 8
        } else {
            size / 8 + 1
        };
        let data: Vec<u8> = vec![0u8; size_bytes];
        let filter = BloomFilter { data, num_hashes };
        proof {
            assert(filter@.bits =~= empty_filter(size as nat, num_hashes as nat).bits);
        }
        Ok(filter)
    }

    /// Reconstructs a filter from a snapshot.
    pub fn load(snapshot: &[u8]) -> (r: Result<BloomFilter, FilterError>)
        ensures
            match r {
                Ok(filter) => parse_snapshot(snapshot@) == Ok::<FilterView, FilterError>(filter@),
                Err(e) => parse_snapshot(snapshot@) == Err::<FilterView, FilterError>(e),
            },
    {
        if snapshot.len() < HEADER_LEN {
            return Err(FilterError::CorruptData);
        }
        let declared_hashes: i32 = read_i32_le(slice_subrange(snapshot, 0, 4));
        let declared_len: u64 = read_u64_le(slice_subrange(snapshot, 4, HEADER_LEN));
        if declared_hashes < 1 || declared_hashes > 8 || declared_len == 0 {
            return Err(FilterError::InvalidConfiguration);
        }
        let available: usize = snapshot.len() - HEADER_LEN;
        if (available as u64) < declared_len {
            return Err(FilterError::CorruptData);
        }
        let size_bytes: usize = declared_len as usize;
        let data: Vec<u8> = slice_to_vec(
            slice_subrange(snapshot, HEADER_LEN, HEADER_LEN + size_bytes),
        );
        Ok(BloomFilter { data, num_hashes: declared_hashes as usize })
    }

    /// Writes the filter out as a snapshot, from which `load` reconstructs
    /// it.
    pub fn save(&self) -> (out: Vec<u8>)
        ensures
            out@ == snapshot_of(self@),
    {
        proof {
            use_type_invariant(self);
        }
        let hashes: [u8; 4] = write_i32_le(self.num_hashes as i32);
        let len: [u8; 8] = write_u64_le(self.data.len() as u64);
        let mut out: Vec<u8> = Vec::new();
        append_bytes(&mut out, hashes.as_slice());
        append_bytes(&mut out, len.as_slice());
        append_bytes(&mut out, self.data.as_slice());
        out
    }

    /// Number of hash functions applied to each key.
    pub fn num_hashes(&self) -> (k: usize)
        ensures
            k == self@.num_hashes,
    {
        proof {
            use_type_invariant(self);
        }
        self.num_hashes
    }

    /// The bit array, one byte per eight positions.
    pub fn bits(&self) -> (b: &[u8])
        ensures
            b@ == self@.bits,
    {
        proof {
            use_type_invariant(self);
        }
        self.data.as_slice()
    }

    /// Tells whether the position selected by the hash value `idx` is set.
    pub fn get_idx(&self, idx: u64) -> (b: bool)
        ensures
            b == self@.is_set(self@.slot(idx)),
    {
        proof {
            use_type_invariant(self);
        }
        let nbits: u128 = 8 * (self.data.len() as u128);
        let pos: u128 = (idx as u128) % nbits;
        let i: usize = (pos / 8) as usize;
        let j: u8 = (pos % 8) as u8;
        self.data[i] & (1u8 << j) != 0
    }

    /// Tells whether `key` may have been inserted: `true` exactly when each
    /// of the filter's hash functions points at a set position.
    pub fn get(&self, key: &[u8]) -> (b: bool)
        ensures
            b == self@.contains(key@),
    {
        proof {
            use_type_invariant(self);
        }
        let mut i: usize = 0;
        while i < self.num_hashes
            invariant
                i <= self.num_hashes <= NUM_SEEDS,
                forall|t: int| 0 <= t < i ==> self@.is_set(#[trigger] self@.position(key@, t)),
            decreases self.num_hashes - i,
        {
            let h: u64 = fnv1a(key, Some(init_value(i)));
            if !self.get_idx(h) {
                assert(!self@.is_set(self@.position(key@, i as int)));
                return false;
            }
            i += 1;
        }
        true
    }

    /// Inserts `key`: sets the position that each of the filter's hash
    /// functions assigns to it.
    pub fn set(&mut self, key: &[u8])
        ensures
            final(self)@ == old(self)@.insert(key@),
    {
        proof {
            use_type_invariant(&*self);
        }
        let mut i: usize = 0;
        while i < self.num_hashes
            invariant
                i <= self.num_hashes <= NUM_SEEDS,
                self.num_hashes == old(self).num_hashes,
                old(self)@.wf(),
                self@ == old(self)@.insert_first(key@, i as nat),
            decreases self.num_hashes - i,
        {
            let h: u64 = fnv1a(key, Some(init_value(i)));
            proof {
                lemma_insert_first_shape(old(self)@, key@, i as nat);
            }
            self.set_idx(h);
            i += 1;
        }
    }

    /// Sets the position selected by the hash value `idx`.
    pub fn set_idx(&mut self, idx: u64)
        ensures
            final(self)@ == old(self)@.with_bit(old(self)@.slot(idx)),
    {
        proof {
            use_type_invariant(&*self);
        }
        let nbits: u128 = 8 * (self.data.len() as u128);
        let pos: u128 = (idx as u128) % nbits;
        let i: usize = (pos / 8) as usize;
        let j: u8 = (pos % 8) as u8;
        let b: u8 = self.data[i];
        self.data[i] = b | (1u8 << j);
    }
}

/// Bounds safety: whatever the hash value and the size of the bit array, the
/// selected position lies inside the array.
pub proof fn lemma_slot_in_bounds(v: FilterView, h: u64)
    requires
        v.bits.len() > 0,
    ensures
        0 <= v.slot(h) < v.bit_count(),
        0 <= v.slot(h) / 8 < v.bits.len(),
{
    lemma_mod_bound(h as int, v.bit_count());
}

/// Bounds safety for keys: each hash function assigns to each key a position
/// inside the bit array.
pub proof fn lemma_position_in_bounds(v: FilterView, key: Seq<u8>, i: int)
    requires
        v.bits.len() > 0,
    ensures
        0 <= v.position(key, i) < v.bit_count(),
{
    lemma_slot_in_bounds(v, fnv1a_hash(seed(i), key));
}

/// Setting positions changes neither the size of the bit array nor the hash
/// count.
pub proof fn lemma_insert_first_shape(v: FilterView, key: Seq<u8>, k: nat)
    requires
        v.bits.len() > 0,
    ensures
        v.insert_first(key, k).bits.len() == v.bits.len(),
        v.insert_first(key, k).num_hashes == v.num_hashes,
    decreases k,
{
    if k > 0 {
        lemma_insert_first_shape(v, key, (k - 1) as nat);
        lemma_position_in_bounds(v, key, k - 1);
    }
}

} // verus!
