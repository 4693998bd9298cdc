//! What holds of every membership filter: inserted keys are always found,
//! inserting is idempotent, and set bits are never cleared.

use vstd::prelude::*;
use crate::bloom::{bit_of, with_bit_of, lemma_position_in_bounds, lemma_insert_first_shape, FilterView};

verus! {

proof fn lemma_bit_set(b: u8, j: u8)
    by (bit_vector)
    requires
        j < 8,
    ensures
        (b | (1u8 << j)) & (1u8 << j) != 0,
{
}

proof fn lemma_bit_kept(b: u8, j: u8, k: u8)
    by (bit_vector)
    requires
        j < 8,
        k < 8,
        j != k,
    ensures
        ((b | (1u8 << j)) & (1u8 << k) != 0) == (b & (1u8 << k) != 0),
{
}

proof fn lemma_bit_absorbed(b: u8, j: u8)
    by (bit_vector)
    requires
        j < 8,
        b & (1u8 << j) != 0,
    ensures
        b | (1u8 << j) == b,
{
}

/// Setting position `q` sets `q` and changes no other position.
pub proof fn lemma_with_bit_sets(v: FilterView, q: int, p: int)
    requires
        0 <= q < v.bit_count(),
        0 <= p < v.bit_count(),
    ensures
        v.with_bit(q).is_set(p) == (v.is_set(p) || p == q),
{
    let b = v.bits[q / 8];
    if p / 8 == q / 8 {
        if p % 8 == q % 8 {
            lemma_bit_set(b, (q % 8) as u8);
        } else {
            lemma_bit_kept(b, (q % 8) as u8, (p % 8) as u8);
        }
    }
}

/// Setting a position that is already set changes nothing.
pub proof fn lemma_with_bit_absorbed(v: FilterView, q: int)
    requires
        0 <= q < v.bit_count(),
        v.is_set(q),
    ensures
        v.with_bit(q) == v,
{
    lemma_bit_absorbed(v.bits[q / 8], (q % 8) as u8);
    assert(v.with_bit(q).bits =~= v.bits);
}

/// A position is set after the first `k` hash functions of `key` have been
/// applied exactly when it was set before or one of them points at it.
pub proof fn lemma_insert_first_sets(v: FilterView, key: Seq<u8>, k: nat, p: int)
    requires
        v.bits.len() > 0,
        0 <= p < v.bit_count(),
    ensures
        v.insert_first(key, k).is_set(p) <==> v.is_set(p) || exists|i: int|
            0 <= i < k && p == #[trigger] v.position(key, i),
    decreases k,
{
    if k > 0 {
        let before = v.insert_first(key, (k - 1) as nat);
        let q = v.position(key, k - 1);
        lemma_insert_first_sets(v, key, (k - 1) as nat, p);
        lemma_insert_first_shape(v, key, (k - 1) as nat);
        lemma_position_in_bounds(v, key, k - 1);
        lemma_with_bit_sets(before, q, p);
    }
}

/// After `key` is inserted, the set positions are those that were set before
/// and those that the hash functions assign to `key`.
pub proof fn lemma_insert_sets(v: FilterView, key: Seq<u8>, p: int)
    requires
        v.wf(),
        0 <= p < v.bit_count(),
    ensures
        v.insert(key).is_set(p) <==> v.is_set(p) || exists|i: int|
            0 <= i < v.num_hashes && p == #[trigger] v.position(key, i),
{
    lemma_insert_first_sets(v, key, v.num_hashes, p);
}

/// Inserting keeps a filter well formed, with the same number of positions
/// and of hash functions.
pub proof fn lemma_insert_shape(v: FilterView, key: Seq<u8>)
    requires
        v.wf(),
    ensures
        v.insert(key).wf(),
        v.insert(key).bits.len() == v.bits.len(),
        v.insert(key).num_hashes == v.num_hashes,
{
    lemma_insert_first_shape(v, key, v.num_hashes);
}

/// Inserting a sequence of keys keeps a filter well formed, with the same
/// number of positions and of hash functions.
pub proof fn lemma_insert_all_shape(v: FilterView, keys: Seq<Seq<u8>>)
    requires
        v.wf(),
    ensures
        v.insert_all(keys).wf(),
        v.insert_all(keys).bits.len() == v.bits.len(),
        v.insert_all(keys).num_hashes == v.num_hashes,
    decreases keys.len(),
{
    if keys.len() > 0 {
        lemma_insert_all_shape(v, keys.drop_last());
        lemma_insert_shape(v.insert_all(keys.drop_last()), keys.last());
    }
}

/// Monotonicity: inserting a key clears no position.
pub proof fn lemma_insert_keeps_bits(v: FilterView, key: Seq<u8>, p: int)
    requires
        v.wf(),
        0 <= p < v.bit_count(),
        v.is_set(p),
    ensures
        v.insert(key).is_set(p),
{
    lemma_insert_sets(v, key, p);
}

/// Monotonicity: no sequence of insertions clears a position.
pub proof fn lemma_insert_all_keeps_bits(v: FilterView, keys: Seq<Seq<u8>>, p: int)
    requires
        v.wf(),
        0 <= p < v.bit_count(),
        v.is_set(p),
    ensures
        v.insert_all(keys).is_set(p),
    decreases keys.len(),
{
    if keys.len() > 0 {
        lemma_insert_all_keeps_bits(v, keys.drop_last(), p);
        lemma_insert_all_shape(v, keys.drop_last());
        lemma_insert_keeps_bits(v.insert_all(keys.drop_last()), keys.last(), p);
    }
}

/// `after` has the shape of `before` and every position that is set in
/// `before` is set in `after`.
pub open spec fn never_cleared(before: FilterView, after: FilterView) -> bool {
    &&& after.bits.len() == before.bits.len()
    &&& after.num_hashes == before.num_hashes
    &&& forall|p: int| 0 <= p < before.bit_count() && before.is_set(p) ==> after.is_set(p)
}

/// Monotonicity: the filter after an insertion holds every bit that the
/// filter held before it.
pub proof fn lemma_insert_never_clears(v: FilterView, key: Seq<u8>)
    requires
        v.wf(),
    ensures
        never_cleared(v, v.insert(key)),
{
    lemma_insert_shape(v, key);
    assert forall|p: int| 0 <= p < v.bit_count() && v.is_set(p) implies v.insert(key).is_set(
        p,
    ) by {
        lemma_insert_keeps_bits(v, key, p);
    }
}

/// Monotonicity: setting one position clears none.
pub proof fn lemma_with_bit_never_clears(v: FilterView, q: int)
    requires
        0 <= q < v.bit_count(),
    ensures
        never_cleared(v, v.with_bit(q)),
{
    assert forall|p: int| 0 <= p < v.bit_count() && v.is_set(p) implies v.with_bit(q).is_set(
        p,
    ) by {
        lemma_with_bit_sets(v, q, p);
    }
}

/// No false negatives: a key is found right after it has been inserted.
pub proof fn lemma_inserted_key_is_found(v: FilterView, key: Seq<u8>)
    requires
        v.wf(),
    ensures
        v.insert(key).contains(key),
{
    let after = v.insert(key);
    lemma_insert_shape(v, key);
    assert forall|i: int| 0 <= i < after.num_hashes implies after.is_set(
        #[trigger] after.position(key, i),
    ) by {
        lemma_position_in_bounds(v, key, i);
        assert(after.position(key, i) == v.position(key, i));
        lemma_insert_sets(v, key, v.position(key, i));
    }
}

/// No false negatives: a key that is found stays found when another key is
/// inserted.
pub proof fn lemma_found_key_stays_found(v: FilterView, key: Seq<u8>, other: Seq<u8>)
    requires
        v.wf(),
        v.contains(key),
    ensures
        v.insert(other).contains(key),
{
    let after = v.insert(other);
    lemma_insert_shape(v, other);
    assert forall|i: int| 0 <= i < after.num_hashes implies after.is_set(
        #[trigger] after.position(key, i),
    ) by {
        lemma_position_in_bounds(v, key, i);
        assert(after.position(key, i) == v.position(key, i));
        lemma_insert_keeps_bits(v, other, v.position(key, i));
    }
}

/// No false negatives: a key that is found stays found through any sequence
/// of later insertions.
pub proof fn lemma_found_key_stays_found_after(v: FilterView, key: Seq<u8>, others: Seq<Seq<u8>>)
    requires
        v.wf(),
        v.contains(key),
    ensures
        v.insert_all(others).contains(key),
    decreases others.len(),
{
    if others.len() > 0 {
        lemma_found_key_stays_found_after(v, key, others.drop_last());
        lemma_insert_all_shape(v, others.drop_last());
        lemma_found_key_stays_found(v.insert_all(others.drop_last()), key, others.last());
    }
}

/// No false negatives: once inserted, a key is found whatever is inserted
/// afterwards.
pub proof fn lemma_no_false_negatives(v: FilterView, key: Seq<u8>, others: Seq<Seq<u8>>)
    requires
        v.wf(),
    ensures
        v.insert(key).insert_all(others).contains(key),
{
    lemma_inserted_key_is_found(v, key);
    lemma_insert_shape(v, key);
    lemma_found_key_stays_found_after(v.insert(key), key, others);
}

proof fn lemma_insert_first_absorbed(v: FilterView, key: Seq<u8>, k: nat)
    requires
        v.wf(),
        k <= v.num_hashes,
        v.contains(key),
    ensures
        v.insert_first(key, k) == v,
    decreases k,
{
    if k > 0 {
        lemma_insert_first_absorbed(v, key, (k - 1) as nat);
        lemma_position_in_bounds(v, key, k - 1);
        lemma_with_bit_absorbed(v, v.position(key, k - 1));
    }
}

/// Inserting a key that is already found leaves the filter as it is.
pub proof fn lemma_insert_found_key(v: FilterView, key: Seq<u8>)
    requires
        v.wf(),
        v.contains(key),
    ensures
        v.insert(key) == v,
{
    lemma_insert_first_absorbed(v, key, v.num_hashes);
}

/// Idempotence: inserting a key twice gives the same bit array as inserting
/// it once.
pub proof fn lemma_insert_idempotent(v: FilterView, key: Seq<u8>)
    requires
        v.wf(),
    ensures
        v.insert(key).insert(key) == v.insert(key),
{
    lemma_inserted_key_is_found(v, key);
    lemma_insert_shape(v, key);
    lemma_insert_found_key(v.insert(key), key);
}

} // verus!
