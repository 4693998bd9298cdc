//! The persisted form of a membership filter. Little-endian throughout:
//! bytes 0-3 hold the number of hash functions as a signed 32-bit integer,
//! bytes 4-11 the length of the bit array in bytes as an unsigned 64-bit
//! integer, and the bit array follows.

use vstd::prelude::*;
use crate::bloom::FilterView;
use crate::endian::{
    i32_le_bytes, le_i32, le_u64, lemma_i32_round_trip, lemma_u64_round_trip, u64_le_bytes,
};
use crate::error::FilterError;
use crate::hash::NUM_SEEDS;

verus! {

/// Length of the snapshot header in bytes.
pub const HEADER_LEN: usize = 12;

/// The snapshot of a filter: the header followed by the bit array.
pub open spec fn snapshot_of(v: FilterView) -> Seq<u8> {
    i32_le_bytes(v.num_hashes as int) + u64_le_bytes(v.bits.len() as int) + v.bits
}

/// The number of hash functions that the header of `bytes` declares.
pub open spec fn declared_hashes(bytes: Seq<u8>) -> int {
    le_i32(bytes.subrange(0, 4))
}

/// The length of the bit array that the header of `bytes` declares.
pub open spec fn declared_len(bytes: Seq<u8>) -> int {
    le_u64(bytes.subrange(4, 12))
}

/// What loading `bytes` gives. A snapshot shorter than its header is corrupt;
/// a header that declares no hash function, more hash functions than there
/// are seeds, or an empty bit array declares no filter; a snapshot with fewer
/// bytes after the header than it declares is corrupt. Bytes beyond the
/// declared length are ignored.
pub open spec fn parse_snapshot(bytes: Seq<u8>) -> Result<FilterView, FilterError> {
    if bytes.len() < HEADER_LEN {
        Err(FilterError::CorruptData)
    } else if declared_hashes(bytes) < 1 || declared_hashes(bytes) > NUM_SEEDS || declared_len(
        bytes,
    ) == 0 {
        Err(FilterError::InvalidConfiguration)
    } else if bytes.len() - HEADER_LEN < declared_len(bytes) {
        Err(FilterError::CorruptData)
    } else {
        Ok(
            FilterView {
                bits: bytes.subrange(HEADER_LEN as int, HEADER_LEN + declared_len(bytes)),
                num_hashes: declared_hashes(bytes) as nat,
            },
        )
    }
}

/// Whatever loads is a well-formed filter.
pub proof fn lemma_parsed_is_well_formed(bytes: Seq<u8>)
    ensures
        parse_snapshot(bytes) matches Ok(v) ==> v.wf(),
{
}

/// Snapshot round trip: loading the snapshot of a filter gives back the same
/// bit array and the same number of hash functions.
pub proof fn lemma_snapshot_round_trip(v: FilterView)
    requires
        v.wf(),
        v.bits.len() <= u64::MAX,
    ensures
        parse_snapshot(snapshot_of(v)) == Ok::<FilterView, FilterError>(v),
{
    let bytes = snapshot_of(v);
    lemma_i32_round_trip(v.num_hashes as int);
    lemma_u64_round_trip(v.bits.len() as int);
    assert(bytes.subrange(0, 4) =~= i32_le_bytes(v.num_hashes as int));
    assert(bytes.subrange(4, 12) =~= u64_le_bytes(v.bits.len() as int));
    assert(bytes.subrange(HEADER_LEN as int, HEADER_LEN + v.bits.len()) =~= v.bits);
}

} // verus!
