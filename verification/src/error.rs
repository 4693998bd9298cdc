//! Errors reported when a membership filter cannot be constructed.

use vstd::prelude::*;

verus! {

/// Why a membership filter could not be created or reconstructed.
#[derive(Clone, Copy, Debug, PartialEq, Eq, Structural)]
pub enum FilterError {
    /// The bit array would be empty, or the number of hash functions is zero
    /// or exceeds the number of available seeds.
    InvalidConfiguration,
    /// A snapshot is shorter than its header, or holds fewer bytes of bit
    /// array than its header declares.
    CorruptData,
}

} // verus!
