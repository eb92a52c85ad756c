//! Archetype signatures.
//!
//! A combination of component types is written down as a bit set with one
//! flag for each type of the combination. Its signature is the fingerprint
//! of that bit set, so that equal combinations have equal signatures.

use vstd::prelude::*;
use vstd::std_specs::convert::FromSpecImpl;
use crate::data_structures::bit_set::BitSet;
use crate::data_structures::bit_set::fingerprint;

verus! {

/// The signature of a combination of component types, or the token by which a
/// caller names one component type when it registers it.
#[derive(Copy, Clone, PartialEq, Eq, Structural, Hash, Debug)]
pub struct ArchTypeUUID(pub usize);

/// The signature that a fingerprint gives: its low bits, as many as `usize`
/// has.
pub open spec fn signature_of(print: u64) -> usize {
    print as usize
}

impl ArchTypeUUID {
    /// The signature of the combination that `bitset` stands for. Bit sets
    /// that are equal have the same signature.
    pub fn of(bitset: &BitSet) -> (r: Self)
        ensures
            r == ArchTypeUUID(signature_of(fingerprint(bitset@))),
    {
        let print: u64 = bitset.hash_value();
        let narrowed: usize = #[verifier::truncate] (print as usize);
        ArchTypeUUID(narrowed)
    }
}

impl Default for ArchTypeUUID {
    fn default() -> (r: Self)
        ensures
            r == ArchTypeUUID(0),
    {
        ArchTypeUUID(0)
    }
}

impl From<usize> for ArchTypeUUID {
    fn from(value: usize) -> (r: Self) {
        ArchTypeUUID(value)
    }
}

impl FromSpecImpl<usize> for ArchTypeUUID {
    open spec fn obeys_from_spec() -> bool {
        true
    }

    open spec fn from_spec(value: usize) -> Self {
        ArchTypeUUID(value)
    }
}

impl From<ArchTypeUUID> for usize {
    fn from(val: ArchTypeUUID) -> (r: usize) {
        val.0
    }
}

impl FromSpecImpl<ArchTypeUUID> for usize {
    open spec fn obeys_from_spec() -> bool {
        true
    }

    open spec fn from_spec(val: ArchTypeUUID) -> usize {
        val.0
    }
}

} // verus!
