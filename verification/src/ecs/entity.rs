//! Entity identity.

use vstd::prelude::*;
use vstd::std_specs::convert::FromSpecImpl;

verus! {

/// The identity of an entity: a number and nothing else. The registry hands
/// identities out and takes them back; a number that was taken back may be
/// handed out again, for an entity that has nothing to do with the old one.
#[derive(Copy, Clone, PartialEq, Eq, Structural, Hash, Debug)]
pub struct EntityUUID(pub usize);

impl Default for EntityUUID {
    fn default() -> (r: Self)
        ensures
            r == EntityUUID(0),
    {
        EntityUUID(0)
    }
}

impl From<usize> for EntityUUID {
    fn from(value: usize) -> (r: Self) {
        EntityUUID(value)
    }
}

impl FromSpecImpl<usize> for EntityUUID {
    open spec fn obeys_from_spec() -> bool {
        true
    }

    open spec fn from_spec(value: usize) -> Self {
        EntityUUID(value)
    }
}

impl From<EntityUUID> for usize {
    fn from(val: EntityUUID) -> (r: usize) {
        val.0
    }
}

impl FromSpecImpl<EntityUUID> for usize {
    open spec fn obeys_from_spec() -> bool {
        true
    }

    open spec fn from_spec(val: EntityUUID) -> usize {
        val.0
    }
}

} // verus!
