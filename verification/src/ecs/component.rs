//! Component values and their identities.

use vstd::prelude::*;

verus! {

/// The number of one component value.
pub type ComponentUUID = usize;

/// The identity of a component type: a small number that the registry
/// assigns when the type is first registered, and that also is the type's
/// flag in the bit set of an entity.
pub type ComponentTypeUUID = usize;

/// A value that can be attached to an entity.
pub trait Component: Sized {
    /// The value that an entity gets where the caller supplies none.
    fn new() -> Self;
}

/// A component value together with its number.
pub struct EntityComponent<T: Component> {
    pub uuid: ComponentUUID,
    pub component: T,
}

} // verus!
