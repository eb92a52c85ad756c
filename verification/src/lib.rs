//! Entity/component storage: bit sets, paged sparse sets, byte-record buffers,
//! and the registry and query layer built on top of them.

pub mod data_structures;
pub mod ecs;
