//! Leaf containers that the storage layer is built from.

pub mod bit_set;
pub mod sparse_set;
pub mod type_erased_vec;
