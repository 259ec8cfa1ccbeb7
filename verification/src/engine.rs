//! The engine around the index: identifiers, distance conventions, and the
//! cluster lists that name which vectors belong to which cluster.

pub mod distance;
pub mod inverted_list;
pub mod types;
