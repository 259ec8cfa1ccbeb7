//! Inverted-file product quantization: the integer core of an approximate
//! nearest-neighbour index.
//!
//! Every floating-point quantity is carried as the 64-bit pattern of an
//! IEEE-754 double. The library moves, compares and selects such patterns;
//! it never does arithmetic on them.

pub mod constants;
pub mod primitive_types;
pub mod maxheap_wrapper;
pub mod inverted_index;
pub mod model;
pub mod search;
pub mod text;
pub mod serialization;
pub mod db_api;
pub mod engine;
