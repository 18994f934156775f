//! An embedded vector-similarity store: named collections of fixed-dimension
//! embeddings, nearest-neighbour selection under a chosen metric, and
//! metadata equality filters.
//!
//! Vector components and scores are held as IEEE 754 single-precision bit
//! patterns in `u32`; the arithmetic on them is done by the caller, and this
//! library stores, filters, ranks and persists them.

pub mod similarity;
pub mod topk;
pub mod text;
pub mod strmap;
pub mod filter;
pub mod model;
pub mod collection;
pub mod snapshot;
pub mod db;
pub mod laws;
pub mod search;
pub mod errors;
pub mod system;
