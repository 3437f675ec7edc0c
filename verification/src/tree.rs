//! The tree operations: search, insert, delete, and ordered traversal.

pub mod deallocate;
pub mod delete;
pub mod insert;
pub mod laws;
pub mod model;
pub mod order;
pub mod prefix;
pub mod range;
pub mod search;
pub mod traverse;
