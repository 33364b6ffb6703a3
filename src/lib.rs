//! An image similarity service's core: the in-memory index and its ranked query,
//! the commit step that keeps the index in line with the durable store, and the
//! shutdown lifecycle.

pub mod index;
pub mod lifecycle;
pub mod protocol;
