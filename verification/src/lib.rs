//! Incremental, cache-backed recursive disk-usage aggregation.
//!
//! The library computes the recursive byte size and file count of a
//! directory tree over a plain snapshot of its entries, keeps the results
//! in a shared cache keyed by normalized path strings, guards against
//! duplicate in-flight computations, and builds sorted one-level listings
//! that can be returned before any recursive result is known.  All
//! filesystem reads, threading and event delivery live in the host
//! application; the library only ever sees plain values.

pub mod cache;
pub mod compute;
pub mod listing;
pub mod order;
pub mod path_norm;
pub mod progress;
pub mod records;
pub mod strutil;
