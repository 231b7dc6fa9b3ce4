//! A single-process MapReduce execution engine.
//!
//! The engine drives the classic two-phase map/shuffle/reduce computation:
//! caller-supplied mappers emit `(key, value)` byte-string pairs through an
//! [`store::Emitter`] into a partitioned intermediate store, and once the map
//! phase has fully drained, each partition's keys are visited in sorted order
//! and handed to a caller-supplied reducer together with a [`store::Getter`]
//! over that key's values.

pub mod bytes;
pub mod carray;
pub mod engine;
pub mod hash;
pub mod store;
pub mod threadpool;
