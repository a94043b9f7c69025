//! Client-side decoder for the marker-tagged statistics stream of the FTL
//! daemon.
//!
//! A response is a sequence of MessagePack-encoded scalars closed by a
//! reserved end-of-message byte. [`session::Session`] walks such a response
//! value by value, [`record`] reads whole records against a schema, driven
//! by the state machine of [`machine`], and [`stats`] and [`ftldb`] assemble
//! the per-command results. [`wire`] and [`record`] say over byte sequences
//! what each read yields; [`encode`] says how values are written and proves
//! that what is written is read back.

pub mod command;
pub mod encode;
pub mod error;
pub mod field;
pub mod ftldb;
pub mod machine;
pub mod record;
mod rmp_calls;
pub mod session;
pub mod stats;
pub mod tally;
pub mod wire;
