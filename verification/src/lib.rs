//! Exact prime-field persistence certificates, their byte formats, and the
//! algebra that checks them.
//!
//! The functions of this crate carry proved contracts, except the few
//! trusted wrappers around hash tables, sorting, and SHA-256, whose
//! contracts restate what those calls do. The data types model the
//! filtered graph, the sparse boundary matrices, and the `HOLOSRED`
//! certificate envelope with plain integers: a filtration
//! value is held by its IEEE-754 bit pattern, which orders non-negative
//! values the same way as their numeric order.

pub mod budget;
pub mod certificate;
pub mod circular;
pub mod classes;
pub mod diagram;
pub mod digest;
pub mod error;
pub mod field;
pub mod graph;
pub mod text;
