//! A multi-dimensional, content-addressed record store with chunked
//! persistence and versioned encoding.
//!
//! Records (paper submissions and questions) are addressed by a tuple of
//! unsigned-integer dimension values derived from their content.  A `World`
//! partitions the dimension space into chunks, supports insertion, selection
//! by dimension constraints, exclusive per-record mutation leases, and
//! chunk-granular persistence through a byte codec.

pub mod clock;
pub mod codec;
pub mod data;
pub mod ident;
pub mod paper;
pub mod question;
pub mod questions;
pub mod world;

pub use codec::DecodeError;
