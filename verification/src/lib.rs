//! A minimal persistent key-value store: an append-only log of checksummed
//! records, and an in-memory index from each key to the offset of its most
//! recent record.
//!
//! The store keeps the log as a byte image. Every operation is a function of
//! that image and the index, so whoever owns the backing file only has to
//! hand over its bytes when the store is opened and write out the bytes that
//! each insertion appends.

pub mod checksum;
pub mod codec;
pub mod endian;
pub mod error;
pub mod index;
pub mod replay;
pub mod store;

pub use crate::codec::{decode, encode, Decoded, KeyValuePair};
pub use crate::error::Error;
pub use crate::index::Index;
pub use crate::store::RustyKV;
