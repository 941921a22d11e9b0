//! A minimal persistent key-value store: byte-string keys mapped to `u64`
//! values, held in memory and mirrored to a single binary buffer that a
//! caller writes to disk.
//!
//! The on-disk format is a plain concatenation of entries, each entry being
//! a one-byte key length, the key's bytes, and the value as eight
//! little-endian bytes. `codec` defines the format and proves that decoding
//! inverts encoding; `store` holds the in-memory mapping and keeps it
//! well-formed (unique keys, key lengths that fit the length prefix).

pub mod codec;
pub mod store;
