//! A typed, mutable, persistent map abstraction over an opaque two-primitive
//! key-value store.
//!
//! The crate has four parts, leaves first:
//!
//! * [`storage::to_storage_key`] — deterministic derivation of a fixed
//!   32-byte storage key from an arbitrary byte string (truncate or zero-pad).
//! * [`storage::StorageABI`] — the two-operation store contract
//!   (`get_kv` / `put_kv`), together with [`storage::Storage`], an in-memory
//!   implementation of it.
//! * [`codec`] — a generic encode/decode protocol for scalars, byte strings
//!   and (possibly nested) key-value collections. Every multi-byte quantity
//!   uses one fixed byte order, little-endian, applied uniformly.
//! * [`map::PersistentMap`] — an in-memory table of unique keys bound to one
//!   storage key, with a load / mutate / flush lifecycle.

pub mod codec;
pub mod map;
pub mod storage;
pub mod util;

mod assoc;
