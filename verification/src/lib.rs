//! A small key-value storage engine with per-key versioning.
//!
//! The engine keeps, for every key, a byte-string value together with a
//! version token that strictly advances on every successful write.  On top
//! of the versioned record store it offers:
//!
//! - basic operations: `contains`, `get`, `set`, `delete`, `list_keys`;
//! - batch operations: `set_many`, `get_many` (absent keys are omitted from
//!   the result, never reported as `None` entries), `delete_many`;
//! - atomics: `increment` (read-modify-write on an eight-byte little-endian
//!   integer value) and an optimistic compare-and-swap handle (`Cas`) that
//!   captures a key's version at read time and commits only if that version
//!   is still current.

pub mod atomics;
pub mod batch;
pub mod codec;
pub mod store;
