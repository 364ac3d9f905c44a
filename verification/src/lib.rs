//! Codec for the `banjo` keyblock container format: a signed block that
//! bundles a set of encrypted key records.
//!
//! The crate is organised leaf-first: `wire` holds the byte-level model
//! of the format (little-endian scalars, NUL-terminated strings) together
//! with the executable readers and writers proved against it; `keyblock`
//! holds the `KeyFile` and `KeyBlock` records with their parse and
//! serialize routines, specified against a mathematical parser and
//! serializer over byte sequences; `laws` states and proves the
//! format-level guarantees (round-tripping, rejection of bad magic or
//! version, failure on truncation, last-record-wins on duplicate paths);
//! `utils` holds small helpers shared by the codec and its callers.

pub mod keyblock;
pub mod laws;
pub mod utils;
pub mod wire;
