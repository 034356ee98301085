//! An identity gateway engine: it issues, validates and revokes
//! signed session credentials on behalf of a set of identities, backed by a
//! pluggable durable-storage layer.
//!
//! The crate is organised leaf-first:
//! - [`errors`] — the error kinds every operation surfaces;
//! - [`codec`] — the byte encodings of stored records and tokens, with
//!   round-trip proofs;
//! - [`storage`] — the capability contract for durable key/value
//!   persistence, and an in-memory implementation;
//! - [`keys`] — the key material manager: signing, verification, rotation
//!   with a retirement grace period;
//! - [`engine`] — the identity store and the session/token engine;
//! - [`public_api`] / [`admin_api`] — the privilege boundary: two disjoint
//!   capability sets over the same engine;
//! - [`laws`] — proofs of the engine-wide guarantees.

pub mod admin_api;
pub mod codec;
pub mod engine;
pub mod errors;
pub mod keys;
pub mod laws;
pub mod public_api;
pub mod storage;
