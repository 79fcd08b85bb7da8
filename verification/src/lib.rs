//! A keyed store of vectors with nearest-first ranking of scored candidates,
//! all-or-nothing loading of stored snapshots, the byte lanes of the
//! placeholder embedding, and digest-keeping access tokens.
//!
//! Numbers never appear as numbers here: a vector component and a score are
//! each carried as the bit pattern of an IEEE-754 binary32 value.

pub mod auth;
pub mod embedding;
pub mod persist;
pub mod search;
pub mod store;
pub mod text;
