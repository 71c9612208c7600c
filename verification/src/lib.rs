//! Tree-structured orchestration of an n-party two-round signing protocol.
//!
//! The crate builds a deterministic balanced binary aggregation tree over a
//! sequence of participant public keys and runs the two signing rounds over
//! that tree. The single-pair signing primitives themselves (key aggregation,
//! commitment generation, partial signatures, verification) are injected by
//! the caller as function values with stated contracts; everything the
//! orchestration decides — tree shape, traversal order, what is read from and
//! written to the per-node state store — is verified here.

pub mod bintree;
pub mod error;
pub mod rounds;
pub mod store;
