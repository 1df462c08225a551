//! A verifiable per-cell accounting ledger over a large 2D grid.
//!
//! Each cell of the grid accumulates entitlement units through deposits over
//! rectangular regions and releases them through proof-verified withdrawals.
//! The full grid is never trusted as stored: a Merkle root commits to the
//! per-cell state, and every withdrawal must present a Merkle proof for each
//! cell it claims.

pub mod board;
pub mod dictionary;
pub mod hashing;
pub mod ledger;
pub mod mapper;
pub mod merkle;
pub mod vote;
