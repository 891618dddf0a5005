//! A content-addressable object store: files are split into fixed-size blocks
//! named by their SHA-1 digest, and the ordered block list is folded into a
//! Merkle tree whose nodes are stored as small text records.

pub mod block;
pub mod compression;
pub mod error;
pub mod fs;
pub mod hash;
pub mod index;
pub mod round_trip;
pub mod store;
pub mod tree;
