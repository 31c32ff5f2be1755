//! Core of a minimal content-addressed version-control tool: an object store
//! that hashes and compresses tagged byte blobs, the binary staging-index
//! format with its trailing checksum, and the tree-building step that turns a
//! staged index into a tree object.

pub mod encoding;
pub mod errors;
pub mod fs;
pub mod hashing;
pub mod index;
pub mod sub_commands;
pub mod text;
pub mod zlib;
