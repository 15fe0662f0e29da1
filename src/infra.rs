//! Primitives underneath the object store: hashing and compression.

pub mod compression;
pub mod hash;
