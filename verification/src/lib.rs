//! A small issue tracker's persistence and domain layer.
//!
//! The library owns the canonical in-memory representation of all epics and
//! stories, allocates identifiers from a single monotonically increasing
//! counter, enforces referential integrity between the two entity kinds, and
//! performs every mutation as an atomic read-modify-write cycle against a
//! pluggable storage backend.

pub mod codec;
pub mod db;
pub mod models;
pub mod roundtrip;
