//! A typed embedded key-value store with secondary indices, together with the
//! pure logic of a repository-metadata synchronizer that feeds it.
//!
//! The store turns an ordered byte key-value engine into a schema-aware layer
//! with automatic index maintenance under transactions; keys are encoded so
//! that byte order equals semantic order, and values round-trip through a
//! structured codec.
//!
//! Two boundaries are deliberate. The engine is an in-memory model of an
//! ordered byte store: it gives snapshot reads, writers that see their own
//! writes, atomic commit and abort-by-drop, but nothing is written to disk —
//! `Database::open` records its path as a name only, and durability across
//! runs lies outside this crate. And the value codec is strict: a decoder
//! accepts exactly the valid encodings of the current row shape, so there is
//! no defaulting of fields missing from an older shape; with no persisted
//! rows, no older shape can occur.

pub mod lex;
pub mod codec;
pub mod store;
pub mod table;
pub mod ops;
pub mod values;
pub mod keys;
pub mod data;
pub mod laws;
pub mod repomd;
pub mod primary;
pub mod updateinfo;
pub mod modulemd;
pub mod repolist;
pub mod sync;
pub mod magic;
pub mod strutil;
pub mod scan;
