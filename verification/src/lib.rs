//! Archivist: an encrypted, deduplicating, snapshot-based backup engine.
//!
//! This crate holds the verified core of the tool: content addressing,
//! authenticated encryption of stored objects, repository unlocking, the
//! on-disk object layout, and the decision procedures that drive backup,
//! restore, listing and integrity checking.

pub mod crypto;
pub mod text;
pub mod backup;
pub mod cli;
pub mod repo;
