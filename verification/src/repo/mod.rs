//! The repository: its object types, sealed object format, objects, layout
//! on disk, and the keys that unlock it.

pub mod backend;
pub mod sealed;
pub mod local;
pub mod init;
pub mod open;
pub mod blob;
pub mod tree;
pub mod snapshot;
