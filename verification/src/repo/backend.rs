//! The kinds of objects a repository stores.

use vstd::prelude::*;
use vstd::string::StringSliceAdditionalSpecFns;

verus! {

/// The kind of a stored object. Each kind lives in its own directory and is
/// encrypted with its own associated data, so an object of one kind is never
/// accepted as another.
#[derive(Clone, Copy, Debug, PartialEq, Eq)]
pub enum ObjectType {
    Blob,
    Tree,
    Snapshot,
}

/// The directory (under `objects/`) that holds objects of kind `t`.
pub open spec fn object_dir(t: ObjectType) -> Seq<char> {
    match t {
        ObjectType::Blob => "blobs"@,
        ObjectType::Tree => "trees"@,
        ObjectType::Snapshot => "snapshots"@,
    }
}

/// The associated data authenticated with every object of kind `t`.
pub open spec fn object_ad(t: ObjectType) -> Seq<u8> {
    match t {
        ObjectType::Blob => "archivist-blob-v1".spec_bytes(),
        ObjectType::Tree => "archivist-tree-v1".spec_bytes(),
        ObjectType::Snapshot => "archivist-snapshot-v1".spec_bytes(),
    }
}

impl ObjectType {
    /// The directory name for this kind of object.
    pub fn dir_name(self) -> (name: &'static str)
        ensures
            name@ == object_dir(self),
    {
        match self {
            ObjectType::Blob => "blobs",
            ObjectType::Tree => "trees",
            ObjectType::Snapshot => "snapshots",
        }
    }

    /// The associated data authenticated with this kind of object.
    pub fn associated_data(self) -> (ad: &'static [u8])
        ensures
            ad@ == object_ad(self),
    {
        match self {
            ObjectType::Blob => "archivist-blob-v1".as_bytes(),
            ObjectType::Tree => "archivist-tree-v1".as_bytes(),
            ObjectType::Snapshot => "archivist-snapshot-v1".as_bytes(),
        }
    }
}

} // verus!
