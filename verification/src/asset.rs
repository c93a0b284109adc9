//! The metadata record of one packed file, and the error kinds of the
//! archive system.

use vstd::prelude::*;

verus! {

/// One packed file's metadata: where its bytes lie in the blob and its
/// best-effort content type.
#[derive(Debug)]
pub struct Asset {
    /// Byte offset into the blob where this asset's content begins.
    pub offset: u64,
    /// Byte length of the asset's content.
    pub len: u64,
    /// Best-effort content type, possibly empty, stored verbatim.
    pub mime: String,
}

/// Mathematical shape of an [`Asset`].
pub ghost struct AssetModel {
    pub offset: u64,
    pub len: u64,
    pub mime: Seq<char>,
}

impl View for Asset {
    type V = AssetModel;

    open spec fn view(&self) -> AssetModel {
        AssetModel { offset: self.offset, len: self.len, mime: self.mime@ }
    }
}

/// The error kinds of the archive system.
#[derive(Debug, PartialEq, Eq)]
pub enum ArchiveError {
    /// A destination path is occupied and overwriting was not allowed.
    AlreadyExists,
    /// A destination path is occupied by something other than a regular
    /// file or symlink.
    InvalidTarget,
    /// An underlying filesystem operation failed.
    IoError,
    /// The index text violates the line format; holds the offending line.
    MalformedIndex(String),
}

} // verus!
