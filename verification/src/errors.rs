use vstd::prelude::*;

verus! {

/// The operation an error came out of.
#[derive(Clone, Copy, Debug, PartialEq, Eq, Structural)]
pub enum Op {
    /// Reading the outer image archive.
    Image,
    /// Reading an index archive (standalone or nested in an image).
    Index,
    /// Looking for the signature entry.
    Signature,
    /// Deriving a file's base name.
    FileName,
    /// Fitting the entry name into a tar header.
    EntryName,
    /// The reproducibility timestamp.
    Timestamp,
}

/// What can go wrong while locating a signature or rebuilding an archive,
/// each carrying the operation it came out of.
#[derive(Clone, Copy, Debug, PartialEq, Eq, Structural)]
pub enum Error {
    /// The bytes are not valid gzip or tar data, or a value does not fit
    /// the archive format.
    Format(Op),
    /// No matching entry exists in the archive.
    NotFound(Op),
    /// A file name could not be derived, or an entry name does not fit a
    /// tar header.
    Path(Op),
}

} // verus!
