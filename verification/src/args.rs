//! The command-line surface as plain data. Paths are raw byte strings, as
//! the operating system hands them over.

use vstd::prelude::*;

verus! {

/// Which source the signature is copied from.
pub enum SubCommand {
    /// A compressed image holding a nested index for one architecture.
    FromImage { path: Vec<u8>, arch: Vec<u8> },
    /// Another signed index.
    FromIndex { path: Vec<u8> },
    /// A raw signature file.
    FromFile { path: Vec<u8> },
}

/// Everything one run needs.
pub struct Args {
    /// Only show warnings.
    pub quiet: bool,
    /// More verbose logs, counted up from zero.
    pub verbose: u8,
    /// The index that should be signed.
    pub index_path: Vec<u8>,
    /// Where the signed index is written; may equal `index_path`.
    pub output_path: Vec<u8>,
    /// Where the signature comes from.
    pub subcommand: SubCommand,
}

} // verus!
