//! Extracts a package-index signature from a container image, a signed index,
//! or a bare file, and splices it onto an unsigned index: a trimmed
//! single-entry tar fragment holding the signature is gzip-compressed and
//! prepended to the raw index bytes.

pub mod archive;
pub mod args;
pub mod bytes;
pub mod errors;
pub mod gzip;
pub mod locator;
pub mod octal;
pub mod signer;
pub mod utf8;
