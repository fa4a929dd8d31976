//! Error taxonomy of the utility.  Every error is terminal: the caller
//! reports it and stops, nothing is retried.

use vstd::prelude::*;

verus! {

/// What can go wrong while scanning the source directory, writing the
/// manifest, or launching the external encoder.
///
/// A non-zero exit of the encoder itself is *not* an error: it is
/// reported as a boolean result, since only spawning can fail here.
#[derive(Debug, Clone, Copy, PartialEq, Eq, Structural)]
pub enum Error {
    /// The directory to scan does not exist.
    FolderNotFound,
    /// The directory exists but cannot be opened for listing.
    AccessDenied,
    /// Reserved for callers that match exhaustively; never produced here.
    FileNotFound,
    /// The manifest file could not be created.
    CreateOutputError,
    /// The manifest file could not be fully written.
    WriteFileError,
    /// The external encoder could not be spawned.
    CommandError,
}

} // verus!
