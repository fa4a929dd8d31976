//! Verified core of a video-concatenation utility.
//!
//! The library selects the files to concatenate (prefix and
//! case-insensitive extension filters, lexicographic order), renders the
//! manifest that the external encoder reads, and fixes the argument list
//! the encoder is invoked with.  All file-system and subprocess work is
//! left to the binary around the library.

pub mod errors;
pub mod manifest;
pub mod names;
pub mod order;
pub mod scan;
