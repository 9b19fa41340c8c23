//! What can go wrong while a workspace is scanned or a file is loaded or saved.

use vstd::prelude::*;

verus! {

/// A failure that the caller met on disk, or that the library found in what it was handed.
#[derive(Debug, Clone, Copy, PartialEq, Eq, Structural)]
pub enum Error {
    /// A directory could not be listed, or a file could not be read or written.
    Io,
    /// The folder chosen as a workspace is not a directory.
    NotADirectory,
    /// The file's bytes are not valid text.
    Encoding,
}

} // verus!
