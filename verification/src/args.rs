//! The command-line surface, as plain data. The binary around the library
//! parses its arguments into these shapes and dispatches on them.

use vstd::prelude::*;

verus! {

/// A parsed invocation.
pub struct Arguments {
    pub command: Commands,
}

/// What the user asked for.
pub enum Commands {
    /// Extract an archive file to a directory, optionally writing a text
    /// file that lists the extracted names.
    Unpack { input: String, output: Option<String>, save_filenames: bool },
    /// Create an archive file from input files, in `Pak` format unless
    /// `kub` is set, optionally suppressing stored filenames.
    Pack { output: String, inputs: Vec<String>, kub: bool, no_filenames: bool },
    /// Compress one file with the external byte codec.
    Compress { input: String, output: Option<String> },
    /// Decompress one file with the external byte codec.
    Decompress { input: String, output: Option<String> },
}

} // verus!
