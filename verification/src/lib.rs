pub mod archive;
pub mod args;
pub mod bytes;
pub mod format;
pub mod inputs;
pub mod lzrw3a;
pub mod names;
pub mod roundtrip;
pub mod zlib;

use vstd::prelude::*;

verus! {

/// What can go wrong in the codec.
///
/// `Format` covers an empty entry count and an unrecognized compression
/// signature; `Bounds` an offset, size or table record that lies beyond the
/// end of the stream; `Codec` a compression transform that reports failure;
/// `Contract` a request that the container type does not admit.
#[derive(Copy, Clone, PartialEq, Eq, Structural, Debug)]
pub enum ArchiveError {
    Format,
    Bounds,
    Codec,
    Contract,
}

/// The two container formats the codec understands.
///
/// `Pak` stores zlib-compressed payloads together with an embedded filename
/// table; `Kub` stores payloads compressed by an external byte codec and
/// carries no filenames.
#[derive(Copy, Clone, PartialEq, Eq, Structural, Debug)]
pub enum ArchiveType {
    Pak,
    Kub,
}

} // verus!
