//! The direction of a transform through the external byte codec that `Kub`
//! containers use. The codec itself is a foreign library; the binary around
//! this crate calls it and hands the resulting bytes in and out.

use vstd::prelude::*;

verus! {

/// Which way a buffer is to be transformed.
#[derive(Copy, Clone, PartialEq, Eq, Structural, Debug)]
pub enum CompressAction {
    Decompress,
    Compress,
}

} // verus!
