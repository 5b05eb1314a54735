//! The error type of the engine.

use vstd::prelude::*;

verus! {

/// What can go wrong while samples are ingested or blocks are written.
#[derive(Debug, Clone, PartialEq, Eq)]
pub enum Error {
    /// The sample's type is `Unknown`, or is not the type of its field.
    UnsupportedType,
    /// The cache has been frozen and takes no more samples.
    CacheFrozen,
    /// The block codec refused the data.
    WriteTsmErr { reason: String },
    /// The file manager failed.
    IoErr { reason: String },
    /// The byte buffer is shorter than the scalar it should hold.
    DecodeErr,
}

} // verus!
