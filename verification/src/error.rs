//! The decode/encode failure taxonomy.  Every failure aborts the current
//! call and surfaces as one of these; nothing is recovered locally.

use vstd::prelude::*;

verus! {

/// Why a decode or encode call failed.
#[derive(Clone, Copy, Debug, PartialEq, Eq, Structural)]
pub enum BflytError {
    /// The file signature or a section signature did not match.
    BadMagic,
    /// The byte-order marker was not the little-endian sentinel.
    UnsupportedByteOrder,
    /// A read ran past the end of the buffer or of a section span.
    TruncatedInput,
    /// A declared length is inconsistent with the bytes actually consumed.
    SizeMismatch,
    /// A stored offset resolves outside its section span, or an offset
    /// chain nests deeper than the input could possibly encode.
    OffsetOutOfRange,
    /// A scope-end marker without a matching open scope, or unclosed
    /// scopes at the end of the section stream.
    UnbalancedScope,
}

} // verus!
