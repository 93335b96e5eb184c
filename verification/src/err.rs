//! Error kinds shared by every decoder in the crate.

use vstd::prelude::*;

verus! {

/// Why a decode (or a text-document rebuild) failed.
///
/// Every fallible step of the codec returns one of these; nothing is
/// swallowed. A failure is fatal to the file being processed: there is no
/// partial-record recovery.
#[derive(Clone, Copy, Debug, PartialEq, Eq, Structural)]
pub enum DecodeError {
    /// A variable-length integer ended mid-sequence or would exceed 64 bits.
    MalformedVarint,
    /// A length-prefixed string's bytes are not valid UTF-8.
    InvalidUtf8,
    /// The input ended before a field's declared extent.
    UnexpectedEof,
    /// A tagged value carried a discriminator byte outside the known range.
    UnknownTagCode,
    /// A section's payload consumed more bytes than its declared length.
    FrameOverrun,
    /// The file does not begin with the fixed magic prefix and header shape.
    InvalidHeader,
    /// A structured text document does not match the typed model's shape.
    TextDocumentMismatch,
}

} // verus!
