//! Codec for the RBR container format: length-framed, type-tagged sections
//! holding event-sheet scripts, entity headers and item records.
//!
//! The binary layer — variable-length integers, length-prefixed strings,
//! tag-dispatched values, section framing with a recomputed length field,
//! and the file container — is verified: every decoder and encoder carries
//! a contract that pins down exactly which bytes are consumed or produced,
//! and round-trip laws relate each encoder to its decoder.

pub mod bytes;
pub mod container;
pub mod err;
pub mod events;
pub mod hexcodec;
pub mod record;
pub mod section;
pub mod strings;
pub mod utf8;
pub mod validate;
pub mod varint;
