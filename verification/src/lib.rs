//! CAST: a lossless preprocessing codec for line-oriented text.
//!
//! Each input line is split into a reusable skeleton (the invariant
//! punctuation and keywords) and a vector of variable tokens.  Variables in
//! the same position of the same skeleton are regrouped into columnar
//! streams, which an entropy backend then compresses.  The container keeps a
//! footer of row-group entries so that single row ranges can be decompressed
//! without reading the whole archive.

use vstd::prelude::*;

pub mod bytes_le;
pub mod escape;
pub mod tokenizer;
pub mod latin1;
pub mod column;
pub mod registry;
pub mod backend;
pub mod oracle;
pub mod serializer;
pub mod compressor;
pub mod decompressor;
pub mod deserializer;
pub mod container;

verus! {

/// Fatal decoding failures; soft conditions (binary input, placeholder
/// collisions, entropy bailout) never surface as errors but as passthrough
/// blocks.
#[derive(Clone, Copy, Debug, PartialEq, Eq, Structural)]
pub enum CastError {
    /// A block is shorter than its fixed header.
    BlockTooShort,
    /// The registry or id lengths in a block header overrun the block.
    CorruptedHeader,
    /// The registry bytes are not valid UTF-8.
    RegistryNotUtf8,
    /// The id stream length is not a multiple of the id element size.
    IdStreamMisaligned,
    /// The archive tail does not end in the expected magic bytes.
    BadMagic,
    /// The footer offset or a group entry points outside the archive.
    CorruptedFooter,
    /// The reconstructed bytes do not match the recorded checksum.
    CrcMismatch,
    /// The entropy backend rejected a compressed block.
    BackendFailure,
}

impl CastError {
    /// A short human-readable description of the failure.
    pub fn message(&self) -> (r: &'static str)
    {
        match self {
            CastError::BlockTooShort => "block too short",
            CastError::CorruptedHeader => "corrupted block header",
            CastError::RegistryNotUtf8 => "registry not UTF-8",
            CastError::IdStreamMisaligned => "id stream misaligned",
            CastError::BadMagic => "missing magic footer",
            CastError::CorruptedFooter => "corrupted footer",
            CastError::CrcMismatch => "crc check failed",
            CastError::BackendFailure => "backend failure",
        }
    }
}

} // verus!
