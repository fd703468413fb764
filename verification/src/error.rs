//! What can go wrong with an index file.

use vstd::prelude::*;

use crate::types::BtreeIndexSectionKind;

verus! {

/// The part of an index file that an error is about.
#[derive(Clone, Copy, Debug, PartialEq, Eq, Structural)]
pub enum BtreeIndexPart {
    Footer,
    IndexBlock,
    FilterBlock,
    DataBlock,
    IndexMeta,
    FileMeta,
    RowPayload,
}

/// An error of the index file format.
#[derive(Clone, Copy, Debug, PartialEq, Eq, Structural)]
pub enum BtreeIndexError {
    /// The compression that a file or writer names is not known.
    UnknownCompression,
    /// The footer lists no section of this kind.
    MissingSection { kind: BtreeIndexSectionKind },
    /// The file cannot hold a footer tail.
    FileTooSmall { file_len: u64 },
    /// The file does not end in the magic bytes.
    InvalidMagic,
    /// The footer would start before the file.
    InvalidFooterLength { footer_len: u64, file_len: u64 },
    /// The footer is of a version that this library does not read.
    UnsupportedVersion { version: u32 },
    /// The tail is not as long as a footer tail.
    InvalidTailLength { tail_len: u64 },
    /// The file is shorter than a footer tail.
    InvalidFileLength { file_len: u64 },
    /// The footer says that it starts after the end of the file.
    InvalidFooterOffset { offset: u64, file_len: u64 },
    /// The bytes before the footer do not have the checksum that it names.
    FileChecksumMismatch { expected: u32, actual: u32 },
    /// A section reaches past the end of the file.
    InvalidSectionRange { part: BtreeIndexPart, start: u64, end: u64, file_len: u64 },
    /// A section does not have the checksum that the footer names.
    SectionChecksumMismatch { part: BtreeIndexPart, expected: u32, actual: u32 },
    /// A data block reaches past the end of the file.
    InvalidDataBlockRange { start: u64, end: u64, file_len: u64 },
    /// A data block does not have the checksum that the index names.
    DataBlockChecksumMismatch { expected: u32, actual: u32 },
    /// A data block could not be compressed.
    Compress,
    /// A data block could not be decompressed.
    Decompress,
    /// The filter over the equality prefixes could not be built.
    BuildFilter,
    /// A part could not be encoded.
    Encode { part: BtreeIndexPart },
    /// A part could not be decoded.
    Decode { part: BtreeIndexPart },
    /// A key ends where the length of a component should stand.
    MissingComponentLength,
    /// A key component is not followed by a separator.
    MissingComponentSeparator,
    /// A value could not be encoded as a key component.
    EncodeComponent,
}

} // verus!
