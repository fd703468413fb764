//! The layout of an index file: data blocks, filter, index, footer, footer length, magic bytes.

use std::ops::Range;

use vstd::prelude::*;

use crate::codec;
use crate::codec::{crc32, crc32_of, decoded_file_meta, decoded_filter, decoded_footer,
    decoded_index, decoded_meta, decoded_rows, encoded_meta};
use crate::error::{BtreeIndexError, BtreeIndexPart};
use crate::lex::{le32, read_le32};
use crate::record::{blocks_from_records, footer_from_record, kinds_known, meta_from_record,
    meta_record};
use crate::types::{kind_index, rows_view};
use crate::types::{BlockModel, FileMetaModel, FilterModel, FooterModel, MetaModel, RowModel,
    SectionModel};
use crate::types::{BtreeIndexFilterBlock, BtreeIndexFooter, BtreeIndexIndexBlock, BtreeIndexMeta,
    BtreeIndexRow, BtreeIndexSection, BtreeIndexSectionKind};

verus! {

/// The last bytes of every index file: `DBBTREE1`.
pub const BTREE_INDEX_MAGIC: [u8; 8] = [0x44, 0x42, 0x42, 0x54, 0x52, 0x45, 0x45, 0x31];

/// The version of the format that this library writes and reads.
pub const BTREE_INDEX_FILE_VERSION: u32 = 2;

/// The size that a data block reaches before the next one is begun.
pub const DEFAULT_BTREE_INDEX_DATA_BLOCK_SIZE: usize = 65536;

/// The bits of the filter per equality prefix.
pub const DEFAULT_BTREE_INDEX_BLOOM_BITS_PER_KEY: u64 = 10;

/// The seed of the filter.
pub const BTREE_INDEX_BLOOM_SEED: u64 = 0;

/// The bytes after the footer: its length and the magic bytes.
pub const BTREE_INDEX_FOOTER_TAIL_SIZE: usize = 12;

/// The value of a decoding that read every byte, or its error; nothing where bytes were left over.
pub open spec fn whole<T>(decoded: Option<(T, int)>, len: int, part: BtreeIndexPart) -> Option<
    Result<T, BtreeIndexError>,
> {
    match decoded {
        None => Some(Err(BtreeIndexError::Decode { part })),
        Some(d) => if d.1 == len {
            Some(Ok(d.0))
        } else {
            None
        },
    }
}

/// What reading `bytes` as a footer gives: a footer, or an error; nothing where bytes are left
/// over.
pub open spec fn footer_outcome(bytes: Seq<u8>) -> Option<Result<FooterModel, BtreeIndexError>> {
    match decoded_footer(bytes) {
        None => Some(Err(BtreeIndexError::Decode { part: BtreeIndexPart::Footer })),
        Some(d) => if !kinds_known(d.0.6) {
            Some(Err(BtreeIndexError::Decode { part: BtreeIndexPart::Footer }))
        } else if d.1 != bytes.len() {
            None
        } else if d.0.0 != BTREE_INDEX_FILE_VERSION {
            Some(Err(BtreeIndexError::UnsupportedVersion { version: d.0.0 }))
        } else {
            Some(Ok(d.0))
        },
    }
}

/// Where the footer of a file stands.
pub open spec fn footer_place(data: Seq<u8>) -> Result<(int, int), BtreeIndexError> {
    let n = data.len() as int;
    if n < BTREE_INDEX_FOOTER_TAIL_SIZE {
        Err(BtreeIndexError::FileTooSmall { file_len: n as u64 })
    } else if data.subrange(n - 8, n) != BTREE_INDEX_MAGIC@ {
        Err(BtreeIndexError::InvalidMagic)
    } else {
        let footer_len = le32(data.subrange(n - 12, n - 8));
        if footer_len > n - 12 {
            Err(
                BtreeIndexError::InvalidFooterLength {
                    footer_len: footer_len as u64,
                    file_len: n as u64,
                },
            )
        } else {
            Ok((n - 12 - footer_len, n - 12))
        }
    }
}

/// What reading the footer of a file gives; nothing where its bytes hold more than a footer.
pub open spec fn file_footer_outcome(data: Seq<u8>) -> Option<
    Result<FooterModel, BtreeIndexError>,
> {
    match footer_place(data) {
        Err(e) => Some(Err(e)),
        Ok(place) => footer_outcome(data.subrange(place.0, place.1)),
    }
}

/// Where the footer of a file of `file_len` bytes with this tail stands.
pub open spec fn tail_place(file_len: u64, tail: Seq<u8>) -> Result<(int, int), BtreeIndexError> {
    if tail.len() != BTREE_INDEX_FOOTER_TAIL_SIZE {
        Err(BtreeIndexError::InvalidTailLength { tail_len: tail.len() as u64 })
    } else if tail.subrange(4, 12) != BTREE_INDEX_MAGIC@ {
        Err(BtreeIndexError::InvalidMagic)
    } else {
        let footer_len = le32(tail.subrange(0, 4));
        if file_len < BTREE_INDEX_FOOTER_TAIL_SIZE {
            Err(BtreeIndexError::InvalidFileLength { file_len })
        } else if footer_len > file_len - 12 {
            Err(BtreeIndexError::InvalidFooterLength { footer_len: footer_len as u64, file_len })
        } else {
            Ok((file_len - 12 - footer_len, file_len - 12))
        }
    }
}

/// The first section of a kind.
pub open spec fn first_section(sections: Seq<SectionModel>, kind: u32) -> Option<SectionModel>
    decreases sections.len(),
{
    if sections.len() == 0 {
        None
    } else if sections[0].0 == kind {
        Some(sections[0])
    } else {
        first_section(sections.skip(1), kind)
    }
}

/// What looking for a section of a kind gives.
pub open spec fn section_outcome(
    sections: Seq<SectionModel>,
    kind: BtreeIndexSectionKind,
) -> Result<SectionModel, BtreeIndexError> {
    match first_section(sections, kind_index(kind)) {
        Some(section) => Ok(section),
        None => Err(BtreeIndexError::MissingSection { kind }),
    }
}

/// What checking the bytes before the footer against its checksum gives.
pub open spec fn checksum_outcome(data: Seq<u8>, footer: FooterModel) -> Result<
    (),
    BtreeIndexError,
> {
    match section_outcome(footer.6, BtreeIndexSectionKind::Footer) {
        Err(e) => Err(e),
        Ok(section) => if section.1 > data.len() {
            Err(
                BtreeIndexError::InvalidFooterOffset {
                    offset: section.1,
                    file_len: data.len() as u64,
                },
            )
        } else {
            let actual = crc32(data.subrange(0, section.1 as int));
            if actual != footer.5 {
                Err(BtreeIndexError::FileChecksumMismatch { expected: footer.5, actual })
            } else {
                Ok(())
            }
        },
    }
}

/// What checking a section's bytes against its checksum gives; a checksum of zero is not checked.
pub open spec fn section_checksum_outcome(
    section: SectionModel,
    bytes: Seq<u8>,
    part: BtreeIndexPart,
) -> Result<(), BtreeIndexError> {
    if section.3 == 0 || crc32(bytes) == section.3 {
        Ok(())
    } else {
        Err(
            BtreeIndexError::SectionChecksumMismatch {
                part,
                expected: section.3,
                actual: crc32(bytes),
            },
        )
    }
}

/// What taking a section's bytes out of a file gives; nothing where its end is past every number.
pub open spec fn section_bytes_outcome(
    data: Seq<u8>,
    section: SectionModel,
    part: BtreeIndexPart,
) -> Option<Result<Seq<u8>, BtreeIndexError>> {
    if section.1 + section.2 > u64::MAX {
        None
    } else if section.1 + section.2 > data.len() {
        Some(
            Err(
                BtreeIndexError::InvalidSectionRange {
                    part,
                    start: section.1,
                    end: (section.1 + section.2) as u64,
                    file_len: data.len() as u64,
                },
            ),
        )
    } else {
        let bytes = data.subrange(section.1 as int, section.1 + section.2);
        match section_checksum_outcome(section, bytes, part) {
            Err(e) => Some(Err(e)),
            Ok(_) => Some(Ok(bytes)),
        }
    }
}

/// What reading `bytes` as an index block gives; nothing where bytes are left over.
pub open spec fn index_outcome(bytes: Seq<u8>) -> Option<Result<Seq<BlockModel>, BtreeIndexError>> {
    whole(decoded_index(bytes), bytes.len() as int, BtreeIndexPart::IndexBlock)
}

/// What reading `bytes` as a filter block gives; nothing where bytes are left over.
pub open spec fn filter_outcome(bytes: Seq<u8>) -> Option<Result<FilterModel, BtreeIndexError>> {
    whole(decoded_filter(bytes), bytes.len() as int, BtreeIndexPart::FilterBlock)
}

/// What reading `bytes` as the rows of a data block gives; nothing where bytes are left over.
pub open spec fn rows_outcome(bytes: Seq<u8>) -> Option<Result<Seq<RowModel>, BtreeIndexError>> {
    whole(decoded_rows(bytes), bytes.len() as int, BtreeIndexPart::DataBlock)
}

/// What reading `bytes` as a file's metadata gives; nothing where bytes are left over.
pub open spec fn meta_outcome(bytes: Seq<u8>) -> Option<Result<MetaModel, BtreeIndexError>> {
    whole(decoded_meta(bytes), bytes.len() as int, BtreeIndexPart::IndexMeta)
}

/// What reading `bytes` as footer, index and filter gives; nothing where bytes are left over.
pub open spec fn file_meta_outcome(bytes: Seq<u8>) -> Option<
    Result<FileMetaModel, BtreeIndexError>,
> {
    match decoded_file_meta(bytes) {
        None => Some(Err(BtreeIndexError::Decode { part: BtreeIndexPart::FileMeta })),
        Some(d) => if !kinds_known(d.0.0.6) {
            Some(Err(BtreeIndexError::Decode { part: BtreeIndexPart::FileMeta }))
        } else if d.1 != bytes.len() {
            None
        } else {
            Some(Ok(d.0))
        },
    }
}

/// The first section of this kind that the footer lists.
pub fn btree_index_section(footer: &BtreeIndexFooter, kind: BtreeIndexSectionKind) -> (r: Result<
    &BtreeIndexSection,
    BtreeIndexError,
>)
    ensures
        match r {
            Ok(section) => section_outcome(footer@.6, kind) == Ok::<_, BtreeIndexError>(section@)
                && section.kind == kind,
            Err(e) => section_outcome(footer@.6, kind) == Err::<SectionModel, _>(e),
        },
{
    let sections = &footer.sections;
    let mut i: usize = 0;
    proof {
        assert(footer@.6.skip(0) =~= footer@.6);
    }
    while i < sections.len()
        invariant
            sections@ == footer.sections@,
            i <= sections@.len(),
            first_section(footer@.6, kind_index(kind)) == first_section(
                footer@.6.skip(i as int),
                kind_index(kind),
            ),
        decreases sections@.len() - i,
    {
        let ghost rest = footer@.6.skip(i as int);
        proof {
            assert(rest[0] == sections@[i as int]@);
        }
        if sections[i].kind == kind {
            return Ok(&sections[i]);
        }
        proof {
            assert(rest.skip(1) =~= footer@.6.skip(i + 1));
        }
        i = i + 1;
    }
    Err(BtreeIndexError::MissingSection { kind })
}

/// Reads a footer; `None` where the bytes hold more than a footer.
fn footer_from_bytes(bytes: &[u8]) -> (r: Option<Result<BtreeIndexFooter, BtreeIndexError>>)
    ensures
        match r {
            None => footer_outcome(bytes@) is None,
            Some(Ok(footer)) => footer_outcome(bytes@) == Some(
                Ok::<_, BtreeIndexError>(footer@),
            ) && footer.meta.wf(),
            Some(Err(e)) => footer_outcome(bytes@) == Some(Err::<FooterModel, _>(e)),
        },
{
    match codec::decode_footer(bytes) {
        Err(_) => Some(Err(BtreeIndexError::Decode { part: BtreeIndexPart::Footer })),
        Ok((record, len)) => {
            match footer_from_record(record) {
                None => Some(Err(BtreeIndexError::Decode { part: BtreeIndexPart::Footer })),
                Some(footer) => {
                    if len != bytes.len() {
                        None
                    } else if footer.version != BTREE_INDEX_FILE_VERSION {
                        Some(Err(BtreeIndexError::UnsupportedVersion { version: footer.version }))
                    } else {
                        Some(Ok(footer))
                    }
                },
            }
        },
    }
}

/// Reads the bytes of a footer.
pub fn decode_btree_footer_bytes(footer_bytes: &[u8]) -> (r: Result<
    BtreeIndexFooter,
    BtreeIndexError,
>)
    requires
        footer_outcome(footer_bytes@) is Some,
    ensures
        match r {
            Ok(footer) => footer_outcome(footer_bytes@) == Some(
                Ok::<_, BtreeIndexError>(footer@),
            ) && footer.meta.wf(),
            Err(e) => footer_outcome(footer_bytes@) == Some(Err::<FooterModel, _>(e)),
        },
{
    footer_from_bytes(footer_bytes).unwrap()
}

/// Reads the bytes of a footer; `None` where they hold more than a footer.
pub fn try_decode_btree_footer_bytes(footer_bytes: &[u8]) -> (r: Option<
    Result<BtreeIndexFooter, BtreeIndexError>,
>)
    ensures
        match r {
            None => footer_outcome(footer_bytes@) is None,
            Some(Ok(footer)) => footer_outcome(footer_bytes@) == Some(
                Ok::<_, BtreeIndexError>(footer@),
            ) && footer.meta.wf(),
            Some(Err(e)) => footer_outcome(footer_bytes@) == Some(Err::<FooterModel, _>(e)),
        },
{
    match footer_from_bytes(footer_bytes) {
        None => None,
        Some(_) => Some(decode_btree_footer_bytes(footer_bytes)),
    }
}

/// Whether the eight bytes at `offset` are the magic bytes.
fn magic_at(data: &[u8], offset: usize) -> (r: bool)
    requires
        offset + 8 <= data@.len(),
    ensures
        r == (data@.subrange(offset as int, offset + 8) == BTREE_INDEX_MAGIC@),
{
    let magic: [u8; 8] = BTREE_INDEX_MAGIC;
    assert(data@.len() == data.len());
    let mut i: usize = 0;
    while i < 8
        invariant
            offset + 8 <= data@.len() <= usize::MAX,
            magic@ == BTREE_INDEX_MAGIC@,
            i <= 8,
            forall|k: int| 0 <= k < i ==> #[trigger] magic@[k] == data@[offset + k],
        decreases 8 - i,
    {
        if data[offset + i] != magic[i] {
            assert(data@.subrange(offset as int, offset + 8)[i as int] != magic@[i as int]);
            return false;
        }
        i = i + 1;
    }
    assert(data@.subrange(offset as int, offset + 8) =~= BTREE_INDEX_MAGIC@);
    true
}

/// Where the footer stands in a file of `file_len` bytes, given the last bytes of the file.
pub fn btree_footer_range(file_len: u64, tail: &[u8]) -> (r: Result<Range<u64>, BtreeIndexError>)
    ensures
        match r {
            Ok(range) => tail_place(file_len, tail@) == Ok::<_, BtreeIndexError>(
                (range.start as int, range.end as int),
            ) && range.start <= range.end,
            Err(e) => tail_place(file_len, tail@) == Err::<(int, int), _>(e),
        },
{
    if tail.len() != BTREE_INDEX_FOOTER_TAIL_SIZE {
        return Err(BtreeIndexError::InvalidTailLength { tail_len: tail.len() as u64 });
    }
    if !magic_at(tail, 4) {
        return Err(BtreeIndexError::InvalidMagic);
    }
    let footer_len: u64 = read_le32(tail, 0) as u64;
    if file_len < 12 {
        return Err(BtreeIndexError::InvalidFileLength { file_len });
    }
    let footer_end: u64 = file_len - 12;
    if footer_len > footer_end {
        return Err(BtreeIndexError::InvalidFooterLength { footer_len, file_len });
    }
    Ok(footer_end - footer_len..footer_end)
}

/// Finds the footer of a file.
fn footer_bounds(data: &[u8]) -> (r: Result<(usize, usize), BtreeIndexError>)
    ensures
        match r {
            Ok(place) => footer_place(data@) == Ok::<_, BtreeIndexError>(
                (place.0 as int, place.1 as int),
            ) && place.0 <= place.1 <= data@.len(),
            Err(e) => footer_place(data@) == Err::<(int, int), _>(e),
        },
{
    let n: usize = data.len();
    if n < BTREE_INDEX_FOOTER_TAIL_SIZE {
        return Err(BtreeIndexError::FileTooSmall { file_len: n as u64 });
    }
    if !magic_at(data, n - 8) {
        return Err(BtreeIndexError::InvalidMagic);
    }
    let footer_len: u32 = read_le32(data, n - 12);
    let footer_end: usize = n - 12;
    if footer_len as u64 > footer_end as u64 {
        return Err(
            BtreeIndexError::InvalidFooterLength {
                footer_len: footer_len as u64,
                file_len: n as u64,
            },
        );
    }
    Ok((footer_end - footer_len as usize, footer_end))
}

/// Reads the footer of a file; `None` where its bytes hold more than a footer.
pub(crate) fn footer_of_file(data: &[u8]) -> (r: Option<Result<BtreeIndexFooter, BtreeIndexError>>)
    ensures
        match r {
            None => file_footer_outcome(data@) is None,
            Some(Ok(footer)) => file_footer_outcome(data@) == Some(
                Ok::<_, BtreeIndexError>(footer@),
            ) && footer.meta.wf(),
            Some(Err(e)) => file_footer_outcome(data@) == Some(Err::<FooterModel, _>(e)),
        },
{
    match footer_bounds(data) {
        Err(e) => Some(Err(e)),
        Ok((start, end)) => footer_from_bytes(vstd::slice::slice_subrange(data, start, end)),
    }
}

/// Reads the footer of a file.
pub fn decode_footer(data: &[u8]) -> (r: Result<BtreeIndexFooter, BtreeIndexError>)
    requires
        file_footer_outcome(data@) is Some,
    ensures
        match r {
            Ok(footer) => file_footer_outcome(data@) == Some(
                Ok::<_, BtreeIndexError>(footer@),
            ) && footer.meta.wf(),
            Err(e) => file_footer_outcome(data@) == Some(Err::<FooterModel, _>(e)),
        },
{
    footer_of_file(data).unwrap()
}

/// Reads the footer of a file; `None` where its bytes hold more than a footer.
pub fn try_decode_footer(data: &[u8]) -> (r: Option<Result<BtreeIndexFooter, BtreeIndexError>>)
    ensures
        match r {
            None => file_footer_outcome(data@) is None,
            Some(Ok(footer)) => file_footer_outcome(data@) == Some(
                Ok::<_, BtreeIndexError>(footer@),
            ) && footer.meta.wf(),
            Some(Err(e)) => file_footer_outcome(data@) == Some(Err::<FooterModel, _>(e)),
        },
{
    match footer_of_file(data) {
        None => None,
        Some(_) => Some(decode_footer(data)),
    }
}

/// Checks the bytes before the footer against its checksum.
pub fn validate_checksum(data: &[u8], footer: &BtreeIndexFooter) -> (r: Result<(), BtreeIndexError>)
    ensures
        r == checksum_outcome(data@, footer@),
{
    let section = match btree_index_section(footer, BtreeIndexSectionKind::Footer) {
        Ok(section) => section,
        Err(e) => {
            return Err(e);
        },
    };
    if section.offset > data.len() as u64 {
        return Err(
            BtreeIndexError::InvalidFooterOffset {
                offset: section.offset,
                file_len: data.len() as u64,
            },
        );
    }
    let actual: u32 = crc32_of(vstd::slice::slice_subrange(data, 0, section.offset as usize));
    if actual != footer.checksum {
        return Err(BtreeIndexError::FileChecksumMismatch { expected: footer.checksum, actual });
    }
    Ok(())
}

/// Checks a section's bytes against its checksum; a checksum of zero is not checked.
pub fn validate_section_checksum(
    section: &BtreeIndexSection,
    bytes: &[u8],
    part: BtreeIndexPart,
) -> (r: Result<(), BtreeIndexError>)
    ensures
        r == section_checksum_outcome(section@, bytes@, part),
{
    if section.checksum == 0 {
        return Ok(());
    }
    let actual: u32 = crc32_of(bytes);
    if actual != section.checksum {
        return Err(
            BtreeIndexError::SectionChecksumMismatch { part, expected: section.checksum, actual },
        );
    }
    Ok(())
}

/// Takes a section's bytes out of a file; `None` where its end is past every number.
pub fn section_bytes<'a>(data: &'a [u8], section: &BtreeIndexSection, part: BtreeIndexPart) -> (r:
    Option<Result<&'a [u8], BtreeIndexError>>)
    ensures
        match r {
            None => section_bytes_outcome(data@, section@, part) is None,
            Some(Ok(bytes)) => section_bytes_outcome(data@, section@, part) == Some(
                Ok::<_, BtreeIndexError>(bytes@),
            ),
            Some(Err(e)) => section_bytes_outcome(data@, section@, part) == Some(
                Err::<Seq<u8>, _>(e),
            ),
        },
{
    let start: u64 = section.offset;
    let end: u64 = match start.checked_add(section.length) {
        Some(end) => end,
        None => {
            return None;
        },
    };
    if end > data.len() as u64 {
        return Some(
            Err(
                BtreeIndexError::InvalidSectionRange {
                    part,
                    start,
                    end,
                    file_len: data.len() as u64,
                },
            ),
        );
    }
    let bytes = vstd::slice::slice_subrange(data, start as usize, end as usize);
    match validate_section_checksum(section, bytes, part) {
        Err(e) => Some(Err(e)),
        Ok(_) => Some(Ok(bytes)),
    }
}

/// Reads an index block; `None` where the bytes hold more than one.
pub(crate) fn index_from_bytes(bytes: &[u8]) -> (r: Option<
    Result<BtreeIndexIndexBlock, BtreeIndexError>,
>)
    ensures
        match r {
            None => index_outcome(bytes@) is None,
            Some(Ok(index)) => index_outcome(bytes@) == Some(Ok::<_, BtreeIndexError>(index@)),
            Some(Err(e)) => index_outcome(bytes@) == Some(Err::<Seq<BlockModel>, _>(e)),
        },
{
    match codec::decode_index(bytes) {
        Err(_) => Some(Err(BtreeIndexError::Decode { part: BtreeIndexPart::IndexBlock })),
        Ok((records, len)) => if len != bytes.len() {
            None
        } else {
            Some(Ok(BtreeIndexIndexBlock { data_blocks: blocks_from_records(&records) }))
        },
    }
}

/// Reads a filter block; `None` where the bytes hold more than one.
pub(crate) fn filter_from_bytes(bytes: &[u8]) -> (r: Option<
    Result<BtreeIndexFilterBlock, BtreeIndexError>,
>)
    ensures
        match r {
            None => filter_outcome(bytes@) is None,
            Some(Ok(filter)) => filter_outcome(bytes@) == Some(Ok::<_, BtreeIndexError>(filter@)),
            Some(Err(e)) => filter_outcome(bytes@) == Some(Err::<FilterModel, _>(e)),
        },
{
    match codec::decode_filter(bytes) {
        Err(_) => Some(Err(BtreeIndexError::Decode { part: BtreeIndexPart::FilterBlock })),
        Ok((filter, len)) => if len != bytes.len() {
            None
        } else {
            Some(Ok(filter))
        },
    }
}

/// Reads the rows of a data block; `None` where the bytes hold more than rows.
pub(crate) fn rows_from_bytes(bytes: &[u8]) -> (r: Option<
    Result<Vec<BtreeIndexRow>, BtreeIndexError>,
>)
    ensures
        match r {
            None => rows_outcome(bytes@) is None,
            Some(Ok(rows)) => rows_outcome(bytes@) == Some(
                Ok::<_, BtreeIndexError>(rows_view(rows@)),
            ),
            Some(Err(e)) => rows_outcome(bytes@) == Some(Err::<Seq<RowModel>, _>(e)),
        },
{
    match codec::decode_rows(bytes) {
        Err(_) => Some(Err(BtreeIndexError::Decode { part: BtreeIndexPart::DataBlock })),
        Ok((rows, len)) => if len != bytes.len() {
            None
        } else {
            Some(Ok(rows))
        },
    }
}

/// The encoded form of a file's metadata.
pub fn encode_btree_index_meta(meta: &BtreeIndexMeta) -> (r: Result<Vec<u8>, BtreeIndexError>)
    ensures
        r matches Ok(bytes) && bytes@ == encoded_meta(meta@) && (meta.wf() ==> meta_outcome(bytes@)
            == Some(Ok::<_, BtreeIndexError>(meta@))),
{
    let record = meta_record(meta);
    match codec::encode_meta(&record) {
        Ok(bytes) => Ok(bytes),
        Err(_) => Err(BtreeIndexError::Encode { part: BtreeIndexPart::IndexMeta }),
    }
}

fn meta_from_bytes(bytes: &[u8]) -> (r: Option<Result<BtreeIndexMeta, BtreeIndexError>>)
    ensures
        match r {
            None => meta_outcome(bytes@) is None,
            Some(Ok(meta)) => meta_outcome(bytes@) == Some(Ok::<_, BtreeIndexError>(meta@))
                && meta.wf(),
            Some(Err(e)) => meta_outcome(bytes@) == Some(Err::<MetaModel, _>(e)),
        },
{
    match codec::decode_meta(bytes) {
        Err(_) => Some(Err(BtreeIndexError::Decode { part: BtreeIndexPart::IndexMeta })),
        Ok((record, len)) => if len != bytes.len() {
            None
        } else {
            Some(Ok(meta_from_record(record)))
        },
    }
}

/// Reads a file's metadata.
pub fn decode_btree_index_meta(bytes: &[u8]) -> (r: Result<BtreeIndexMeta, BtreeIndexError>)
    requires
        meta_outcome(bytes@) is Some,
    ensures
        match r {
            Ok(meta) => meta_outcome(bytes@) == Some(Ok::<_, BtreeIndexError>(meta@))
                && meta.wf(),
            Err(e) => meta_outcome(bytes@) == Some(Err::<MetaModel, _>(e)),
        },
{
    meta_from_bytes(bytes).unwrap()
}

/// Reads a file's metadata; `None` where the bytes hold more than that.
pub fn try_decode_btree_index_meta(bytes: &[u8]) -> (r: Option<
    Result<BtreeIndexMeta, BtreeIndexError>,
>)
    ensures
        match r {
            None => meta_outcome(bytes@) is None,
            Some(Ok(meta)) => meta_outcome(bytes@) == Some(Ok::<_, BtreeIndexError>(meta@))
                && meta.wf(),
            Some(Err(e)) => meta_outcome(bytes@) == Some(Err::<MetaModel, _>(e)),
        },
{
    match meta_from_bytes(bytes) {
        None => None,
        Some(_) => Some(decode_btree_index_meta(bytes)),
    }
}

/// The last bytes of a file place its footer as the file itself does.
pub proof fn lemma_tail_places_footer(data: Seq<u8>)
    requires
        BTREE_INDEX_FOOTER_TAIL_SIZE <= data.len() <= u64::MAX,
    ensures
        tail_place(data.len() as u64, data.subrange(data.len() - 12, data.len() as int))
            == footer_place(data),
{
    let n = data.len() as int;
    let tail = data.subrange(n - 12, n);
    assert(tail.subrange(4, 12) =~= data.subrange(n - 8, n));
    assert(tail.subrange(0, 4) =~= data.subrange(n - 12, n - 8));
}

} // verus!
