//! Reading an index file: opening it, and looking keys up in it.

use std::ops::Range;

use bytes::Bytes;

use vstd::prelude::*;

use crate::codec;
use crate::codec::{bytes_as_slice, bytes_of, crc32, crc32_of, encoded_file_meta};
use crate::error::{BtreeIndexError, BtreeIndexPart};
use crate::format::{btree_index_section, checksum_outcome, file_footer_outcome, file_meta_outcome,
    filter_from_bytes, filter_outcome, footer_of_file, index_from_bytes, index_outcome,
    rows_from_bytes, rows_outcome, section_bytes, section_bytes_outcome, section_checksum_outcome,
    section_outcome, validate_checksum, validate_section_checksum};
use crate::lex::{bytes_clone, bytes_eq, bytes_le, bytes_lt, bytes_start_with, has_prefix, lex_le,
    lex_lt};
use crate::record::{block_records, blocks_from_records, footer_from_record, footer_record,
    kinds_known};
use crate::types::{blocks_view, rows_view};
use crate::types::{BlockModel, FileMetaModel, FilterModel, FooterModel, RowModel};
use crate::types::{BtreeIndexDataBlockMeta, BtreeIndexFilterBlock, BtreeIndexFooter,
    BtreeIndexIndexBlock, BtreeIndexRow, BtreeIndexSectionKind, CommonCompression};

verus! {

/// What a reader keeps of a file: its footer, its index and its filter.
#[derive(Debug)]
pub struct BtreeIndexFileMeta {
    pub footer: BtreeIndexFooter,
    pub index_block: BtreeIndexIndexBlock,
    pub filter_block: BtreeIndexFilterBlock,
}

/// A file that was opened.
#[derive(Debug)]
pub struct BtreeIndexFileView {
    data: Bytes,
    footer: BtreeIndexFooter,
    index_block: BtreeIndexIndexBlock,
    filter_block: BtreeIndexFilterBlock,
    compression: CommonCompression,
}

/// What an open file consists of.
pub struct FileModel {
    pub data: Seq<u8>,
    pub footer: FooterModel,
    pub blocks: Seq<BlockModel>,
    pub filter: FilterModel,
    pub compression: CommonCompression,
}

impl View for BtreeIndexFileMeta {
    type V = FileMetaModel;

    open spec fn view(&self) -> FileMetaModel {
        (self.footer@, self.index_block@, self.filter_block@)
    }
}

impl View for BtreeIndexFileView {
    type V = FileModel;

    closed spec fn view(&self) -> FileModel {
        FileModel {
            data: bytes_of(self.data),
            footer: self.footer@,
            blocks: self.index_block@,
            filter: self.filter_block@,
            compression: self.compression,
        }
    }
}

/// A data block with these first and last keys may hold a key that begins with `prefix`.
pub open spec fn block_may_hold_prefix(block: BlockModel, prefix: Seq<u8>) -> bool {
    ||| has_prefix(block.0, prefix)
    ||| has_prefix(block.1, prefix)
    ||| lex_lt(block.0, prefix) && lex_le(prefix, block.1)
}

/// The key lies between `start` and `end`, both ends included; an empty `end` is no bound.
pub open spec fn in_key_range(key: Seq<u8>, start: Seq<u8>, end: Seq<u8>) -> bool {
    lex_le(start, key) && (end.len() == 0 || lex_le(key, end))
}

/// A data block with these first and last keys may hold a key between `start` and `end`.
pub open spec fn block_may_hold_range(block: BlockModel, start: Seq<u8>, end: Seq<u8>) -> bool {
    lex_le(start, block.1) && (end.len() == 0 || lex_le(block.0, end))
}

/// What is looked up: one key, the keys with a prefix, or the keys in a range.
#[derive(Debug)]
pub enum BtreeIndexQuery {
    Exact { key: Vec<u8> },
    Prefix { prefix: Vec<u8>, limit: Option<usize> },
    Range { start: Vec<u8>, end: Vec<u8> },
}

/// The model of a query.
pub enum QueryModel {
    Exact { key: Seq<u8> },
    Prefix { prefix: Seq<u8>, limit: Option<usize> },
    Range { start: Seq<u8>, end: Seq<u8> },
}

impl View for BtreeIndexQuery {
    type V = QueryModel;

    open spec fn view(&self) -> QueryModel {
        match self {
            BtreeIndexQuery::Exact { key } => QueryModel::Exact { key: key@ },
            BtreeIndexQuery::Prefix { prefix, limit } => QueryModel::Prefix {
                prefix: prefix@,
                limit: *limit,
            },
            BtreeIndexQuery::Range { start, end } => QueryModel::Range { start: start@, end: end@ },
        }
    }
}

impl QueryModel {
    /// A row with this key is asked for.
    pub open spec fn asks_for(self, key: Seq<u8>) -> bool {
        match self {
            QueryModel::Exact { key: wanted } => key == wanted,
            QueryModel::Prefix { prefix, .. } => has_prefix(key, prefix),
            QueryModel::Range { start, end } => in_key_range(key, start, end),
        }
    }

    /// A data block may hold a row that is asked for.
    pub open spec fn may_be_in(self, block: BlockModel) -> bool {
        match self {
            QueryModel::Exact { key } => block_may_hold_range(block, key, key),
            QueryModel::Prefix { prefix, .. } => block_may_hold_prefix(block, prefix),
            QueryModel::Range { start, end } => block_may_hold_range(block, start, end),
        }
    }

    /// The number of rows at which the lookup ends. A limit of zero ends it at the first row.
    pub open spec fn row_limit(self) -> Option<nat> {
        match self {
            QueryModel::Prefix { limit: Some(n), .. } => Some(
                if n == 0 {
                    1
                } else {
                    n as nat
                },
            ),
            _ => None,
        }
    }

    /// The limit is reached with `n` rows.
    pub open spec fn is_full(self, n: nat) -> bool {
        match self.row_limit() {
            Some(limit) => n >= limit,
            None => false,
        }
    }

    /// The rows, cut at the limit.
    pub open spec fn limited(self, rows: Seq<RowModel>) -> Seq<RowModel> {
        match self.row_limit() {
            Some(limit) => if rows.len() > limit {
                rows.take(limit as int)
            } else {
                rows
            },
            None => rows,
        }
    }
}

/// The rows that are asked for, in their order.
pub open spec fn hits(query: QueryModel, rows: Seq<RowModel>) -> Seq<RowModel>
    decreases rows.len(),
{
    if rows.len() == 0 {
        Seq::empty()
    } else {
        let rest = hits(query, rows.drop_last());
        if query.asks_for(rows.last().0) {
            rest.push(rows.last())
        } else {
            rest
        }
    }
}

/// The blocks that may hold a row that is asked for, in their order.
pub open spec fn candidate_blocks(query: QueryModel, blocks: Seq<BlockModel>) -> Seq<BlockModel>
    decreases blocks.len(),
{
    if blocks.len() == 0 {
        Seq::empty()
    } else {
        let rest = candidate_blocks(query, blocks.drop_last());
        if query.may_be_in(blocks.last()) {
            rest.push(blocks.last())
        } else {
            rest
        }
    }
}

/// What taking a data block's bytes out of a file gives; nothing where its end is past every
/// number.
pub open spec fn block_bytes_outcome(data: Seq<u8>, block: BlockModel) -> Option<
    Result<Seq<u8>, BtreeIndexError>,
> {
    if block.2 + block.3 > u64::MAX {
        None
    } else if block.2 + block.3 > data.len() {
        Some(
            Err(
                BtreeIndexError::InvalidDataBlockRange {
                    start: block.2,
                    end: (block.2 + block.3) as u64,
                    file_len: data.len() as u64,
                },
            ),
        )
    } else {
        let bytes = data.subrange(block.2 as int, block.2 + block.3);
        match block_checksum_outcome(block, bytes) {
            Err(e) => Some(Err(e)),
            Ok(_) => Some(Ok(bytes)),
        }
    }
}

/// What checking a data block's bytes against its checksum gives.
pub open spec fn block_checksum_outcome(block: BlockModel, bytes: Seq<u8>) -> Result<
    (),
    BtreeIndexError,
> {
    if crc32(bytes) == block.6 {
        Ok(())
    } else {
        Err(
            BtreeIndexError::DataBlockChecksumMismatch {
                expected: block.6,
                actual: crc32(bytes),
            },
        )
    }
}

/// What a decompressed data block holds, or that it could not be decompressed; nothing where bytes
/// are left over.
pub open spec fn decompressed_outcome(decompressed: Option<Seq<u8>>) -> Option<
    Result<Seq<RowModel>, BtreeIndexError>,
> {
    match decompressed {
        None => Some(Err(BtreeIndexError::Decompress)),
        Some(bytes) => rows_outcome(bytes),
    }
}

/// The bytes of an optional vector.
pub open spec fn opt_bytes(v: Option<Vec<u8>>) -> Option<Seq<u8>> {
    match v {
        Some(bytes) => Some(bytes@),
        None => None,
    }
}

/// The rows that a reading gave, or its error.
pub open spec fn outcome_view(r: Option<Result<Vec<BtreeIndexRow>, BtreeIndexError>>) -> Option<
    Result<Seq<RowModel>, BtreeIndexError>,
> {
    match r {
        None => None,
        Some(Ok(rows)) => Some(Ok(rows_view(rows@))),
        Some(Err(e)) => Some(Err(e)),
    }
}

/// Asked for the codec of this name, the host may answer so.
pub open spec fn names_codec<P: Fn(&str) -> Option<CommonCompression>>(
    parse: P,
    name: Seq<char>,
    answer: Option<CommonCompression>,
) -> bool {
    exists|s: &str| s@ == name && #[trigger] call_ensures(parse, (s,), answer)
}

/// Asked to decompress these bytes to this length, the host may answer so.
pub open spec fn decompresses<D: Fn(CommonCompression, &[u8], u64) -> Option<Vec<u8>>>(
    decompress: D,
    codec: CommonCompression,
    bytes: Seq<u8>,
    len: u64,
    answer: Option<Seq<u8>>,
) -> bool {
    exists|s: &[u8], a: Option<Vec<u8>>|
        s@ == bytes && opt_bytes(a) == answer && #[trigger] call_ensures(
            decompress,
            (codec, s, len),
            a,
        )
}

/// Asked whether a filter holds a prefix, the host may answer so.
pub open spec fn probes<F: Fn(&[u8], &[u8]) -> Option<bool>>(
    probe: F,
    filter: Seq<u8>,
    prefix: Seq<u8>,
    answer: Option<bool>,
) -> bool {
    exists|f: &[u8], p: &[u8]|
        f@ == filter && p@ == prefix && #[trigger] call_ensures(probe, (f, p), answer)
}

/// What reading a data block gives: its codec is known, its checksum holds, it was decompressed,
/// and it holds rows; nothing where bytes are left over.
pub open spec fn data_block_outcome(
    block: BlockModel,
    bytes: Seq<u8>,
    compression: Option<CommonCompression>,
    decompressed: Option<Seq<u8>>,
) -> Option<Result<Seq<RowModel>, BtreeIndexError>> {
    if compression is None {
        Some(Err(BtreeIndexError::UnknownCompression))
    } else {
        match block_checksum_outcome(block, bytes) {
            Err(e) => Some(Err(e)),
            Ok(_) => decompressed_outcome(decompressed),
        }
    }
}

/// What putting a file's sections together gives; nothing where a section holds more than it
/// should.
pub open spec fn sections_outcome(
    footer: FooterModel,
    index_bytes: Seq<u8>,
    filter_bytes: Seq<u8>,
) -> Option<Result<FileMetaModel, BtreeIndexError>> {
    match section_outcome(footer.6, BtreeIndexSectionKind::Index) {
        Err(e) => Some(Err(e)),
        Ok(index_section) => match section_checksum_outcome(
            index_section,
            index_bytes,
            BtreeIndexPart::IndexBlock,
        ) {
            Err(e) => Some(Err(e)),
            Ok(_) => match section_outcome(footer.6, BtreeIndexSectionKind::Filter) {
                Err(e) => Some(Err(e)),
                Ok(filter_section) => match section_checksum_outcome(
                    filter_section,
                    filter_bytes,
                    BtreeIndexPart::FilterBlock,
                ) {
                    Err(e) => Some(Err(e)),
                    Ok(_) => match index_outcome(index_bytes) {
                        None => None,
                        Some(Err(e)) => Some(Err(e)),
                        Some(Ok(index)) => match filter_outcome(filter_bytes) {
                            None => None,
                            Some(Err(e)) => Some(Err(e)),
                            Some(Ok(filter)) => Some(Ok((footer, index, filter))),
                        },
                    },
                },
            },
        },
    }
}

/// What reading the index section of a file gives.
pub open spec fn file_index_outcome(data: Seq<u8>, footer: FooterModel) -> Option<
    Result<Seq<BlockModel>, BtreeIndexError>,
> {
    match section_outcome(footer.6, BtreeIndexSectionKind::Index) {
        Err(e) => Some(Err(e)),
        Ok(section) => match section_bytes_outcome(data, section, BtreeIndexPart::IndexBlock) {
            None => None,
            Some(Err(e)) => Some(Err(e)),
            Some(Ok(bytes)) => index_outcome(bytes),
        },
    }
}

/// What reading the filter section of a file gives.
pub open spec fn file_filter_outcome(data: Seq<u8>, footer: FooterModel) -> Option<
    Result<FilterModel, BtreeIndexError>,
> {
    match section_outcome(footer.6, BtreeIndexSectionKind::Filter) {
        Err(e) => Some(Err(e)),
        Ok(section) => match section_bytes_outcome(data, section, BtreeIndexPart::FilterBlock) {
            None => None,
            Some(Err(e)) => Some(Err(e)),
            Some(Ok(bytes)) => filter_outcome(bytes),
        },
    }
}

/// What opening a file gives, where its compression is known under the name in its footer, or is
/// not; nothing where a part holds more than it should.
pub open spec fn open_outcome(data: Seq<u8>, compression: Option<CommonCompression>) -> Option<
    Result<FileModel, BtreeIndexError>,
> {
    match file_footer_outcome(data) {
        None => None,
        Some(Err(e)) => Some(Err(e)),
        Some(Ok(footer)) => match checksum_outcome(data, footer) {
            Err(e) => Some(Err(e)),
            Ok(_) => match compression {
                None => Some(Err(BtreeIndexError::UnknownCompression)),
                Some(codec) => match file_index_outcome(data, footer) {
                    None => None,
                    Some(Err(e)) => Some(Err(e)),
                    Some(Ok(blocks)) => match file_filter_outcome(data, footer) {
                        None => None,
                        Some(Err(e)) => Some(Err(e)),
                        Some(Ok(filter)) => Some(
                            Ok(FileModel { data, footer, blocks, filter, compression: codec }),
                        ),
                    },
                },
            },
        },
    }
}

/// Whether the filter may hold a prefix, given what probing it said: a filter that cannot be read
/// may hold anything.
pub open spec fn may_contain(probe: Option<bool>) -> bool {
    match probe {
        Some(found) => found,
        None => true,
    }
}

/// Whether a data block may hold a key that begins with `prefix`.
pub fn block_matches_prefix(block: &BtreeIndexDataBlockMeta, prefix: &[u8]) -> (r: bool)
    ensures
        r == block_may_hold_prefix(block@, prefix@),
{
    let first = block.first_key.as_slice();
    let last = block.last_key.as_slice();
    bytes_start_with(first, prefix) || bytes_start_with(last, prefix) || (bytes_lt(first, prefix)
        && bytes_le(prefix, last))
}

fn block_matches_range(block: &BtreeIndexDataBlockMeta, start: &[u8], end: &[u8]) -> (r: bool)
    ensures
        r == block_may_hold_range(block@, start@, end@),
{
    bytes_le(start, block.last_key.as_slice()) && (end.len() == 0 || bytes_le(
        block.first_key.as_slice(),
        end,
    ))
}

impl BtreeIndexQuery {
    fn asks_for(&self, key: &[u8]) -> (r: bool)
        ensures
            r == self@.asks_for(key@),
    {
        match self {
            BtreeIndexQuery::Exact { key: wanted } => bytes_eq(key, wanted.as_slice()),
            BtreeIndexQuery::Prefix { prefix, .. } => bytes_start_with(key, prefix.as_slice()),
            BtreeIndexQuery::Range { start, end } => bytes_le(start.as_slice(), key) && (end.len()
                == 0 || bytes_le(key, end.as_slice())),
        }
    }

    fn may_be_in(&self, block: &BtreeIndexDataBlockMeta) -> (r: bool)
        ensures
            r == self@.may_be_in(block@),
    {
        match self {
            BtreeIndexQuery::Exact { key } => block_matches_range(
                block,
                key.as_slice(),
                key.as_slice(),
            ),
            BtreeIndexQuery::Prefix { prefix, .. } => block_matches_prefix(
                block,
                prefix.as_slice(),
            ),
            BtreeIndexQuery::Range { start, end } => block_matches_range(
                block,
                start.as_slice(),
                end.as_slice(),
            ),
        }
    }

    fn is_full(&self, n: usize) -> (r: bool)
        requires
            n > 0,
        ensures
            r == self@.is_full(n as nat),
    {
        match self {
            BtreeIndexQuery::Prefix { limit: Some(limit), .. } => n >= *limit,
            _ => false,
        }
    }
}

/// The blocks that may hold a row that the query asks for.
fn blocks_for(query: &BtreeIndexQuery, blocks: &Vec<BtreeIndexDataBlockMeta>) -> (r: Vec<
    BtreeIndexDataBlockMeta,
>)
    ensures
        blocks_view(r@) == candidate_blocks(query@, blocks_view(blocks@)),
{
    let mut r: Vec<BtreeIndexDataBlockMeta> = Vec::new();
    let mut i: usize = 0;
    proof {
        assert(blocks_view(blocks@).take(0) =~= Seq::<BlockModel>::empty());
        assert(blocks_view(r@) =~= Seq::<BlockModel>::empty());
    }
    while i < blocks.len()
        invariant
            i <= blocks@.len(),
            blocks_view(r@) == candidate_blocks(query@, blocks_view(blocks@).take(i as int)),
        decreases blocks@.len() - i,
    {
        let block = &blocks[i];
        let ghost before = r@;
        if query.may_be_in(block) {
            r.push(block.clone());
            assert(blocks_view(r@) =~= blocks_view(before).push(block@));
        }
        proof {
            let t = blocks_view(blocks@).take(i + 1);
            assert(t.drop_last() =~= blocks_view(blocks@).take(i as int));
            assert(t.last() == block@);
        }
        i = i + 1;
    }
    proof {
        assert(blocks_view(blocks@).take(blocks@.len() as int) =~= blocks_view(blocks@));
    }
    r
}

/// Checks a data block's bytes against its checksum.
pub fn validate_data_block_checksum(meta: &BtreeIndexDataBlockMeta, bytes: &[u8]) -> (r: Result<
    (),
    BtreeIndexError,
>)
    ensures
        r == block_checksum_outcome(meta@, bytes@),
{
    let actual: u32 = crc32_of(bytes);
    if actual != meta.checksum {
        return Err(
            BtreeIndexError::DataBlockChecksumMismatch { expected: meta.checksum, actual },
        );
    }
    Ok(())
}

/// Reads a decompressed data block; `None` where bytes are left over.
fn rows_of_decompressed(decompressed: &Option<Vec<u8>>) -> (r: Option<
    Result<Vec<BtreeIndexRow>, BtreeIndexError>,
>)
    ensures
        match r {
            None => decompressed_outcome(opt_bytes(*decompressed)) is None,
            Some(Ok(rows)) => decompressed_outcome(opt_bytes(*decompressed)) == Some(
                Ok::<_, BtreeIndexError>(rows_view(rows@)),
            ),
            Some(Err(e)) => decompressed_outcome(opt_bytes(*decompressed)) == Some(
                Err::<Seq<RowModel>, _>(e),
            ),
        },
{
    match decompressed {
        None => Some(Err(BtreeIndexError::Decompress)),
        Some(bytes) => rows_from_bytes(bytes.as_slice()),
    }
}

/// Reads a data block; `None` where bytes are left over.
fn data_block_rows(
    meta: &BtreeIndexDataBlockMeta,
    bytes: &[u8],
    compression: Option<CommonCompression>,
    decompressed: &Option<Vec<u8>>,
) -> (r: Option<Result<Vec<BtreeIndexRow>, BtreeIndexError>>)
    ensures
        match r {
            None => data_block_outcome(meta@, bytes@, compression, opt_bytes(*decompressed))
                is None,
            Some(Ok(rows)) => data_block_outcome(
                meta@,
                bytes@,
                compression,
                opt_bytes(*decompressed),
            ) == Some(Ok::<_, BtreeIndexError>(rows_view(rows@))),
            Some(Err(e)) => data_block_outcome(
                meta@,
                bytes@,
                compression,
                opt_bytes(*decompressed),
            ) == Some(Err::<Seq<RowModel>, _>(e)),
        },
{
    if compression.is_none() {
        return Some(Err(BtreeIndexError::UnknownCompression));
    }
    match validate_data_block_checksum(meta, bytes) {
        Err(e) => Some(Err(e)),
        Ok(_) => rows_of_decompressed(decompressed),
    }
}

fn filter_may_contain<F: Fn(&[u8], &[u8]) -> Option<bool>>(
    filter_block: &BtreeIndexFilterBlock,
    prefix: &[u8],
    probe: F,
) -> (r: bool)
    requires
        forall|f: &[u8], p: &[u8]| call_requires(probe, (f, p)),
    ensures
        exists|answer: Option<bool>| #[trigger]
            probes(probe, filter_block@.0, prefix@, answer) && r == may_contain(answer),
{
    let filter = filter_block.equality_prefix_bloom.as_slice();
    let answer = probe(filter, prefix);
    assert(probes(probe, filter_block@.0, prefix@, answer));
    match answer {
        Some(found) => found,
        None => true,
    }
}

impl BtreeIndexFileMeta {
    fn assemble(footer: BtreeIndexFooter, index_bytes: &[u8], filter_bytes: &[u8]) -> (r: Option<
        Result<Self, BtreeIndexError>,
    >)
        ensures
            match r {
                None => sections_outcome(footer@, index_bytes@, filter_bytes@) is None,
                Some(Ok(meta)) => sections_outcome(footer@, index_bytes@, filter_bytes@) == Some(
                    Ok::<_, BtreeIndexError>(meta@),
                ) && meta.footer == footer,
                Some(Err(e)) => sections_outcome(footer@, index_bytes@, filter_bytes@) == Some(
                    Err::<FileMetaModel, _>(e),
                ),
            },
    {
        let checked = match btree_index_section(&footer, BtreeIndexSectionKind::Index) {
            Err(e) => Err(e),
            Ok(section) => validate_section_checksum(
                section,
                index_bytes,
                BtreeIndexPart::IndexBlock,
            ),
        };
        if let Err(e) = checked {
            return Some(Err(e));
        }
        let checked = match btree_index_section(&footer, BtreeIndexSectionKind::Filter) {
            Err(e) => Err(e),
            Ok(section) => validate_section_checksum(
                section,
                filter_bytes,
                BtreeIndexPart::FilterBlock,
            ),
        };
        if let Err(e) = checked {
            return Some(Err(e));
        }
        let index_block = match index_from_bytes(index_bytes) {
            None => {
                return None;
            },
            Some(Err(e)) => {
                return Some(Err(e));
            },
            Some(Ok(index_block)) => index_block,
        };
        let filter_block = match filter_from_bytes(filter_bytes) {
            None => {
                return None;
            },
            Some(Err(e)) => {
                return Some(Err(e));
            },
            Some(Ok(filter_block)) => filter_block,
        };
        Some(Ok(BtreeIndexFileMeta { footer, index_block, filter_block }))
    }

    /// Puts together what a reader keeps of a file, from its footer and the bytes of its index and
    /// filter sections.
    pub fn from_sections(footer: BtreeIndexFooter, index_block: Bytes, filter_block: Bytes) -> (r:
        Result<Self, BtreeIndexError>)
        requires
            sections_outcome(footer@, bytes_of(index_block), bytes_of(filter_block)) is Some,
        ensures
            match r {
                Ok(meta) => sections_outcome(footer@, bytes_of(index_block), bytes_of(filter_block))
                    == Some(Ok::<_, BtreeIndexError>(meta@)) && meta.footer == footer,
                Err(e) => sections_outcome(footer@, bytes_of(index_block), bytes_of(filter_block))
                    == Some(Err::<FileMetaModel, _>(e)),
            },
    {
        Self::assemble(
            footer,
            bytes_as_slice(&index_block),
            bytes_as_slice(&filter_block),
        ).unwrap()
    }

    /// Puts together what a reader keeps of a file; `None` where a section holds more than it
    /// should.
    pub fn try_from_sections(footer: BtreeIndexFooter, index_block: Bytes, filter_block: Bytes) ->
        (r: Option<Result<Self, BtreeIndexError>>)
        ensures
            match r {
                None => sections_outcome(footer@, bytes_of(index_block), bytes_of(filter_block))
                    is None,
                Some(Ok(meta)) => sections_outcome(
                    footer@,
                    bytes_of(index_block),
                    bytes_of(filter_block),
                ) == Some(Ok::<_, BtreeIndexError>(meta@)) && meta.footer == footer,
                Some(Err(e)) => sections_outcome(
                    footer@,
                    bytes_of(index_block),
                    bytes_of(filter_block),
                ) == Some(Err::<FileMetaModel, _>(e)),
            },
    {
        let index_whole = index_from_bytes(bytes_as_slice(&index_block)).is_some();
        let filter_whole = filter_from_bytes(bytes_as_slice(&filter_block)).is_some();
        if index_whole && filter_whole {
            return Some(Self::from_sections(footer, index_block, filter_block));
        }
        // One of the two holds more than it should: an error that comes first still counts.
        Self::assemble(footer, bytes_as_slice(&index_block), bytes_as_slice(&filter_block))
    }

    /// The footer.
    pub fn footer(&self) -> (r: &BtreeIndexFooter)
        ensures
            *r == self.footer,
    {
        &self.footer
    }

    /// The index.
    pub fn index_block(&self) -> (r: &BtreeIndexIndexBlock)
        ensures
            *r == self.index_block,
    {
        &self.index_block
    }

    /// The filter.
    pub fn filter_block(&self) -> (r: &BtreeIndexFilterBlock)
        ensures
            *r == self.filter_block,
    {
        &self.filter_block
    }

    /// Whether the file may hold keys with an equality prefix, by what the host finds in the filter.
    /// A filter that it cannot read may hold anything.
    pub fn may_contain_equality_prefix<F: Fn(&[u8], &[u8]) -> Option<bool>>(
        &self,
        prefix: &[u8],
        probe: F,
    ) -> (r: bool)
        requires
            forall|f: &[u8], p: &[u8]| call_requires(probe, (f, p)),
        ensures
            exists|answer: Option<bool>| #[trigger]
                probes(probe, self.filter_block@.0, prefix@, answer) && r == may_contain(answer),
    {
        filter_may_contain(&self.filter_block, prefix, probe)
    }

    /// The data blocks that may hold a key that begins with `prefix`, in file order.
    pub fn blocks_for_prefix(&self, prefix: &[u8]) -> (r: Vec<BtreeIndexDataBlockMeta>)
        ensures
            blocks_view(r@) == candidate_blocks(
                (QueryModel::Prefix { prefix: prefix@, limit: None }),
                self.index_block@,
            ),
    {
        let query = BtreeIndexQuery::Prefix { prefix: bytes_clone(prefix), limit: None };
        blocks_for(&query, &self.index_block.data_blocks)
    }

    /// The rows of a data block, given its bytes as they stand in the file, the codec that is known
    /// under the footer's name for it, and the bytes that the codec made of them.
    pub fn decode_data_block(
        &self,
        meta: &BtreeIndexDataBlockMeta,
        bytes: &[u8],
        compression: Option<CommonCompression>,
        decompressed: &Option<Vec<u8>>,
    ) -> (r: Result<Vec<BtreeIndexRow>, BtreeIndexError>)
        requires
            data_block_outcome(meta@, bytes@, compression, opt_bytes(*decompressed)) is Some,
        ensures
            match r {
                Ok(rows) => data_block_outcome(
                    meta@,
                    bytes@,
                    compression,
                    opt_bytes(*decompressed),
                ) == Some(Ok::<_, BtreeIndexError>(rows_view(rows@))),
                Err(e) => data_block_outcome(
                    meta@,
                    bytes@,
                    compression,
                    opt_bytes(*decompressed),
                ) == Some(Err::<Seq<RowModel>, _>(e)),
            },
    {
        data_block_rows(meta, bytes, compression, decompressed).unwrap()
    }

    /// The codec of the data blocks, as the host knows it by its name.
    pub fn compression<P: Fn(&str) -> Option<CommonCompression>>(&self, parse: P) -> (r: Result<
        CommonCompression,
        BtreeIndexError,
    >)
        requires
            forall|name: &str| call_requires(parse, (name,)),
        ensures
            match r {
                Ok(codec) => names_codec(parse, self.footer@.3, Some(codec)),
                Err(e) => e == BtreeIndexError::UnknownCompression && names_codec(
                    parse,
                    self.footer@.3,
                    None,
                ),
            },
    {
        match parse(self.footer.compression.as_str()) {
            Some(codec) => Ok(codec),
            None => Err(BtreeIndexError::UnknownCompression),
        }
    }

    /// The rows of a data block, decompressed by the host; `None` where the decompressed bytes hold
    /// more than rows.
    pub fn try_decode_data_block<
        P: Fn(&str) -> Option<CommonCompression>,
        D: Fn(CommonCompression, &[u8], u64) -> Option<Vec<u8>>,
    >(&self, meta: &BtreeIndexDataBlockMeta, bytes: &[u8], parse: P, decompress: D) -> (r: Option<
        Result<Vec<BtreeIndexRow>, BtreeIndexError>,
    >)
        requires
            forall|name: &str| call_requires(parse, (name,)),
            forall|codec: CommonCompression, s: &[u8], n: u64|
                call_requires(decompress, (codec, s, n)),
        ensures
            exists|compression: Option<CommonCompression>, decompressed: Option<Seq<u8>>|
                {
                    &&& #[trigger] names_codec(parse, self.footer@.3, compression)
                    &&& compression is Some && block_checksum_outcome(meta@, bytes@) is Ok
                        ==> decompresses(
                        decompress,
                        compression->0,
                        bytes@,
                        meta.uncompressed_length,
                        decompressed,
                    )
                    &&& outcome_view(r) == #[trigger] data_block_outcome(
                        meta@,
                        bytes@,
                        compression,
                        decompressed,
                    )
                },
    {
        let compression = parse(self.footer.compression.as_str());
        assert(names_codec(parse, self.footer@.3, compression));
        let decompressed = match (compression, validate_data_block_checksum(meta, bytes)) {
            (Some(codec), Ok(_)) => {
                let answer = decompress(codec, bytes, meta.uncompressed_length);
                assert(decompresses(
                    decompress,
                    codec,
                    bytes@,
                    meta.uncompressed_length,
                    opt_bytes(answer),
                ));
                answer
            },
            _ => None,
        };
        match data_block_rows(meta, bytes, compression, &decompressed) {
            None => None,
            Some(_) => Some(self.decode_data_block(meta, bytes, compression, &decompressed)),
        }
    }
}

/// The encoded form of what a reader keeps of a file.
pub fn encode_btree_index_file_meta(meta: &BtreeIndexFileMeta) -> (r: Result<
    Vec<u8>,
    BtreeIndexError,
>)
    ensures
        r matches Ok(bytes) && bytes@ == encoded_file_meta(meta@) && (meta.footer.meta.wf() ==>
            file_meta_outcome(bytes@) == Some(Ok::<_, BtreeIndexError>(meta@))),
{
    let footer = footer_record(&meta.footer);
    let index = block_records(&meta.index_block.data_blocks);
    let filter = (
        bytes_clone(meta.filter_block.equality_prefix_bloom.as_slice()),
        meta.filter_block.equality_prefix_count,
    );
    proof {
        assert(kinds_known(meta@.0.6)) by {
            assert forall|i: int| 0 <= i < meta@.0.6.len() implies (#[trigger] meta@.0.6[i]).0
                <= 3 by {
                assert(meta@.0.6[i] == meta.footer.sections@[i]@);
            }
        }
    }
    match codec::encode_file_meta(&footer, &index, &filter) {
        Ok(bytes) => Ok(bytes),
        Err(_) => Err(BtreeIndexError::Encode { part: BtreeIndexPart::FileMeta }),
    }
}

fn file_meta_from_bytes(bytes: &[u8]) -> (r: Option<Result<BtreeIndexFileMeta, BtreeIndexError>>)
    ensures
        match r {
            None => file_meta_outcome(bytes@) is None,
            Some(Ok(meta)) => file_meta_outcome(bytes@) == Some(Ok::<_, BtreeIndexError>(meta@)),
            Some(Err(e)) => file_meta_outcome(bytes@) == Some(Err::<FileMetaModel, _>(e)),
        },
{
    match codec::decode_file_meta(bytes) {
        Err(_) => Some(Err(BtreeIndexError::Decode { part: BtreeIndexPart::FileMeta })),
        Ok(((footer, index, filter), len)) => match footer_from_record(footer) {
            None => Some(Err(BtreeIndexError::Decode { part: BtreeIndexPart::FileMeta })),
            Some(footer) => if len != bytes.len() {
                None
            } else {
                Some(
                    Ok(
                        BtreeIndexFileMeta {
                            footer,
                            index_block: BtreeIndexIndexBlock {
                                data_blocks: blocks_from_records(&index),
                            },
                            filter_block: BtreeIndexFilterBlock {
                                equality_prefix_bloom: filter.0,
                                equality_prefix_count: filter.1,
                            },
                        },
                    ),
                )
            },
        },
    }
}

/// Reads what a reader keeps of a file.
pub fn decode_btree_index_file_meta(bytes: &[u8]) -> (r: Result<
    BtreeIndexFileMeta,
    BtreeIndexError,
>)
    requires
        file_meta_outcome(bytes@) is Some,
    ensures
        match r {
            Ok(meta) => file_meta_outcome(bytes@) == Some(Ok::<_, BtreeIndexError>(meta@)),
            Err(e) => file_meta_outcome(bytes@) == Some(Err::<FileMetaModel, _>(e)),
        },
{
    file_meta_from_bytes(bytes).unwrap()
}

/// Reads what a reader keeps of a file; `None` where the bytes hold more than that.
pub fn try_decode_btree_index_file_meta(bytes: &[u8]) -> (r: Option<
    Result<BtreeIndexFileMeta, BtreeIndexError>,
>)
    ensures
        match r {
            None => file_meta_outcome(bytes@) is None,
            Some(Ok(meta)) => file_meta_outcome(bytes@) == Some(Ok::<_, BtreeIndexError>(meta@)),
            Some(Err(e)) => file_meta_outcome(bytes@) == Some(Err::<FileMetaModel, _>(e)),
        },
{
    match file_meta_from_bytes(bytes) {
        None => None,
        Some(_) => Some(decode_btree_index_file_meta(bytes)),
    }
}

/// The rows of several blocks, one block after the other.
pub open spec fn joined(contents: Seq<Seq<RowModel>>) -> Seq<RowModel>
    decreases contents.len(),
{
    if contents.len() == 0 {
        Seq::empty()
    } else {
        joined(contents.drop_last()) + contents.last()
    }
}

/// Decompressing these bytes by the host and reading the rows may give this.
pub open spec fn bytes_read<D: Fn(CommonCompression, &[u8], u64) -> Option<Vec<u8>>>(
    decompress: D,
    codec: CommonCompression,
    bytes: Seq<u8>,
    len: u64,
    outcome: Option<Result<Seq<RowModel>, BtreeIndexError>>,
) -> bool {
    exists|answer: Option<Seq<u8>>|
        #[trigger] decompresses(decompress, codec, bytes, len, answer) && outcome
            == decompressed_outcome(answer)
}

/// Reading a data block of an open file, decompressed by the host, may give this.
pub open spec fn block_reads<D: Fn(CommonCompression, &[u8], u64) -> Option<Vec<u8>>>(
    file: FileModel,
    block: BlockModel,
    decompress: D,
    outcome: Option<Result<Seq<RowModel>, BtreeIndexError>>,
) -> bool {
    match block_bytes_outcome(file.data, block) {
        None => outcome is None,
        Some(Err(e)) => outcome == Some(Err::<Seq<RowModel>, BtreeIndexError>(e)),
        Some(Ok(bytes)) => bytes_read(decompress, file.compression, bytes, block.4, outcome),
    }
}

/// The first blocks of `blocks` may be read to these contents.
pub open spec fn blocks_read<D: Fn(CommonCompression, &[u8], u64) -> Option<Vec<u8>>>(
    file: FileModel,
    blocks: Seq<BlockModel>,
    decompress: D,
    contents: Seq<Seq<RowModel>>,
) -> bool {
    &&& contents.len() <= blocks.len()
    &&& forall|i: int|
        0 <= i < contents.len() ==> block_reads(
            file,
            blocks[i],
            decompress,
            Some(Ok::<Seq<RowModel>, BtreeIndexError>(#[trigger] contents[i])),
        )
}

/// Looking up a query in an open file may give this: the blocks that may hold what is asked for are
/// read in file order until the limit is reached, and the rows that are asked for are kept; the
/// first block that cannot be read ends the lookup.
pub open spec fn lookup_gives<D: Fn(CommonCompression, &[u8], u64) -> Option<Vec<u8>>>(
    file: FileModel,
    query: QueryModel,
    decompress: D,
    outcome: Option<Result<Seq<RowModel>, BtreeIndexError>>,
) -> bool {
    let blocks = candidate_blocks(query, file.blocks);
    exists|contents: Seq<Seq<RowModel>>|
        {
            let found = hits(query, joined(contents));
            &&& #[trigger] blocks_read(file, blocks, decompress, contents)
            &&& match outcome {
                Some(Ok(rows)) => {
                    &&& rows == query.limited(found)
                    &&& contents.len() == blocks.len() || query.is_full(found.len())
                },
                _ => {
                    &&& contents.len() < blocks.len()
                    &&& !query.is_full(found.len())
                    &&& block_reads(file, blocks[contents.len() as int], decompress, outcome)
                },
            }
        }
}

/// The hits among rows that follow each other are the hits of each part.
pub proof fn lemma_hits_concat(query: QueryModel, a: Seq<RowModel>, b: Seq<RowModel>)
    ensures
        hits(query, a + b) == hits(query, a) + hits(query, b),
    decreases b.len(),
{
    if b.len() == 0 {
        assert(a + b =~= a);
        assert(hits(query, a) + hits(query, b) =~= hits(query, a));
    } else {
        assert((a + b).drop_last() =~= a + b.drop_last());
        assert((a + b).last() == b.last());
        lemma_hits_concat(query, a, b.drop_last());
        assert(hits(query, a + b) =~= hits(query, a) + hits(query, b));
    }
}

/// The rows of one block more are joined behind those of the others.
pub proof fn lemma_joined_push(contents: Seq<Seq<RowModel>>, rows: Seq<RowModel>)
    ensures
        joined(contents.push(rows)) == joined(contents) + rows,
{
    assert(contents.push(rows).drop_last() =~= contents);
}

/// Moves the rows that are asked for from `rows` to `result`, up to the limit; says whether the
/// limit is reached.
pub fn take_hits(
    query: &BtreeIndexQuery,
    rows: &Vec<BtreeIndexRow>,
    result: &mut Vec<BtreeIndexRow>,
) -> (full: bool)
    requires
        !query@.is_full(old(result)@.len()),
    ensures
        rows_view(final(result)@) == query@.limited(
            rows_view(old(result)@) + hits(query@, rows_view(rows@)),
        ),
        full == query@.is_full(
            (rows_view(old(result)@) + hits(query@, rows_view(rows@))).len(),
        ),
{
    let ghost start = rows_view(result@);
    let ghost all = rows_view(rows@);
    let mut i: usize = 0;
    proof {
        assert(all.take(0) =~= Seq::<RowModel>::empty());
        assert(start + hits(query@, all.take(0)) =~= start);
    }
    while i < rows.len()
        invariant
            i <= rows@.len(),
            all == rows_view(rows@),
            start == rows_view(old(result)@),
            rows_view(result@) == start + hits(query@, all.take(i as int)),
            !query@.is_full(result@.len()),
        decreases rows@.len() - i,
    {
        let row = &rows[i];
        let ghost before = result@;
        proof {
            let t = all.take(i + 1);
            assert(t.drop_last() =~= all.take(i as int));
            assert(t.last() == row@);
        }
        if query.asks_for(row.encoded_key.as_slice()) {
            result.push(row.clone());
            proof {
                assert(rows_view(result@) =~= rows_view(before).push(row@));
                assert(rows_view(result@) =~= start + hits(query@, all.take(i + 1)));
                assert(rows_view(result@).len() == result@.len());
            }
            if query.is_full(result.len()) {
                proof {
                    let done = all.take(i + 1);
                    let rest = all.skip(i + 1);
                    assert(all =~= done + rest);
                    lemma_hits_concat(query@, done, rest);
                    let whole = start + hits(query@, all);
                    assert(whole =~= rows_view(result@) + hits(query@, rest));
                    let limit = query@.row_limit()->0;
                    assert(result@.len() == limit);
                    assert(whole.take(limit as int) =~= rows_view(result@));
                    if whole.len() == limit {
                        assert(whole =~= rows_view(result@));
                    }
                }
                return true;
            }
        }
        i = i + 1;
    }
    proof {
        assert(all.take(all.len() as int) =~= all);
        assert(rows_view(result@).len() == result@.len());
    }
    false
}

impl BtreeIndexFileView {
    fn open_steps(data: &Bytes, compression: Option<CommonCompression>) -> (r: Option<
        Result<(BtreeIndexFooter, BtreeIndexIndexBlock, BtreeIndexFilterBlock), BtreeIndexError>,
    >)
        ensures
            match r {
                None => open_outcome(bytes_of(*data), compression) is None,
                Some(Ok(parts)) => compression is Some && open_outcome(bytes_of(*data), compression)
                    == Some(
                    Ok::<_, BtreeIndexError>(
                        (FileModel {
                            data: bytes_of(*data),
                            footer: parts.0@,
                            blocks: parts.1@,
                            filter: parts.2@,
                            compression: compression->0,
                        }),
                    ),
                ),
                Some(Err(e)) => open_outcome(bytes_of(*data), compression) == Some(
                    Err::<FileModel, _>(e),
                ),
            },
    {
        let bytes = bytes_as_slice(data);
        let footer = match footer_of_file(bytes) {
            None => {
                return None;
            },
            Some(Err(e)) => {
                return Some(Err(e));
            },
            Some(Ok(footer)) => footer,
        };
        if let Err(e) = validate_checksum(bytes, &footer) {
            return Some(Err(e));
        }
        if compression.is_none() {
            return Some(Err(BtreeIndexError::UnknownCompression));
        }
        let section = match btree_index_section(&footer, BtreeIndexSectionKind::Index) {
            Err(e) => {
                return Some(Err(e));
            },
            Ok(section) => section,
        };
        let index_bytes = match section_bytes(bytes, section, BtreeIndexPart::IndexBlock) {
            None => {
                return None;
            },
            Some(Err(e)) => {
                return Some(Err(e));
            },
            Some(Ok(index_bytes)) => index_bytes,
        };
        let index_block = match index_from_bytes(index_bytes) {
            None => {
                return None;
            },
            Some(Err(e)) => {
                return Some(Err(e));
            },
            Some(Ok(index_block)) => index_block,
        };
        let section = match btree_index_section(&footer, BtreeIndexSectionKind::Filter) {
            Err(e) => {
                return Some(Err(e));
            },
            Ok(section) => section,
        };
        let filter_bytes = match section_bytes(bytes, section, BtreeIndexPart::FilterBlock) {
            None => {
                return None;
            },
            Some(Err(e)) => {
                return Some(Err(e));
            },
            Some(Ok(filter_bytes)) => filter_bytes,
        };
        let filter_block = match filter_from_bytes(filter_bytes) {
            None => {
                return None;
            },
            Some(Err(e)) => {
                return Some(Err(e));
            },
            Some(Ok(filter_block)) => filter_block,
        };
        Some(Ok((footer, index_block, filter_block)))
    }

    /// What a reader keeps of the file.
    pub fn into_meta(self) -> (r: BtreeIndexFileMeta)
        ensures
            r@ == (self@.footer, self@.blocks, self@.filter),
    {
        BtreeIndexFileMeta {
            footer: self.footer,
            index_block: self.index_block,
            filter_block: self.filter_block,
        }
    }

    /// Opens a file, given the codec that is known under the name in its footer.
    pub fn open(data: Bytes, compression: Option<CommonCompression>) -> (r: Result<
        Self,
        BtreeIndexError,
    >)
        requires
            open_outcome(bytes_of(data), compression) is Some,
        ensures
            match r {
                Ok(view) => open_outcome(bytes_of(data), compression) == Some(
                    Ok::<_, BtreeIndexError>(view@),
                ),
                Err(e) => open_outcome(bytes_of(data), compression) == Some(
                    Err::<FileModel, _>(e),
                ),
            },
    {
        match (Self::open_steps(&data, compression).unwrap(), compression) {
            (Ok((footer, index_block, filter_block)), Some(compression)) => Ok(
                BtreeIndexFileView { data, footer, index_block, filter_block, compression },
            ),
            (Err(e), _) => Err(e),
            (Ok(_), None) => Err(BtreeIndexError::UnknownCompression),
        }
    }

    /// Opens a file, asking the host for the codec of the name in its footer; `None` where a part of
    /// the file holds more than it should.
    pub fn try_open<P: Fn(&str) -> Option<CommonCompression>>(data: Bytes, parse: P) -> (r: Option<
        Result<Self, BtreeIndexError>,
    >)
        requires
            forall|name: &str| call_requires(parse, (name,)),
        ensures
            match file_footer_outcome(bytes_of(data)) {
                None => r is None,
                Some(Err(e)) => r == Some(Err::<Self, _>(e)),
                Some(Ok(footer)) => exists|compression: Option<CommonCompression>|
                    #[trigger] names_codec(parse, footer.3, compression) && match r {
                        None => open_outcome(bytes_of(data), compression) is None,
                        Some(Ok(view)) => open_outcome(bytes_of(data), compression) == Some(
                            Ok::<_, BtreeIndexError>(view@),
                        ),
                        Some(Err(e)) => open_outcome(bytes_of(data), compression) == Some(
                            Err::<FileModel, _>(e),
                        ),
                    },
            },
    {
        let compression = match footer_of_file(bytes_as_slice(&data)) {
            None => {
                return None;
            },
            Some(Err(e)) => {
                return Some(Err(e));
            },
            Some(Ok(footer)) => {
                let answer = parse(footer.compression.as_str());
                assert(names_codec(parse, footer@.3, answer));
                answer
            },
        };
        match Self::open_steps(&data, compression) {
            None => None,
            Some(_) => Some(Self::open(data, compression)),
        }
    }

    /// The footer.
    pub fn footer(&self) -> (r: &BtreeIndexFooter)
        ensures
            r@ == self@.footer,
    {
        &self.footer
    }

    /// The index.
    pub fn index_block(&self) -> (r: &BtreeIndexIndexBlock)
        ensures
            r@ == self@.blocks,
    {
        &self.index_block
    }

    /// The filter.
    pub fn filter_block(&self) -> (r: &BtreeIndexFilterBlock)
        ensures
            r@ == self@.filter,
    {
        &self.filter_block
    }

    /// Whether the file may hold keys with an equality prefix, by what the host finds in the filter.
    /// A filter that it cannot read may hold anything.
    pub fn may_contain_equality_prefix<F: Fn(&[u8], &[u8]) -> Option<bool>>(
        &self,
        prefix: &[u8],
        probe: F,
    ) -> (r: bool)
        requires
            forall|f: &[u8], p: &[u8]| call_requires(probe, (f, p)),
        ensures
            exists|answer: Option<bool>| #[trigger]
                probes(probe, self@.filter.0, prefix@, answer) && r == may_contain(answer),
    {
        let r = filter_may_contain(&self.filter_block, prefix, probe);
        assert(self@.filter == self.filter_block@);
        r
    }

    /// Reads a data block, decompressed by the host; `None` where bytes are left over or the block's
    /// end is past every number.
    fn read_data_block<D: Fn(CommonCompression, &[u8], u64) -> Option<Vec<u8>>>(
        &self,
        meta: &BtreeIndexDataBlockMeta,
        decompress: &D,
    ) -> (r: Option<Result<Vec<BtreeIndexRow>, BtreeIndexError>>)
        requires
            forall|codec: CommonCompression, s: &[u8], n: u64|
                call_requires(*decompress, (codec, s, n)),
        ensures
            block_reads(self@, meta@, *decompress, outcome_view(r)),
    {
        let data = bytes_as_slice(&self.data);
        let start: u64 = meta.offset;
        let end: u64 = match start.checked_add(meta.length) {
            Some(end) => end,
            None => {
                return None;
            },
        };
        if end > data.len() as u64 {
            return Some(
                Err(
                    BtreeIndexError::InvalidDataBlockRange {
                        start,
                        end,
                        file_len: data.len() as u64,
                    },
                ),
            );
        }
        let bytes = vstd::slice::slice_subrange(data, start as usize, end as usize);
        if let Err(e) = validate_data_block_checksum(meta, bytes) {
            return Some(Err(e));
        }
        let answer = decompress(self.compression, bytes, meta.uncompressed_length);
        assert(decompresses(
            *decompress,
            self@.compression,
            bytes@,
            meta.uncompressed_length,
            opt_bytes(answer),
        ));
        let r = rows_of_decompressed(&answer);
        assert(block_bytes_outcome(self@.data, meta@) == Some(Ok::<_, BtreeIndexError>(bytes@)));
        assert(outcome_view(r) == decompressed_outcome(opt_bytes(answer)));
        assert(bytes_read(*decompress, self@.compression, bytes@, meta@.4, outcome_view(r)));
        r
    }

    /// Looks a query up; `None` where a data block holds more than rows.
    pub fn lookup<D: Fn(CommonCompression, &[u8], u64) -> Option<Vec<u8>>>(
        &self,
        query: &BtreeIndexQuery,
        decompress: D,
    ) -> (r: Option<Result<Vec<BtreeIndexRow>, BtreeIndexError>>)
        requires
            forall|codec: CommonCompression, s: &[u8], n: u64|
                call_requires(decompress, (codec, s, n)),
        ensures
            lookup_gives(self@, query@, decompress, outcome_view(r)),
    {
        let mut result: Vec<BtreeIndexRow> = Vec::new();
        let blocks = blocks_for(query, &self.index_block.data_blocks);
        let ghost candidates = blocks_view(blocks@);
        let ghost mut contents: Seq<Seq<RowModel>> = Seq::empty();
        let mut i: usize = 0;
        assert(rows_view(result@) =~= Seq::<RowModel>::empty());
        while i < blocks.len()
            invariant
                forall|codec: CommonCompression, s: &[u8], n: u64|
                    call_requires(decompress, (codec, s, n)),
                i <= blocks@.len(),
                candidates == blocks_view(blocks@),
                candidates == candidate_blocks(query@, self@.blocks),
                contents.len() == i,
                blocks_read(self@, candidates, decompress, contents),
                rows_view(result@) == hits(query@, joined(contents)),
                !query@.is_full(result@.len()),
            decreases blocks@.len() - i,
        {
            assert(candidates[i as int] == blocks@[i as int]@);
            assert(rows_view(result@).len() == result@.len());
            let read = self.read_data_block(&blocks[i], &decompress);
            let rows = match read {
                None => {
                    assert(blocks_read(self@, candidates, decompress, contents));
                    return None;
                },
                Some(Err(e)) => {
                    assert(blocks_read(self@, candidates, decompress, contents));
                    return Some(Err(e));
                },
                Some(Ok(rows)) => rows,
            };
            let ghost before = contents;
            proof {
                contents = contents.push(rows_view(rows@));
                lemma_joined_push(before, rows_view(rows@));
                lemma_hits_concat(query@, joined(before), rows_view(rows@));
                assert forall|k: int| 0 <= k < contents.len() implies block_reads(
                    self@,
                    candidates[k],
                    decompress,
                    Some(Ok::<Seq<RowModel>, BtreeIndexError>(#[trigger] contents[k])),
                ) by {
                    if k < before.len() {
                        assert(contents[k] == before[k]);
                    }
                }
            }
            if take_hits(query, &rows, &mut result) {
                assert(blocks_read(self@, candidates, decompress, contents));
                return Some(Ok(result));
            }
            assert(rows_view(result@).len() == result@.len());
            i = i + 1;
        }
        Some(Ok(result))
    }

    /// The rows with exactly this key; `None` where a data block holds more than rows.
    pub fn lookup_exact<D: Fn(CommonCompression, &[u8], u64) -> Option<Vec<u8>>>(
        &self,
        key: &[u8],
        decompress: D,
    ) -> (r: Option<Result<Vec<BtreeIndexRow>, BtreeIndexError>>)
        requires
            forall|codec: CommonCompression, s: &[u8], n: u64|
                call_requires(decompress, (codec, s, n)),
        ensures
            lookup_gives(
                self@,
                (QueryModel::Exact { key: key@ }),
                decompress,
                outcome_view(r),
            ),
    {
        let query = BtreeIndexQuery::Exact { key: bytes_clone(key) };
        self.lookup(&query, decompress)
    }

    /// The first rows whose keys begin with `prefix`; `None` where a data block holds more than
    /// rows. A limit of zero counts as one.
    pub fn lookup_prefix<D: Fn(CommonCompression, &[u8], u64) -> Option<Vec<u8>>>(
        &self,
        prefix: &[u8],
        limit: Option<usize>,
        decompress: D,
    ) -> (r: Option<Result<Vec<BtreeIndexRow>, BtreeIndexError>>)
        requires
            forall|codec: CommonCompression, s: &[u8], n: u64|
                call_requires(decompress, (codec, s, n)),
        ensures
            lookup_gives(
                self@,
                (QueryModel::Prefix { prefix: prefix@, limit }),
                decompress,
                outcome_view(r),
            ),
    {
        let query = BtreeIndexQuery::Prefix { prefix: bytes_clone(prefix), limit };
        self.lookup(&query, decompress)
    }

    /// The rows whose keys lie in the range, both ends included; an empty end is no bound. `None`
    /// where a data block holds more than rows.
    pub fn lookup_range<D: Fn(CommonCompression, &[u8], u64) -> Option<Vec<u8>>>(
        &self,
        range: Range<&[u8]>,
        decompress: D,
    ) -> (r: Option<Result<Vec<BtreeIndexRow>, BtreeIndexError>>)
        requires
            forall|codec: CommonCompression, s: &[u8], n: u64|
                call_requires(decompress, (codec, s, n)),
        ensures
            lookup_gives(
                self@,
                (QueryModel::Range { start: range.start@, end: range.end@ }),
                decompress,
                outcome_view(r),
            ),
    {
        let query = BtreeIndexQuery::Range {
            start: bytes_clone(range.start),
            end: bytes_clone(range.end),
        };
        self.lookup(&query, decompress)
    }
}

} // verus!
