//! Writing an index file.

use bytes::Bytes;

use vstd::prelude::*;

use crate::codec;
use crate::codec::{bytes_as_slice, bytes_from_vec, bytes_of, crc32, crc32_of, decoded_filter,
    decoded_footer, decoded_index, differ_at, encoded_filter, encoded_footer, encoded_index,
    encoded_rows};
use crate::error::{BtreeIndexError, BtreeIndexPart};
use crate::format::{BTREE_INDEX_BLOOM_SEED, BTREE_INDEX_FILE_VERSION, BTREE_INDEX_MAGIC,
    DEFAULT_BTREE_INDEX_BLOOM_BITS_PER_KEY, DEFAULT_BTREE_INDEX_DATA_BLOCK_SIZE};
use crate::format::{checksum_outcome, first_section, footer_place, rows_outcome};
use crate::lex::{append_bytes, bytes_clone, bytes_eq, bytes_lt, le32_bytes, lex_lt, push_le32};
use crate::lex::{lemma_le32_round_trip, lemma_lex_le_transitive, lemma_lex_lt_is_le,
    lemma_lex_total, lemma_lex_transitive};
use crate::record::{block_records, footer_record, kinds_known};
use crate::sort::{is_sorted, lemma_stable_sort_items, lemma_stable_sort_sorted,
    lemma_stable_sort_unique, lemma_stable_sort_view, sort_stably, stable_sort};
use crate::sort::{Ranked, Sortable};
use crate::types::{blocks_view, rows_view, sections_view};
use crate::types::{BlockModel, FilterModel, FooterModel, MetaModel, RowModel, SectionModel};
use crate::view::{file_filter_outcome, file_index_outcome, joined, names_codec, open_outcome,
    opt_bytes, FileModel};
use crate::types::{BtreeIndexDataBlockMeta, BtreeIndexFilterBlock, BtreeIndexFooter, BtreeIndexMeta,
    BtreeIndexRow, BtreeIndexSection, BtreeIndexSectionKind, CommonCompression};

verus! {

impl Ranked for RowModel {
    open spec fn ranks_before(self, other: Self) -> bool {
        lex_lt(self.0, other.0)
    }

    proof fn rank_asymmetric(a: Self, b: Self) {
        if lex_lt(a.0, b.0) {
            lemma_lex_lt_is_le(a.0, b.0);
        }
    }

    proof fn rank_negatively_transitive(a: Self, b: Self, c: Self) {
        lemma_lex_le_transitive(a.0, b.0, c.0);
    }
}

impl Ranked for BtreeIndexRow {
    open spec fn ranks_before(self, other: Self) -> bool {
        self@.ranks_before(other@)
    }

    proof fn rank_asymmetric(a: Self, b: Self) {
        RowModel::rank_asymmetric(a@, b@);
    }

    proof fn rank_negatively_transitive(a: Self, b: Self, c: Self) {
        RowModel::rank_negatively_transitive(a@, b@, c@);
    }
}

impl Sortable for BtreeIndexRow {
    fn is_before(&self, other: &Self) -> (r: bool) {
        bytes_lt(self.encoded_key.as_slice(), other.encoded_key.as_slice())
    }
}

impl Ranked for Vec<u8> {
    open spec fn ranks_before(self, other: Self) -> bool {
        lex_lt(self@, other@)
    }

    proof fn rank_asymmetric(a: Self, b: Self) {
        if lex_lt(a@, b@) {
            lemma_lex_lt_is_le(a@, b@);
        }
    }

    proof fn rank_negatively_transitive(a: Self, b: Self, c: Self) {
        lemma_lex_le_transitive(a@, b@, c@);
    }
}

impl Sortable for Vec<u8> {
    fn is_before(&self, other: &Self) -> (r: bool) {
        bytes_lt(self.as_slice(), other.as_slice())
    }
}

/// Collects rows and equality prefixes and writes them as an index file.
#[derive(Debug)]
pub struct BtreeIndexWriter {
    pub meta: BtreeIndexMeta,
    pub schema: String,
    pub key_order: String,
    pub compression: String,
    pub data_block_size: usize,
    pub rows: Vec<BtreeIndexRow>,
    pub equality_prefixes: Vec<Vec<u8>>,
}

/// The byte strings in a vector of vectors.
pub open spec fn strings_view(strings: Seq<Vec<u8>>) -> Seq<Seq<u8>> {
    Seq::new(strings.len(), |i: int| strings[i]@)
}

/// The byte strings stand in strictly ascending order.
pub open spec fn ascending(strings: Seq<Seq<u8>>) -> bool {
    forall|i: int, j: int|
        0 <= i < j < strings.len() ==> lex_lt(#[trigger] strings[i], #[trigger] strings[j])
}

/// `distinct` holds the byte strings of `strings`, each once, in ascending order.
pub open spec fn is_distinct_of(distinct: Seq<Seq<u8>>, strings: Seq<Seq<u8>>) -> bool {
    &&& ascending(distinct)
    &&& forall|x: Seq<u8>| #[trigger] distinct.contains(x) <==> strings.contains(x)
}

/// The bytes that rows take: keys and payloads.
pub open spec fn weight(rows: Seq<RowModel>) -> int
    decreases rows.len(),
{
    if rows.len() == 0 {
        0
    } else {
        weight(rows.drop_last()) + rows.last().0.len() + rows.last().1.len()
    }
}

/// The data blocks that rows fill, and the rows that are left: a block ends with the row that
/// brings it to the block size.
pub open spec fn filled_blocks(rows: Seq<RowModel>, size: int) -> (
    Seq<Seq<RowModel>>,
    Seq<RowModel>,
)
    decreases rows.len(),
{
    if rows.len() == 0 {
        (Seq::empty(), Seq::empty())
    } else {
        let before = filled_blocks(rows.drop_last(), size);
        let pending = before.1.push(rows.last());
        if weight(pending) >= size {
            (before.0.push(pending), Seq::empty())
        } else {
            (before.0, pending)
        }
    }
}

/// The data blocks of a file with these rows; the last one may be short.
pub open spec fn data_blocks(rows: Seq<RowModel>, size: int) -> Seq<Seq<RowModel>> {
    let filled = filled_blocks(rows, size);
    if filled.1.len() == 0 {
        filled.0
    } else {
        filled.0.push(filled.1)
    }
}

/// Byte strings, one after the other.
pub open spec fn concatenated(parts: Seq<Seq<u8>>) -> Seq<u8>
    decreases parts.len(),
{
    if parts.len() == 0 {
        Seq::empty()
    } else {
        concatenated(parts.drop_last()) + parts.last()
    }
}

/// The entry of a data block that takes these bytes at an offset in the file.
pub open spec fn block_entry(rows: Seq<RowModel>, offset: int, compressed: Seq<u8>) -> BlockModel {
    (
        rows.first().0,
        rows.last().0,
        offset as u64,
        compressed.len() as u64,
        encoded_rows(rows).len() as u64,
        rows.len() as u32,
        crc32(compressed),
    )
}

/// The entries of the data blocks, given the bytes that each takes in the file.
pub open spec fn block_entries(
    blocks: Seq<Seq<RowModel>>,
    compressed: Seq<Seq<u8>>,
) -> Seq<BlockModel> {
    Seq::new(
        blocks.len(),
        |i: int|
            block_entry(
                blocks[i],
                concatenated(compressed.take(i)).len() as int,
                compressed[i],
            ),
    )
}

/// Asked to compress these bytes, the host may answer so.
pub open spec fn compresses<C: Fn(CommonCompression, &[u8]) -> Option<Vec<u8>>>(
    compress: C,
    codec: CommonCompression,
    bytes: Seq<u8>,
    answer: Option<Seq<u8>>,
) -> bool {
    exists|s: &[u8], a: Option<Vec<u8>>|
        s@ == bytes && opt_bytes(a) == answer && #[trigger] call_ensures(compress, (codec, s), a)
}

/// Asked to compress the rows of the blocks, the host may answer so.
pub open spec fn compresses_all<C: Fn(CommonCompression, &[u8]) -> Option<Vec<u8>>>(
    compress: C,
    codec: CommonCompression,
    blocks: Seq<Seq<RowModel>>,
    compressed: Seq<Seq<u8>>,
) -> bool {
    &&& compressed.len() == blocks.len()
    &&& forall|i: int|
        0 <= i < blocks.len() ==> compresses(
            compress,
            codec,
            encoded_rows(blocks[i]),
            Some(#[trigger] compressed[i]),
        )
}

/// The host compresses the rows of every block.
pub open spec fn blocks_accepted<C: Fn(CommonCompression, &[u8]) -> Option<Vec<u8>>>(
    compress: C,
    codec: CommonCompression,
    blocks: Seq<Seq<RowModel>>,
) -> bool {
    exists|compressed: Seq<Seq<u8>>| #[trigger] compresses_all(compress, codec, blocks, compressed)
}

/// The host compresses the blocks before this one, and cannot compress this one.
pub open spec fn refused_at<C: Fn(CommonCompression, &[u8]) -> Option<Vec<u8>>>(
    compress: C,
    codec: CommonCompression,
    blocks: Seq<Seq<RowModel>>,
    i: int,
) -> bool {
    &&& 0 <= i < blocks.len()
    &&& blocks_accepted(compress, codec, blocks.take(i))
    &&& compresses(compress, codec, encoded_rows(blocks[i]), None)
}

/// Asked for a filter of so many bits over the prefixes, the host may answer so.
pub open spec fn builds_filter<B: Fn(&Vec<Vec<u8>>, u64, u64) -> Option<Vec<u8>>>(
    build: B,
    prefixes: Seq<Seq<u8>>,
    answer: Option<Seq<u8>>,
) -> bool {
    exists|p: &Vec<Vec<u8>>, a: Option<Vec<u8>>|
        strings_view(p@) == prefixes && opt_bytes(a) == answer && #[trigger] call_ensures(
            build,
            (p, filter_bits(prefixes.len() as int) as u64, BTREE_INDEX_BLOOM_SEED),
            a,
        )
}

/// The filter's size in bits for so many prefixes: at least one.
pub open spec fn filter_bits(prefixes: int) -> int {
    if prefixes * DEFAULT_BTREE_INDEX_BLOOM_BITS_PER_KEY > u64::MAX {
        u64::MAX as int
    } else if prefixes == 0 {
        1
    } else {
        prefixes * DEFAULT_BTREE_INDEX_BLOOM_BITS_PER_KEY
    }
}

/// The parts of a file: its data section, its index, its filter, and what its footer says.
pub struct FileParts {
    pub schema: Seq<char>,
    pub key_order: Seq<char>,
    pub compression: Seq<char>,
    pub meta: MetaModel,
    pub data: Seq<u8>,
    pub entries: Seq<BlockModel>,
    pub filter: FilterModel,
}

impl FileParts {
    /// The bytes of the filter section.
    pub open spec fn filter_section(self) -> Seq<u8> {
        encoded_filter(self.filter)
    }

    /// The bytes of the index section.
    pub open spec fn index_section(self) -> Seq<u8> {
        encoded_index(self.entries)
    }

    /// The bytes before the footer.
    pub open spec fn body(self) -> Seq<u8> {
        self.data + self.filter_section() + self.index_section()
    }

    /// The sections of the file.
    pub open spec fn sections(self) -> Seq<SectionModel> {
        let filter = self.filter_section();
        let index = self.index_section();
        seq![
            (0u32, 0u64, self.data.len() as u64, crc32(self.data)),
            (1u32, self.data.len() as u64, filter.len() as u64, crc32(filter)),
            (2u32, (self.data + filter).len() as u64, index.len() as u64, crc32(index)),
            (3u32, self.body().len() as u64, 0u64, 0u32),
        ]
    }

    /// The footer.
    pub open spec fn footer(self) -> FooterModel {
        (
            BTREE_INDEX_FILE_VERSION,
            self.schema,
            self.key_order,
            self.compression,
            self.meta,
            crc32(self.body()),
            self.sections(),
        )
    }

    /// The bytes of the file.
    pub open spec fn file(self) -> Seq<u8> {
        let footer = encoded_footer(self.footer());
        self.body() + footer + le32_bytes(footer.len() as int) + BTREE_INDEX_MAGIC@
    }

    /// The file as it is once opened.
    pub open spec fn opened(self, compression: CommonCompression) -> FileModel {
        FileModel {
            data: self.file(),
            footer: self.footer(),
            blocks: self.entries,
            filter: self.filter,
            compression,
        }
    }
}

/// The checksum of a byte string tells it from those that differ from it in a single byte.
pub open spec fn is_guarded(bytes: Seq<u8>) -> bool {
    forall|other: Seq<u8>, i: int| #[trigger]
        differ_at(bytes, other, i) ==> crc32(bytes) != crc32(other)
}

/// The rows of each block can be read back from their encoded form.
pub open spec fn readable(blocks: Seq<Seq<RowModel>>) -> bool {
    forall|i: int|
        0 <= i < blocks.len() ==> rows_outcome(encoded_rows(#[trigger] blocks[i])) == Some(
            Ok::<_, BtreeIndexError>(blocks[i]),
        )
}

impl BtreeIndexWriter {
    /// A writer without rows.
    pub fn new(meta: BtreeIndexMeta, schema: &str, key_order: &str, compression: &str) -> (r: Self)
        ensures
            r.meta == meta,
            r.schema@ == schema@,
            r.key_order@ == key_order@,
            r.compression@ == compression@,
            r.data_block_size == DEFAULT_BTREE_INDEX_DATA_BLOCK_SIZE,
            r.rows@.len() == 0,
            r.equality_prefixes@.len() == 0,
    {
        BtreeIndexWriter {
            meta,
            schema: schema.to_owned(),
            key_order: key_order.to_owned(),
            compression: compression.to_owned(),
            data_block_size: DEFAULT_BTREE_INDEX_DATA_BLOCK_SIZE,
            rows: Vec::new(),
            equality_prefixes: Vec::new(),
        }
    }

    /// The writer with another block size; zero counts as one.
    pub fn with_data_block_size(self, data_block_size: usize) -> (r: Self)
        ensures
            r == (BtreeIndexWriter {
                data_block_size: if data_block_size == 0 {
                    1
                } else {
                    data_block_size
                },
                ..self
            }),
    {
        let mut writer = self;
        writer.data_block_size = if data_block_size == 0 {
            1
        } else {
            data_block_size
        };
        writer
    }

    /// Adds a row.
    pub fn add_row(&mut self, encoded_key: Bytes, encoded_row_payload: Bytes)
        ensures
            rows_view(final(self).rows@) == rows_view(old(self).rows@).push(
                (bytes_of(encoded_key), bytes_of(encoded_row_payload)),
            ),
            *final(self) == (BtreeIndexWriter { rows: final(self).rows, ..*old(self) }),
    {
        let row = BtreeIndexRow {
            encoded_key: bytes_clone(bytes_as_slice(&encoded_key)),
            encoded_row_payload: bytes_clone(bytes_as_slice(&encoded_row_payload)),
        };
        self.rows.push(row);
        assert(rows_view(self.rows@) =~= rows_view(old(self).rows@).push(
            (bytes_of(encoded_key), bytes_of(encoded_row_payload)),
        ));
    }

    /// Adds an equality prefix.
    pub fn add_equality_prefix(&mut self, prefix: Bytes)
        ensures
            strings_view(final(self).equality_prefixes@) == strings_view(
                old(self).equality_prefixes@,
            ).push(bytes_of(prefix)),
            *final(self) == (BtreeIndexWriter {
                equality_prefixes: final(self).equality_prefixes,
                ..*old(self)
            }),
    {
        self.equality_prefixes.push(bytes_clone(bytes_as_slice(&prefix)));
        assert(strings_view(self.equality_prefixes@) =~= strings_view(
            old(self).equality_prefixes@,
        ).push(bytes_of(prefix)));
    }
}

/// The byte strings, each once, in ascending order.
fn distinct_strings(strings: Vec<Vec<u8>>) -> (r: Vec<Vec<u8>>)
    ensures
        is_distinct_of(strings_view(r@), strings_view(strings@)),
{
    let sorted = sort_stably(strings);
    let ghost s = strings_view(sorted@);
    proof {
        lemma_stable_sort_sorted(strings@, sorted@);
        assert forall|x: Seq<u8>| #[trigger] s.contains(x) <==> strings_view(strings@).contains(
            x,
        ) by {
            if s.contains(x) {
                let i = choose|i: int| 0 <= i < s.len() && s[i] == x;
                lemma_stable_sort_items(strings@, sorted@, sorted@[i]);
                let j = choose|j: int| 0 <= j < strings@.len() && strings@[j] == sorted@[i];
                assert(strings_view(strings@)[j] == x);
            }
            if strings_view(strings@).contains(x) {
                let i = choose|i: int|
                    0 <= i < strings_view(strings@).len() && strings_view(strings@)[i] == x;
                lemma_stable_sort_items(strings@, sorted@, strings@[i]);
                let j = choose|j: int| 0 <= j < sorted@.len() && sorted@[j] == strings@[i];
                assert(s[j] == x);
            }
        }
    }
    let mut r: Vec<Vec<u8>> = Vec::new();
    let mut i: usize = 0;
    while i < sorted.len()
        invariant
            i <= sorted@.len(),
            s == strings_view(sorted@),
            is_sorted(sorted@),
            ascending(strings_view(r@)),
            i > 0 ==> r@.len() > 0 && r@.last()@ == s[i - 1],
            i == 0 ==> r@.len() == 0,
            forall|x: Seq<u8>| #[trigger]
                strings_view(r@).contains(x) <==> s.take(i as int).contains(x),
        decreases sorted@.len() - i,
    {
        let ghost before = strings_view(r@);
        let ghost x = s[i as int];
        let repeated = r.len() > 0 && bytes_eq(r[r.len() - 1].as_slice(), sorted[i].as_slice());
        if !repeated {
            r.push(bytes_clone(sorted[i].as_slice()));
            proof {
                let after = strings_view(r@);
                assert(after =~= before.push(x));
                assert forall|a: int, b: int| 0 <= a < b < after.len() implies lex_lt(
                    #[trigger] after[a],
                    #[trigger] after[b],
                ) by {
                    if b == before.len() {
                        assert(after[a] == before[a]);
                        let l = before.last();
                        assert(l == s[i - 1]);
                        assert(!sorted@[i as int].ranks_before(sorted@[i - 1]));
                        lemma_lex_total(l, x);
                        if a < before.len() - 1 {
                            lemma_lex_transitive(before[a], l, x);
                        }
                    } else {
                        assert(after[a] == before[a] && after[b] == before[b]);
                    }
                }
            }
        }
        proof {
            let after = strings_view(r@);
            assert(s.take(i + 1) =~= s.take(i as int).push(x));
            assert forall|y: Seq<u8>| #[trigger] after.contains(y) <==> s.take(i + 1).contains(
                y,
            ) by {
                if after.contains(y) {
                    if before.contains(y) {
                        let t = s.take(i as int);
                        let k = choose|k: int| 0 <= k < t.len() && t[k] == y;
                        assert(s.take(i + 1)[k] == y);
                    } else {
                        let k = choose|k: int| 0 <= k < after.len() && after[k] == y;
                        if k < before.len() {
                            assert(before[k] == y);
                        }
                        assert(s.take(i + 1)[i as int] == y);
                    }
                }
                if s.take(i + 1).contains(y) {
                    let t = s.take(i + 1);
                    let k = choose|k: int| 0 <= k < t.len() && t[k] == y;
                    if k < i {
                        assert(s.take(i as int)[k] == y);
                        assert(before.contains(y));
                        let m = choose|m: int| 0 <= m < before.len() && before[m] == y;
                        assert(after[m] == y);
                    } else {
                        assert(after.last() == y);
                    }
                }
            }
        }
        i = i + 1;
    }
    proof {
        assert(s.take(s.len() as int) =~= s);
    }
    r
}

/// The size in bits of the filter over so many prefixes.
fn filter_size(prefixes: usize) -> (r: u64)
    ensures
        r == filter_bits(prefixes as int),
{
    let n: u64 = prefixes as u64;
    match n.checked_mul(DEFAULT_BTREE_INDEX_BLOOM_BITS_PER_KEY) {
        Some(bits) => if bits == 0 {
            1
        } else {
            bits
        },
        None => u64::MAX,
    }
}

/// Compresses a block of rows and appends it to the data section and its entry to the index.
fn push_data_block<C: Fn(CommonCompression, &[u8]) -> Option<Vec<u8>>>(
    data: &mut Vec<u8>,
    entries: &mut Vec<BtreeIndexDataBlockMeta>,
    rows: &[BtreeIndexRow],
    codec: CommonCompression,
    compress: &C,
) -> (r: Result<(), BtreeIndexError>)
    requires
        rows@.len() > 0,
        forall|codec: CommonCompression, s: &[u8]| call_requires(*compress, (codec, s)),
    ensures
        rows_outcome(encoded_rows(rows_view(rows@))) == Some(
            Ok::<_, BtreeIndexError>(rows_view(rows@)),
        ),
        match r {
            Ok(_) => exists|c: Seq<u8>|
                {
                    &&& #[trigger] compresses(
                        *compress,
                        codec,
                        encoded_rows(rows_view(rows@)),
                        Some(c),
                    )
                    &&& final(data)@ == old(data)@ + c
                    &&& blocks_view(final(entries)@) == blocks_view(old(entries)@).push(
                        block_entry(rows_view(rows@), old(data)@.len() as int, c),
                    )
                },
            Err(e) => e == BtreeIndexError::Compress && compresses(
                *compress,
                codec,
                encoded_rows(rows_view(rows@)),
                None,
            ),
        },
{
    let first_key = bytes_clone(rows[0].encoded_key.as_slice());
    let last_key = bytes_clone(rows[rows.len() - 1].encoded_key.as_slice());
    let offset: u64 = data.len() as u64;
    let row_count: u32 = #[verifier::truncate]
    (rows.len() as u32);
    let block_bytes = match codec::encode_rows(rows) {
        Ok(bytes) => bytes,
        Err(_) => {
            return Err(BtreeIndexError::Encode { part: BtreeIndexPart::DataBlock });
        },
    };
    let uncompressed_length: u64 = block_bytes.len() as u64;
    let answer = compress(codec, block_bytes.as_slice());
    assert(compresses(*compress, codec, block_bytes@, opt_bytes(answer)));
    let compressed = match answer {
        Some(compressed) => compressed,
        None => {
            return Err(BtreeIndexError::Compress);
        },
    };
    let checksum: u32 = crc32_of(compressed.as_slice());
    append_bytes(data, compressed.as_slice());
    let entry = BtreeIndexDataBlockMeta {
        first_key,
        last_key,
        offset,
        length: compressed.len() as u64,
        uncompressed_length,
        row_count,
        checksum,
    };
    entries.push(entry);
    proof {
        let rv = rows_view(rows@);
        assert(rv.first() == rows@[0]@);
        assert(rv.last() == rows@[rows@.len() - 1]@);
        assert(entry@ == block_entry(rv, old(data)@.len() as int, compressed@));
        assert(blocks_view(entries@) =~= blocks_view(old(entries)@).push(entry@));
    }
    Ok(())
}

proof fn lemma_filled_prefix(rows: Seq<RowModel>, i: int, size: int)
    requires
        0 <= i <= rows.len(),
    ensures
        filled_blocks(rows.take(i), size).0.is_prefix_of(data_blocks(rows, size)),
    decreases rows.len() - i,
{
    let early = filled_blocks(rows.take(i), size).0;
    if i == rows.len() {
        assert(rows.take(i) =~= rows);
        assert(early =~= data_blocks(rows, size).take(early.len() as int));
    } else {
        lemma_filled_prefix(rows, i + 1, size);
        assert(rows.take(i + 1).drop_last() =~= rows.take(i));
        let late = filled_blocks(rows.take(i + 1), size).0;
        let all = data_blocks(rows, size);
        assert(early =~= late.take(early.len() as int));
        assert(early =~= all.take(early.len() as int));
    }
}

proof fn lemma_filled_nonempty(rows: Seq<RowModel>, size: int)
    ensures
        forall|k: int|
            0 <= k < filled_blocks(rows, size).0.len() ==> (#[trigger] filled_blocks(
                rows,
                size,
            ).0[k]).len() > 0,
    decreases rows.len(),
{
    if rows.len() > 0 {
        lemma_filled_nonempty(rows.drop_last(), size);
        let before = filled_blocks(rows.drop_last(), size);
        let after = filled_blocks(rows, size);
        assert forall|k: int| 0 <= k < after.0.len() implies (#[trigger] after.0[k]).len() > 0 by {
            if k < before.0.len() {
                assert(after.0[k] == before.0[k]);
            }
        }
    }
}

/// No data block is empty.
pub proof fn lemma_data_blocks_nonempty(rows: Seq<RowModel>, size: int)
    ensures
        forall|k: int|
            0 <= k < data_blocks(rows, size).len() ==> (#[trigger] data_blocks(
                rows,
                size,
            )[k]).len() > 0,
{
    lemma_filled_nonempty(rows, size);
}

/// The data blocks, one after the other, hold the rows.
pub proof fn lemma_data_blocks_hold_rows(rows: Seq<RowModel>, size: int)
    ensures
        joined(data_blocks(rows, size)) == rows,
{
    lemma_filled_hold_rows(rows, size);
    let filled = filled_blocks(rows, size);
    if filled.1.len() == 0 {
        assert(joined(filled.0) + filled.1 =~= joined(filled.0));
    } else {
        assert(filled.0.push(filled.1).drop_last() =~= filled.0);
    }
}

proof fn lemma_filled_hold_rows(rows: Seq<RowModel>, size: int)
    ensures
        joined(filled_blocks(rows, size).0) + filled_blocks(rows, size).1 == rows,
    decreases rows.len(),
{
    if rows.len() == 0 {
        assert(joined(filled_blocks(rows, size).0) + filled_blocks(rows, size).1 =~= rows);
    } else {
        lemma_filled_hold_rows(rows.drop_last(), size);
        let before = filled_blocks(rows.drop_last(), size);
        let pending = before.1.push(rows.last());
        assert(joined(before.0) + pending =~= rows.drop_last().push(rows.last()));
        assert(rows.drop_last().push(rows.last()) =~= rows);
        if weight(pending) >= size {
            assert(before.0.push(pending).drop_last() =~= before.0);
            assert(joined(before.0.push(pending)) + Seq::<RowModel>::empty() =~= joined(before.0)
                + pending);
        }
    }
}

proof fn lemma_block_entries_push(
    blocks: Seq<Seq<RowModel>>,
    compressed: Seq<Seq<u8>>,
    rows: Seq<RowModel>,
    c: Seq<u8>,
)
    requires
        blocks.len() == compressed.len(),
    ensures
        block_entries(blocks.push(rows), compressed.push(c)) == block_entries(
            blocks,
            compressed,
        ).push(block_entry(rows, concatenated(compressed).len() as int, c)),
        concatenated(compressed.push(c)) == concatenated(compressed) + c,
{
    assert(compressed.push(c).drop_last() =~= compressed);
    let n = compressed.len() as int;
    assert(compressed.push(c).take(n) =~= compressed);
    assert forall|i: int| 0 <= i < n implies compressed.push(c).take(i) == #[trigger] compressed.take(
        i,
    ) by {
        assert(compressed.push(c).take(i) =~= compressed.take(i));
    }
    assert(block_entries(blocks.push(rows), compressed.push(c)) =~= block_entries(
        blocks,
        compressed,
    ).push(block_entry(rows, concatenated(compressed).len() as int, c)));
}

/// Writes the data blocks of the rows: the data section and the entries of its blocks.
fn write_data_blocks<C: Fn(CommonCompression, &[u8]) -> Option<Vec<u8>>>(
    rows: &Vec<BtreeIndexRow>,
    data_block_size: usize,
    codec: CommonCompression,
    compress: &C,
) -> (r: Result<(Vec<u8>, Vec<BtreeIndexDataBlockMeta>), BtreeIndexError>)
    requires
        forall|codec: CommonCompression, s: &[u8]| call_requires(*compress, (codec, s)),
    ensures
        ({
            let blocks = data_blocks(rows_view(rows@), data_block_size as int);
            match r {
                Ok(written) => {
                    &&& readable(blocks)
                    &&& exists|compressed: Seq<Seq<u8>>|
                        {
                            &&& #[trigger] compresses_all(*compress, codec, blocks, compressed)
                            &&& written.0@ == concatenated(compressed)
                            &&& blocks_view(written.1@) == block_entries(blocks, compressed)
                        }
                },
                Err(e) => e == BtreeIndexError::Compress && exists|i: int| #[trigger]
                    refused_at(*compress, codec, blocks, i),
            }
        }),
{
    let ghost rv = rows_view(rows@);
    let ghost size = data_block_size as int;
    let ghost blocks = data_blocks(rv, size);
    let mut data: Vec<u8> = Vec::new();
    let mut entries: Vec<BtreeIndexDataBlockMeta> = Vec::new();
    let mut start: usize = 0;
    let mut pending_size: usize = 0;
    let mut i: usize = 0;
    let ghost mut done: Seq<Seq<RowModel>> = Seq::empty();
    let ghost mut compressed: Seq<Seq<u8>> = Seq::empty();
    proof {
        assert(rv.take(0) =~= Seq::<RowModel>::empty());
        assert(rv.subrange(0, 0) =~= Seq::<RowModel>::empty());
        assert(blocks_view(entries@) =~= block_entries(done, compressed));
    }
    while i < rows.len()
        invariant
            forall|codec: CommonCompression, s: &[u8]| call_requires(*compress, (codec, s)),
            rv == rows_view(rows@),
            size == data_block_size,
            blocks == data_blocks(rv, size),
            start <= i <= rows@.len(),
            filled_blocks(rv.take(i as int), size) == (
                done,
                rv.subrange(start as int, i as int),
            ),
            pending_size == (if weight(rv.subrange(start as int, i as int)) > usize::MAX {
                usize::MAX as int
            } else {
                weight(rv.subrange(start as int, i as int))
            }),
            readable(done),
            compresses_all(*compress, codec, done, compressed),
            data@ == concatenated(compressed),
            blocks_view(entries@) == block_entries(done, compressed),
        decreases rows@.len() - i,
    {
        let row = &rows[i];
        pending_size = pending_size.saturating_add(row.encoded_key.len()).saturating_add(
            row.encoded_row_payload.len(),
        );
        let ghost pending = rv.subrange(start as int, i + 1);
        proof {
            assert(rv.take(i + 1).drop_last() =~= rv.take(i as int));
            assert(rv.take(i + 1).last() == row@);
            assert(pending.drop_last() =~= rv.subrange(start as int, i as int));
            assert(pending.last() == row@);
            assert(pending =~= rv.subrange(start as int, i as int).push(row@));
        }
        if pending_size >= data_block_size {
            let block = vstd::slice::slice_subrange(rows.as_slice(), start, i + 1);
            proof {
                assert(rows_view(block@) =~= pending);
                lemma_filled_prefix(rv, i + 1, size);
                assert(filled_blocks(rv.take(i + 1), size).0 == done.push(pending));
                assert(blocks[done.len() as int] == done.push(pending)[done.len() as int]);
            }
            let ghost old_data = data@;
            let ghost old_entries = blocks_view(entries@);
            match push_data_block(&mut data, &mut entries, block, codec, compress) {
                Ok(_) => {},
                Err(e) => {
                    proof {
                        assert(blocks.take(done.len() as int) =~= done) by {
                            assert(done =~= done.push(pending).take(done.len() as int));
                        }
                        assert(compresses_all(*compress, codec, done, compressed));
                        assert(refused_at(*compress, codec, blocks, done.len() as int));
                    }
                    return Err(e);
                },
            }
            proof {
                let c = choose|c: Seq<u8>|
                    {
                        &&& #[trigger] compresses(
                            *compress,
                            codec,
                            encoded_rows(pending),
                            Some(c),
                        )
                        &&& data@ == old_data + c
                        &&& blocks_view(entries@) == old_entries.push(
                            block_entry(pending, old_data.len() as int, c),
                        )
                    };
                lemma_block_entries_push(done, compressed, pending, c);
                let was = compressed;
                let had = done;
                compressed = compressed.push(c);
                done = done.push(pending);
                assert forall|k: int| 0 <= k < done.len() implies compresses(
                    *compress,
                    codec,
                    encoded_rows(done[k]),
                    Some(#[trigger] compressed[k]),
                ) by {
                    if k < was.len() {
                        assert(compressed[k] == was[k]);
                        assert(done[k] == had[k]);
                    }
                }
                assert(rv.subrange(i + 1, i + 1) =~= Seq::<RowModel>::empty());
            }
            start = i + 1;
            pending_size = 0;
        }
        i = i + 1;
    }
    proof {
        assert(rv.take(rv.len() as int) =~= rv);
    }
    if start < rows.len() {
        let ghost pending = rv.subrange(start as int, rv.len() as int);
        let block = vstd::slice::slice_subrange(rows.as_slice(), start, rows.len());
        proof {
            assert(rows_view(block@) =~= pending);
            assert(blocks == done.push(pending));
            assert(blocks[done.len() as int] == pending);
        }
        let ghost old_data = data@;
        let ghost old_entries = blocks_view(entries@);
        match push_data_block(&mut data, &mut entries, block, codec, compress) {
            Ok(_) => {},
            Err(e) => {
                proof {
                    assert(blocks.take(done.len() as int) =~= done);
                    assert(compresses_all(*compress, codec, done, compressed));
                    assert(refused_at(*compress, codec, blocks, done.len() as int));
                }
                return Err(e);
            },
        }
        proof {
            let c = choose|c: Seq<u8>|
                {
                    &&& #[trigger] compresses(*compress, codec, encoded_rows(pending), Some(c))
                    &&& data@ == old_data + c
                    &&& blocks_view(entries@) == old_entries.push(
                        block_entry(pending, old_data.len() as int, c),
                    )
                };
            lemma_block_entries_push(done, compressed, pending, c);
            let was = compressed;
            compressed = compressed.push(c);
            assert forall|k: int| 0 <= k < blocks.len() implies compresses(
                *compress,
                codec,
                encoded_rows(blocks[k]),
                Some(#[trigger] compressed[k]),
            ) by {
                if k < was.len() {
                    assert(compressed[k] == was[k]);
                    assert(blocks[k] == done[k]);
                }
            }
            assert forall|k: int| 0 <= k < blocks.len() implies rows_outcome(
                encoded_rows(#[trigger] blocks[k]),
            ) == Some(Ok::<_, BtreeIndexError>(blocks[k])) by {
                if k < done.len() {
                    assert(blocks[k] == done[k]);
                }
            }
        }
    } else {
        proof {
            assert(rv.subrange(start as int, rv.len() as int).len() == 0);
            assert(blocks == done);
        }
    }
    proof {
        assert(compresses_all(*compress, codec, blocks, compressed));
    }
    Ok((data, entries))
}

/// Among one section of each kind, in order, each is found.
pub proof fn lemma_sections_found(sections: Seq<SectionModel>)
    requires
        sections.len() == 4,
        forall|k: int| 0 <= k < 4 ==> (#[trigger] sections[k]).0 == k,
    ensures
        forall|k: u32| k < 4 ==> #[trigger] first_section(sections, k) == Some(sections[k as int]),
{
    reveal_with_fuel(first_section, 5);
    let s1 = sections.skip(1);
    let s2 = s1.skip(1);
    let s3 = s2.skip(1);
    assert(sections[0].0 == 0 && sections[1].0 == 1 && sections[2].0 == 2 && sections[3].0 == 3);
    assert(s1[0] == sections[1]);
    assert(s2[0] == sections[2]);
    assert(s3[0] == sections[3]);
}

/// What was sealed opens again: the parts of the file are those that it was made of.
proof fn lemma_sealed_opens(parts: FileParts, codec: CommonCompression)
    requires
        parts.file().len() <= u64::MAX,
        encoded_footer(parts.footer()).len() < 0x1_0000_0000,
        decoded_footer(encoded_footer(parts.footer())) == Some(
            (parts.footer(), encoded_footer(parts.footer()).len() as int),
        ),
        decoded_filter(parts.filter_section()) == Some(
            (parts.filter, parts.filter_section().len() as int),
        ),
        decoded_index(parts.index_section()) == Some(
            (parts.entries, parts.index_section().len() as int),
        ),
    ensures
        open_outcome(parts.file(), Some(codec)) == Some(
            Ok::<_, BtreeIndexError>(parts.opened(codec)),
        ),
{
    let file = parts.file();
    let body = parts.body();
    let footer = encoded_footer(parts.footer());
    let tail = le32_bytes(footer.len() as int);
    let n = file.len() as int;
    assert(n == body.len() + footer.len() + 12);
    assert(file.subrange(n - 8, n) =~= BTREE_INDEX_MAGIC@);
    assert(file.subrange(n - 12, n - 8) =~= tail);
    lemma_le32_round_trip(footer.len() as int);
    assert(footer_place(file) == Ok::<(int, int), BtreeIndexError>((body.len() as int, n - 12)));
    assert(file.subrange(body.len() as int, n - 12) =~= footer);
    let sections = parts.sections();
    assert(kinds_known(sections)) by {
        assert forall|i: int| 0 <= i < sections.len() implies (#[trigger] sections[i]).0 <= 3 by {
            assert(i == 0 || i == 1 || i == 2 || i == 3);
        }
    }
    lemma_sections_found(sections);
    assert(first_section(sections, 3) == Some(sections[3]));
    assert(first_section(sections, 2) == Some(sections[2]));
    assert(first_section(sections, 1) == Some(sections[1]));
    assert(file.subrange(0, body.len() as int) =~= body);
    assert(checksum_outcome(file, parts.footer()) == Ok::<(), BtreeIndexError>(()));
    let filter = parts.filter_section();
    let index = parts.index_section();
    let at = parts.data.len() as int;
    assert(file.subrange(at, at + filter.len()) =~= filter);
    assert(file.subrange(at + filter.len(), at + filter.len() + index.len()) =~= index);
    assert(file_index_outcome(file, parts.footer()) == Some(
        Ok::<_, BtreeIndexError>(parts.entries),
    ));
    assert(file_filter_outcome(file, parts.footer()) == Some(
        Ok::<_, BtreeIndexError>(parts.filter),
    ));
}

/// Puts the sections of a file together and seals them with a footer.
///
/// What was sealed can be opened again, with the parts that it was made of, where the footer's
/// length fits the four bytes that hold it.
pub fn seal(
    schema: String,
    key_order: String,
    compression: String,
    meta: BtreeIndexMeta,
    data: Vec<u8>,
    entries: Vec<BtreeIndexDataBlockMeta>,
    filter_block: BtreeIndexFilterBlock,
) -> (r: Result<Bytes, BtreeIndexError>)
    ensures
        ({
            let parts = FileParts {
                schema: schema@,
                key_order: key_order@,
                compression: compression@,
                meta: meta@,
                data: data@,
                entries: blocks_view(entries@),
                filter: filter_block@,
            };
            r matches Ok(bytes) && {
                &&& bytes_of(bytes) == parts.file()
                &&& parts.file().len() <= u64::MAX
                &&& is_guarded(parts.body())
                &&& meta.wf() && encoded_footer(parts.footer()).len() < 0x1_0000_0000
                    ==> forall|codec: CommonCompression| #[trigger]
                    open_outcome(bytes_of(bytes), Some(codec)) == Some(
                        Ok::<_, BtreeIndexError>(parts.opened(codec)),
                    )
            }
        }),
{
    let ghost parts = FileParts {
        schema: schema@,
        key_order: key_order@,
        compression: compression@,
        meta: meta@,
        data: data@,
        entries: blocks_view(entries@),
        filter: filter_block@,
    };
    let mut data = data;
    let data_length: u64 = data.len() as u64;
    let data_checksum: u32 = crc32_of(data.as_slice());
    let filter_bytes = match codec::encode_filter(&filter_block) {
        Ok(bytes) => bytes,
        Err(_) => {
            return Err(BtreeIndexError::Encode { part: BtreeIndexPart::FilterBlock });
        },
    };
    let filter_checksum: u32 = crc32_of(filter_bytes.as_slice());
    append_bytes(&mut data, filter_bytes.as_slice());
    let index_offset: u64 = data.len() as u64;
    let index_bytes = match codec::encode_index(&block_records(&entries)) {
        Ok(bytes) => bytes,
        Err(_) => {
            return Err(BtreeIndexError::Encode { part: BtreeIndexPart::IndexBlock });
        },
    };
    let index_checksum: u32 = crc32_of(index_bytes.as_slice());
    append_bytes(&mut data, index_bytes.as_slice());
    let footer_offset: u64 = data.len() as u64;
    let checksum: u32 = crc32_of(data.as_slice());
    assert(data@ == parts.body());
    let mut sections: Vec<BtreeIndexSection> = Vec::new();
    sections.push(
        BtreeIndexSection {
            kind: BtreeIndexSectionKind::Data,
            offset: 0,
            length: data_length,
            checksum: data_checksum,
        },
    );
    sections.push(
        BtreeIndexSection {
            kind: BtreeIndexSectionKind::Filter,
            offset: data_length,
            length: filter_bytes.len() as u64,
            checksum: filter_checksum,
        },
    );
    sections.push(
        BtreeIndexSection {
            kind: BtreeIndexSectionKind::Index,
            offset: index_offset,
            length: index_bytes.len() as u64,
            checksum: index_checksum,
        },
    );
    sections.push(
        BtreeIndexSection {
            kind: BtreeIndexSectionKind::Footer,
            offset: footer_offset,
            length: 0,
            checksum: 0,
        },
    );
    assert(sections_view(sections@) =~= parts.sections());
    let footer = BtreeIndexFooter {
        version: BTREE_INDEX_FILE_VERSION,
        schema,
        key_order,
        compression,
        meta,
        checksum,
        sections,
    };
    assert(footer@ == parts.footer());
    let record = footer_record(&footer);
    let footer_bytes = match codec::encode_footer(&record) {
        Ok(bytes) => bytes,
        Err(_) => {
            return Err(BtreeIndexError::Encode { part: BtreeIndexPart::Footer });
        },
    };
    append_bytes(&mut data, footer_bytes.as_slice());
    push_le32(&mut data, footer_bytes.len() as u64);
    let magic: [u8; 8] = BTREE_INDEX_MAGIC;
    append_bytes(&mut data, magic.as_slice());
    assert(data@ == parts.file());
    assert(data@.len() == data.len());
    proof {
        if meta.wf() && encoded_footer(parts.footer()).len() < 0x1_0000_0000 {
            assert(parts.file().len() == data.len());
            assert forall|codec: CommonCompression| #[trigger]
                open_outcome(parts.file(), Some(codec)) == Some(
                    Ok::<_, BtreeIndexError>(parts.opened(codec)),
                ) by {
                lemma_sealed_opens(parts, codec);
            }
        }
    }
    Ok(bytes_from_vec(data))
}

impl BtreeIndexWriter {
    /// The data blocks that the writer's rows fill, in key order; rows with equal keys stay in the
    /// order in which they were added.
    pub open spec fn blocks(self) -> Seq<Seq<RowModel>> {
        data_blocks(stable_sort(rows_view(self.rows@)), self.data_block_size as int)
    }

    /// The parts of the file, given the compressed blocks and the filter over the prefixes.
    pub open spec fn parts(
        self,
        compressed: Seq<Seq<u8>>,
        prefixes: Seq<Seq<u8>>,
        filter: Seq<u8>,
    ) -> FileParts {
        FileParts {
            schema: self.schema@,
            key_order: self.key_order@,
            compression: self.compression@,
            meta: self.meta@,
            data: concatenated(compressed),
            entries: block_entries(self.blocks(), compressed),
            filter: (filter, prefixes.len() as u64),
        }
    }

    /// The bytes are those of the file of the writer's rows and prefixes, with these compressed
    /// blocks, and this filter over these distinct prefixes. They can be opened again, unless the
    /// footer is longer than its length can say.
    pub open spec fn written_with<
        P: Fn(&str) -> Option<CommonCompression>,
        C: Fn(CommonCompression, &[u8]) -> Option<Vec<u8>>,
        B: Fn(&Vec<Vec<u8>>, u64, u64) -> Option<Vec<u8>>,
    >(
        self,
        parse: P,
        compress: C,
        build_filter: B,
        bytes: Seq<u8>,
        codec: CommonCompression,
        compressed: Seq<Seq<u8>>,
        prefixes: Seq<Seq<u8>>,
        filter: Seq<u8>,
    ) -> bool {
        let parts = self.parts(compressed, prefixes, filter);
        &&& names_codec(parse, self.compression@, Some(codec))
        &&& compresses_all(compress, codec, self.blocks(), compressed)
        &&& is_distinct_of(prefixes, strings_view(self.equality_prefixes@))
        &&& builds_filter(build_filter, prefixes, Some(filter))
        &&& bytes == parts.file()
        &&& bytes.len() <= u64::MAX
        &&& is_guarded(parts.body())
        &&& self.meta.wf() && self.footer_fits(compressed, prefixes, filter) ==> forall|
            c: CommonCompression,
        | #[trigger]
            open_outcome(bytes, Some(c)) == Some(Ok::<_, BtreeIndexError>(parts.opened(c)))
    }

    /// The length of the footer can be said in the four bytes that hold it.
    pub open spec fn footer_fits(
        self,
        compressed: Seq<Seq<u8>>,
        prefixes: Seq<Seq<u8>>,
        filter: Seq<u8>,
    ) -> bool {
        encoded_footer(self.parts(compressed, prefixes, filter).footer()).len() < 0x1_0000_0000
    }

    /// The bytes are those of the file of the writer's rows and prefixes.
    pub open spec fn written<
        P: Fn(&str) -> Option<CommonCompression>,
        C: Fn(CommonCompression, &[u8]) -> Option<Vec<u8>>,
        B: Fn(&Vec<Vec<u8>>, u64, u64) -> Option<Vec<u8>>,
    >(self, parse: P, compress: C, build_filter: B, bytes: Seq<u8>) -> bool {
        exists|
            codec: CommonCompression,
            compressed: Seq<Seq<u8>>,
            prefixes: Seq<Seq<u8>>,
            filter: Seq<u8>,
        | #[trigger]
            self.written_with(
                parse,
                compress,
                build_filter,
                bytes,
                codec,
                compressed,
                prefixes,
                filter,
            )
    }

    /// The bytes are those of the file of the writer's rows and prefixes, with a footer whose length
    /// can be said.
    pub open spec fn written_within<
        P: Fn(&str) -> Option<CommonCompression>,
        C: Fn(CommonCompression, &[u8]) -> Option<Vec<u8>>,
        B: Fn(&Vec<Vec<u8>>, u64, u64) -> Option<Vec<u8>>,
    >(self, parse: P, compress: C, build_filter: B, bytes: Seq<u8>) -> bool {
        exists|
            codec: CommonCompression,
            compressed: Seq<Seq<u8>>,
            prefixes: Seq<Seq<u8>>,
            filter: Seq<u8>,
        | #[trigger]
            self.written_with(
                parse,
                compress,
                build_filter,
                bytes,
                codec,
                compressed,
                prefixes,
                filter,
            ) && self.footer_fits(compressed, prefixes, filter)
    }

    /// The host could not compress one of the blocks; it compressed those before it.
    pub open spec fn compression_fails<
        P: Fn(&str) -> Option<CommonCompression>,
        C: Fn(CommonCompression, &[u8]) -> Option<Vec<u8>>,
    >(self, parse: P, compress: C) -> bool {
        exists|codec: CommonCompression, i: int|
            #[trigger] names_codec(parse, self.compression@, Some(codec)) && #[trigger] refused_at(
                compress,
                codec,
                self.blocks(),
                i,
            )
    }

    /// The host compressed every block, and could not build the filter.
    pub open spec fn filter_fails<
        P: Fn(&str) -> Option<CommonCompression>,
        C: Fn(CommonCompression, &[u8]) -> Option<Vec<u8>>,
        B: Fn(&Vec<Vec<u8>>, u64, u64) -> Option<Vec<u8>>,
    >(self, parse: P, compress: C, build_filter: B) -> bool {
        exists|codec: CommonCompression, prefixes: Seq<Seq<u8>>|
            {
                &&& #[trigger] names_codec(parse, self.compression@, Some(codec))
                &&& blocks_accepted(compress, codec, self.blocks())
                &&& is_distinct_of(prefixes, strings_view(self.equality_prefixes@))
                &&& #[trigger] builds_filter(build_filter, prefixes, None)
            }
    }

    /// What writing the file may give.
    pub open spec fn finishes<
        P: Fn(&str) -> Option<CommonCompression>,
        C: Fn(CommonCompression, &[u8]) -> Option<Vec<u8>>,
        B: Fn(&Vec<Vec<u8>>, u64, u64) -> Option<Vec<u8>>,
    >(self, parse: P, compress: C, build_filter: B, r: Result<Bytes, BtreeIndexError>) -> bool {
        match r {
            Ok(bytes) => readable(self.blocks()) && self.written(
                parse,
                compress,
                build_filter,
                bytes_of(bytes),
            ),
            Err(BtreeIndexError::UnknownCompression) => names_codec(
                parse,
                self.compression@,
                None,
            ),
            Err(BtreeIndexError::Compress) => self.compression_fails(parse, compress),
            Err(BtreeIndexError::BuildFilter) => self.filter_fails(
                parse,
                compress,
                build_filter,
            ),
            Err(_) => false,
        }
    }

    /// Sorts the rows, cuts them into blocks that the host compresses, lets the host build a filter
    /// over the distinct equality prefixes, and writes the file.
    ///
    /// The file can be opened again, and the rows of its blocks can be read again.
    pub fn finish<
        P: Fn(&str) -> Option<CommonCompression>,
        C: Fn(CommonCompression, &[u8]) -> Option<Vec<u8>>,
        B: Fn(&Vec<Vec<u8>>, u64, u64) -> Option<Vec<u8>>,
    >(self, parse: P, compress: C, build_filter: B) -> (r: Result<Bytes, BtreeIndexError>)
        requires
            forall|name: &str| call_requires(parse, (name,)),
            forall|codec: CommonCompression, s: &[u8]| call_requires(compress, (codec, s)),
            forall|p: &Vec<Vec<u8>>, bits: u64, seed: u64|
                call_requires(build_filter, (p, bits, seed)),
        ensures
            self.finishes(parse, compress, build_filter, r),
    {
        let ghost writer = self;
        let BtreeIndexWriter {
            meta,
            schema,
            key_order,
            compression,
            data_block_size,
            rows,
            equality_prefixes,
        } = self;
        let codec = match parse(compression.as_str()) {
            Some(codec) => codec,
            None => {
                return Err(BtreeIndexError::UnknownCompression);
            },
        };
        assert(names_codec(parse, writer.compression@, Some(codec)));
        let sorted = sort_stably(rows);
        proof {
            lemma_stable_sort_sorted(rows@, sorted@);
            lemma_stable_sort_view(
                rows@,
                sorted@,
                rows_view(rows@),
                rows_view(sorted@),
                |row: BtreeIndexRow| row@,
            );
            lemma_stable_sort_unique(rows_view(rows@), rows_view(sorted@));
            assert(writer.blocks() == data_blocks(rows_view(sorted@), data_block_size as int));
        }
        let prefixes = distinct_strings(equality_prefixes);
        let (data, entries) = match write_data_blocks(&sorted, data_block_size, codec, &compress) {
            Ok(written) => written,
            Err(e) => {
                return Err(e);
            },
        };
        let bits: u64 = filter_size(prefixes.len());
        let answer = build_filter(&prefixes, bits, BTREE_INDEX_BLOOM_SEED);
        let ghost pv = strings_view(prefixes@);
        assert(builds_filter(build_filter, pv, opt_bytes(answer)));
        let filter = match answer {
            Some(filter) => filter,
            None => {
                return Err(BtreeIndexError::BuildFilter);
            },
        };
        let filter_block = BtreeIndexFilterBlock {
            equality_prefix_bloom: filter,
            equality_prefix_count: prefixes.len() as u64,
        };
        let r = seal(schema, key_order, compression, meta, data, entries, filter_block);
        proof {
            let compressed = choose|compressed: Seq<Seq<u8>>|
                {
                    &&& #[trigger] compresses_all(compress, codec, writer.blocks(), compressed)
                    &&& data@ == concatenated(compressed)
                    &&& blocks_view(entries@) == block_entries(writer.blocks(), compressed)
                };
            assert(writer.written_with(
                parse,
                compress,
                build_filter,
                bytes_of(r->Ok_0),
                codec,
                compressed,
                pv,
                filter@,
            ));
        }
        r
    }
}

} // verus!
