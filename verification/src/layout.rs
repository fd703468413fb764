//! What a written file looks like: its blocks and sections follow each other, no prefix that was
//! added is denied, and a file in which a byte was changed is refused.

use vstd::prelude::*;

use bytes::Bytes;

use crate::codec::{bytes_of, crc32, decoded_footer, differ_at, encoded_footer};
use crate::error::BtreeIndexError;
use crate::format::{checksum_outcome, file_footer_outcome, first_section, footer_outcome,
    footer_place, section_outcome, BTREE_INDEX_FILE_VERSION, BTREE_INDEX_MAGIC};
use crate::lex::{le32_bytes, lemma_le32_round_trip, lemma_lex_irreflexive, lex_le};
use crate::sort::{is_sorted, lemma_stable_sort_exists, lemma_stable_sort_sorted, stable_sort,
    Ranked};
use crate::types::{rows_view, BlockModel, BtreeIndexSectionKind, CommonCompression, FooterModel,
    RowModel, SectionModel};
use crate::view::{block_bytes_outcome, data_block_outcome, joined, may_contain, open_outcome, probes,
    sections_outcome, FileModel};
use crate::writer::{block_entries, builds_filter, concatenated, data_blocks, filled_blocks, filter_bits,
    is_distinct_of, is_guarded, lemma_data_blocks_hold_rows, lemma_data_blocks_nonempty, lemma_sections_found,
    strings_view, weight, BtreeIndexWriter, FileParts};

verus! {

proof fn lemma_weight_nonnegative(rows: Seq<RowModel>)
    ensures
        weight(rows) >= 0,
    decreases rows.len(),
{
    if rows.len() > 0 {
        lemma_weight_nonnegative(rows.drop_last());
    }
}

/// A block is as large as a block has to be, and no larger than its last row makes it.
pub open spec fn is_full(block: Seq<RowModel>, size: int) -> bool {
    weight(block) >= size && is_short_before_last(block, size)
}

/// Before its last row came in the block was too small.
pub open spec fn is_short_before_last(block: Seq<RowModel>, size: int) -> bool {
    block.len() == 1 || weight(block.drop_last()) < size
}

proof fn lemma_filled_are_full(rows: Seq<RowModel>, size: int)
    ensures
        forall|k: int|
            0 <= k < filled_blocks(rows, size).0.len() ==> is_full(
                #[trigger] filled_blocks(rows, size).0[k],
                size,
            ),
        filled_blocks(rows, size).1.len() > 0 ==> weight(filled_blocks(rows, size).1) < size,
    decreases rows.len(),
{
    if rows.len() > 0 {
        lemma_filled_are_full(rows.drop_last(), size);
        let before = filled_blocks(rows.drop_last(), size);
        let after = filled_blocks(rows, size);
        let pending = before.1.push(rows.last());
        assert(pending.drop_last() =~= before.1);
        assert forall|k: int| 0 <= k < after.0.len() implies is_full(
            #[trigger] after.0[k],
            size,
        ) by {
            if k < before.0.len() {
                assert(after.0[k] == before.0[k]);
            } else {
                assert(after.0[k] == pending);
            }
        }
    }
}

proof fn lemma_blocks_are_full(rows: Seq<RowModel>, size: int)
    ensures
        forall|k: int|
            0 <= k < data_blocks(rows, size).len() - 1 ==> is_full(
                #[trigger] data_blocks(rows, size)[k],
                size,
            ),
        forall|k: int|
            0 <= k < data_blocks(rows, size).len() ==> is_short_before_last(
                #[trigger] data_blocks(rows, size)[k],
                size,
            ),
{
    lemma_filled_are_full(rows, size);
    let filled = filled_blocks(rows, size);
    let blocks = data_blocks(rows, size);
    assert forall|k: int| 0 <= k < blocks.len() implies is_short_before_last(
        #[trigger] blocks[k],
        size,
    ) by {
        if k < filled.0.len() {
            assert(blocks[k] == filled.0[k]);
        } else {
            let last = filled.1;
            assert(blocks[k] == last);
            assert(weight(last) == weight(last.drop_last()) + last.last().0.len()
                + last.last().1.len());
        }
    }
    assert forall|k: int| 0 <= k < blocks.len() - 1 implies is_full(
        #[trigger] blocks[k],
        size,
    ) by {
        assert(blocks[k] == filled.0[k]);
    }
}

proof fn lemma_joined_at(blocks: Seq<Seq<RowModel>>, i: int)
    requires
        0 <= i < blocks.len(),
    ensures
        joined(blocks.take(i)).len() + blocks[i].len() <= joined(blocks).len(),
        forall|k: int|
            0 <= k < blocks[i].len() ==> joined(blocks)[joined(blocks.take(i)).len() + k]
                == #[trigger] blocks[i][k],
    decreases blocks.len(),
{
    let head = blocks.drop_last();
    if i == blocks.len() - 1 {
        assert(blocks.take(i) =~= head);
    } else {
        lemma_joined_at(head, i);
        assert(head.take(i) =~= blocks.take(i));
        assert(head[i] == blocks[i]);
        assert forall|k: int| 0 <= k < blocks[i].len() implies joined(blocks)[joined(
            blocks.take(i),
        ).len() + k] == #[trigger] blocks[i][k] by {
            assert(head[i][k] == blocks[i][k]);
        }
    }
}

/// How many rows the entries of data blocks tell of.
pub open spec fn rows_told(entries: Seq<BlockModel>) -> int
    decreases entries.len(),
{
    if entries.len() == 0 {
        0
    } else {
        rows_told(entries.drop_last()) + entries.last().5
    }
}

proof fn lemma_rows_told(blocks: Seq<Seq<RowModel>>, compressed: Seq<Seq<u8>>)
    requires
        blocks.len() == compressed.len(),
        joined(blocks).len() < 0x1_0000_0000,
    ensures
        rows_told(block_entries(blocks, compressed)) == joined(blocks).len(),
    decreases blocks.len(),
{
    if blocks.len() > 0 {
        let b = blocks.drop_last();
        let c = compressed.drop_last();
        lemma_rows_told(b, c);
        let entries = block_entries(blocks, compressed);
        assert(entries.drop_last() =~= block_entries(b, c)) by {
            assert forall|i: int| 0 <= i < b.len() implies #[trigger] entries.drop_last()[i]
                == block_entries(b, c)[i] by {
                assert(c.take(i) =~= compressed.take(i));
            }
        }
    }
}

/// The data blocks stand one after the other from the start of the file, in the order of their
/// keys.
pub open spec fn blocks_follow(entries: Seq<BlockModel>) -> bool {
    &&& entries.len() > 0 ==> entries[0].2 == 0
    &&& forall|i: int|
        0 <= i < entries.len() - 1 ==> entries[i + 1].2 == (#[trigger] entries[i]).2 + entries[i].3
            && lex_le(entries[i].1, entries[i + 1].0)
    &&& forall|i: int|
        0 <= i < entries.len() ==> lex_le((#[trigger] entries[i]).0, entries[i].1)
}

/// The blocks hold the rows one after the other: every block but the last reaches the size, and
/// none would without its last row.
pub open spec fn blocks_filled(
    entries: Seq<BlockModel>,
    blocks: Seq<Seq<RowModel>>,
    rows: Seq<RowModel>,
    size: int,
) -> bool {
    &&& joined(blocks) == rows
    &&& entries.len() == blocks.len()
    &&& forall|i: int|
        0 <= i < blocks.len() ==> (#[trigger] blocks[i]).len() > 0 && is_short_before_last(
            blocks[i],
            size,
        ) && entries[i].5 == blocks[i].len() as u32
    &&& forall|i: int| 0 <= i < blocks.len() - 1 ==> weight(#[trigger] blocks[i]) >= size
}

/// The sections are those of the data, the filter, the index and the footer, one after the other
/// from the start of the file; the last stands for where the footer begins.
pub open spec fn sections_follow(sections: Seq<SectionModel>) -> bool {
    &&& sections.len() == 4
    &&& forall|i: int| 0 <= i < 4 ==> (#[trigger] sections[i]).0 == i
    &&& sections[0].1 == 0
    &&& sections[1].1 == sections[0].2
    &&& sections[2].1 == sections[1].1 + sections[1].2
    &&& sections[3].1 == sections[2].1 + sections[2].2
}

/// The file ends with the footer, its length in four bytes, the lowest first, and the magic bytes;
/// the footer begins where its section says.
pub open spec fn ends_with_footer(bytes: Seq<u8>, sections: Seq<SectionModel>) -> bool {
    let n = bytes.len() as int;
    let footer_len = n - 12 - sections[3].1;
    &&& 0 <= footer_len
    &&& bytes.subrange(n - 12, n - 8) == le32_bytes(footer_len)
    &&& bytes.subrange(n - 8, n) == BTREE_INDEX_MAGIC@
}

proof fn lemma_entries_follow(
    rows: Seq<RowModel>,
    blocks: Seq<Seq<RowModel>>,
    compressed: Seq<Seq<u8>>,
)
    requires
        is_sorted(rows),
        joined(blocks) == rows,
        blocks.len() == compressed.len(),
        forall|k: int| 0 <= k < blocks.len() ==> (#[trigger] blocks[k]).len() > 0,
        concatenated(compressed).len() <= u64::MAX,
    ensures
        blocks_follow(block_entries(blocks, compressed)),
{
    let entries = block_entries(blocks, compressed);
    if entries.len() > 0 {
        assert(compressed.take(0) =~= Seq::<Seq<u8>>::empty());
    }
    assert forall|i: int| 0 <= i < entries.len() implies lex_le(
        (#[trigger] entries[i]).0,
        entries[i].1,
    ) by {
        lemma_joined_at(blocks, i);
        let at = joined(blocks.take(i)).len() as int;
        let n = blocks[i].len() as int;
        assert(rows[at] == blocks[i][0]);
        assert(rows[at + n - 1] == blocks[i][n - 1]);
        if n == 1 {
            lemma_lex_irreflexive(blocks[i][0].0);
        } else {
            assert(!rows[at + n - 1].ranks_before(rows[at]));
        }
    }
    assert forall|i: int| 0 <= i < entries.len() - 1 implies entries[i + 1].2 == (
    #[trigger] entries[i]).2 + entries[i].3 && lex_le(entries[i].1, entries[i + 1].0) by {
        let head = compressed.take(i + 1);
        assert(head.drop_last() =~= compressed.take(i));
        assert(head.last() == compressed[i]);
        lemma_concatenated_grows(compressed, i + 1);
        lemma_joined_at(blocks, i);
        lemma_joined_at(blocks, i + 1);
        let start = joined(blocks.take(i)).len() as int;
        let n = blocks[i].len() as int;
        assert(blocks.take(i + 1).drop_last() =~= blocks.take(i));
        assert(blocks.take(i + 1).last() == blocks[i]);
        assert(rows[start + n - 1] == blocks[i][n - 1]);
        assert(rows[start + n] == blocks[i + 1][0]);
        assert(!rows[start + n].ranks_before(rows[start + n - 1]));
    }
}

proof fn lemma_concatenated_grows(parts: Seq<Seq<u8>>, i: int)
    requires
        0 <= i <= parts.len(),
    ensures
        concatenated(parts.take(i)).len() <= concatenated(parts).len(),
    decreases parts.len() - i,
{
    if i < parts.len() {
        lemma_concatenated_grows(parts, i + 1);
        assert(parts.take(i + 1).drop_last() =~= parts.take(i));
    } else {
        assert(parts.take(i) =~= parts);
    }
}

/// The layout of a written file: its data blocks follow each other from its start, in the order of
/// their keys, and hold the rows in key order; every block but the last reaches the block size, and
/// none would without its last row; the sections of the data, the filter, the index and the footer
/// follow each other; and the file ends with the length of the footer and the magic bytes.
pub proof fn law_written_file_is_laid_out<
    P: Fn(&str) -> Option<CommonCompression>,
    C: Fn(CommonCompression, &[u8]) -> Option<Vec<u8>>,
    B: Fn(&Vec<Vec<u8>>, u64, u64) -> Option<Vec<u8>>,
>(
    writer: BtreeIndexWriter,
    parse: P,
    compress: C,
    build_filter: B,
    file: Bytes,
    codec: CommonCompression,
)
    requires
        writer.finishes(parse, compress, build_filter, Ok(file)),
        writer.meta.wf(),
        writer.written_within(parse, compress, build_filter, bytes_of(file)),
    ensures
        ({
            let opened = open_outcome(bytes_of(file), Some(codec));
            let found = opened->Some_0->Ok_0;
            let rows = stable_sort(rows_view(writer.rows@));
            &&& opened matches Some(Ok(_))
            &&& blocks_follow(found.blocks)
            &&& blocks_filled(found.blocks, writer.blocks(), rows, writer.data_block_size as int)
            &&& writer.rows@.len() < 0x1_0000_0000 ==> rows_told(found.blocks)
                == writer.rows@.len()
            &&& sections_follow(found.footer.6)
            &&& ends_with_footer(bytes_of(file), found.footer.6)
        }),
{
    let bytes = bytes_of(file);
    let (c, compressed, prefixes, filter) = choose|
        c: CommonCompression,
        compressed: Seq<Seq<u8>>,
        prefixes: Seq<Seq<u8>>,
        filter: Seq<u8>,
    | #[trigger]
        writer.written_with(
            parse,
            compress,
            build_filter,
            bytes,
            c,
            compressed,
            prefixes,
            filter,
        ) && writer.footer_fits(compressed, prefixes, filter);
    let parts = writer.parts(compressed, prefixes, filter);
    assert(open_outcome(bytes, Some(codec)) == Some(
        Ok::<_, BtreeIndexError>(parts.opened(codec)),
    ));
    let given = rows_view(writer.rows@);
    let rows = stable_sort(given);
    let size = writer.data_block_size as int;
    lemma_stable_sort_exists(given);
    lemma_stable_sort_sorted(given, rows);
    lemma_data_blocks_nonempty(rows, size);
    lemma_data_blocks_hold_rows(rows, size);
    lemma_blocks_are_full(rows, size);
    lemma_entries_follow(rows, writer.blocks(), compressed);
    if rows.len() < 0x1_0000_0000 {
        lemma_rows_told(writer.blocks(), compressed);
    }
    lemma_file_ends(parts);
}

proof fn lemma_file_ends(parts: FileParts)
    requires
        parts.file().len() <= u64::MAX,
    ensures
        sections_follow(parts.sections()),
        ends_with_footer(parts.file(), parts.sections()),
{
    let file = parts.file();
    let n = file.len() as int;
    let footer = encoded_footer(parts.footer());
    let sections = parts.sections();
    assert forall|i: int| 0 <= i < 4 implies (#[trigger] sections[i]).0 == i by {
        assert(i == 0 || i == 1 || i == 2 || i == 3);
    }
    assert(file.subrange(n - 12, n - 8) =~= le32_bytes(footer.len() as int));
    assert(file.subrange(n - 8, n) =~= BTREE_INDEX_MAGIC@);
}

/// The host denies no prefix that it built a filter of.
pub open spec fn finds_its_prefixes<
    B: Fn(&Vec<Vec<u8>>, u64, u64) -> Option<Vec<u8>>,
    F: Fn(&[u8], &[u8]) -> Option<bool>,
>(build_filter: B, probe: F) -> bool {
    forall|prefixes: Seq<Seq<u8>>, filter: Seq<u8>, prefix: Seq<u8>, answer: Option<bool>|
        #[trigger] builds_filter(build_filter, prefixes, Some(filter)) && prefixes.contains(prefix)
            && #[trigger] probes(probe, filter, prefix, answer) ==> answer != Some(false)
}

proof fn lemma_distinct_count(distinct: Seq<Seq<u8>>, strings: Seq<Seq<u8>>)
    requires
        is_distinct_of(distinct, strings),
    ensures
        distinct.len() == strings.to_set().len(),
        distinct.len() <= strings.len(),
{
    assert(distinct.no_duplicates()) by {
        assert forall|i: int, j: int| 0 <= i < distinct.len() && 0 <= j < distinct.len() && i
            != j implies distinct[i] != distinct[j] by {
            lemma_lex_irreflexive(distinct[i]);
        }
    }
    assert(distinct.to_set() =~= strings.to_set());
    distinct.unique_seq_to_set();
    strings.lemma_cardinality_of_set();
}

/// No equality prefix that was added is denied, and the file tells how many different ones there
/// are: where the host denies no prefix that it built a filter of.
pub proof fn law_added_prefix_is_not_denied<
    P: Fn(&str) -> Option<CommonCompression>,
    C: Fn(CommonCompression, &[u8]) -> Option<Vec<u8>>,
    B: Fn(&Vec<Vec<u8>>, u64, u64) -> Option<Vec<u8>>,
    F: Fn(&[u8], &[u8]) -> Option<bool>,
>(
    writer: BtreeIndexWriter,
    parse: P,
    compress: C,
    build_filter: B,
    probe: F,
    file: Bytes,
    codec: CommonCompression,
)
    requires
        writer.finishes(parse, compress, build_filter, Ok(file)),
        writer.meta.wf(),
        writer.written_within(parse, compress, build_filter, bytes_of(file)),
        finds_its_prefixes(build_filter, probe),
    ensures
        ({
            let opened = open_outcome(bytes_of(file), Some(codec));
            let found = opened->Some_0->Ok_0;
            let added = strings_view(writer.equality_prefixes@);
            &&& opened matches Some(Ok(_))
            &&& found.filter.1 == added.to_set().len()
            &&& forall|prefix: Seq<u8>, answer: Option<bool>| #[trigger]
                added.contains(prefix) && #[trigger] probes(probe, found.filter.0, prefix, answer)
                    ==> may_contain(answer)
        }),
{
    let bytes = bytes_of(file);
    let (c, compressed, prefixes, filter) = choose|
        c: CommonCompression,
        compressed: Seq<Seq<u8>>,
        prefixes: Seq<Seq<u8>>,
        filter: Seq<u8>,
    | #[trigger]
        writer.written_with(
            parse,
            compress,
            build_filter,
            bytes,
            c,
            compressed,
            prefixes,
            filter,
        ) && writer.footer_fits(compressed, prefixes, filter);
    let parts = writer.parts(compressed, prefixes, filter);
    let added = strings_view(writer.equality_prefixes@);
    assert(open_outcome(bytes, Some(codec)) == Some(
        Ok::<_, BtreeIndexError>(parts.opened(codec)),
    ));
    lemma_distinct_count(prefixes, added);
    assert(writer.equality_prefixes.len() == added.len());
    assert forall|prefix: Seq<u8>, answer: Option<bool>| #[trigger]
        added.contains(prefix) && #[trigger] probes(
            probe,
            filter,
            prefix,
            answer,
        ) implies may_contain(answer) by {
        assert(prefixes.contains(prefix));
        assert(builds_filter(build_filter, prefixes, Some(filter)));
    }
}

/// A file in which one byte before the footer, or one of the magic bytes, was changed is not
/// opened, whether its compression is known or not.
pub proof fn law_changed_file_is_refused<
    P: Fn(&str) -> Option<CommonCompression>,
    C: Fn(CommonCompression, &[u8]) -> Option<Vec<u8>>,
    B: Fn(&Vec<Vec<u8>>, u64, u64) -> Option<Vec<u8>>,
>(
    writer: BtreeIndexWriter,
    parse: P,
    compress: C,
    build_filter: B,
    file: Bytes,
    codec: CommonCompression,
    changed: Seq<u8>,
    i: int,
    compression: Option<CommonCompression>,
)
    requires
        writer.finishes(parse, compress, build_filter, Ok(file)),
        writer.meta.wf(),
        writer.written_within(parse, compress, build_filter, bytes_of(file)),
        differ_at(bytes_of(file), changed, i),
        i < footer_place(bytes_of(file))->Ok_0.0 || i >= changed.len() - 8,
    ensures
        open_outcome(bytes_of(file), Some(codec)) matches Some(Ok(_)),
        open_outcome(changed, compression) matches Some(Err(_)),
{
    let bytes = bytes_of(file);
    let n = bytes.len() as int;
    let (c, compressed, prefixes, filter) = choose|
        c: CommonCompression,
        compressed: Seq<Seq<u8>>,
        prefixes: Seq<Seq<u8>>,
        filter: Seq<u8>,
    | #[trigger]
        writer.written_with(
            parse,
            compress,
            build_filter,
            bytes,
            c,
            compressed,
            prefixes,
            filter,
        ) && writer.footer_fits(compressed, prefixes, filter);
    let parts = writer.parts(compressed, prefixes, filter);
    assert(open_outcome(bytes, Some(codec)) == Some(
        Ok::<_, BtreeIndexError>(parts.opened(codec)),
    ));
    let body = parts.body();
    let footer = encoded_footer(parts.footer());
    lemma_file_ends(parts);
    lemma_le32_round_trip(footer.len() as int);
    assert(footer_place(bytes) == Ok::<(int, int), BtreeIndexError>((body.len() as int, n - 12)));
    if i >= n - 8 {
        assert(changed.subrange(n - 8, n)[i - (n - 8)] != bytes.subrange(n - 8, n)[i - (n - 8)]);
        assert(footer_place(changed) == Err::<(int, int), _>(BtreeIndexError::InvalidMagic));
    } else {
        assert(changed.subrange(n - 8, n) =~= bytes.subrange(n - 8, n));
        assert(changed.subrange(n - 12, n - 8) =~= bytes.subrange(n - 12, n - 8));
        assert(footer_place(changed) == footer_place(bytes));
        assert(changed.subrange(body.len() as int, n - 12) =~= bytes.subrange(
            body.len() as int,
            n - 12,
        ));
        assert(file_footer_outcome(changed) == file_footer_outcome(bytes));
        assert(file_footer_outcome(bytes) == Some(Ok::<_, BtreeIndexError>(parts.footer())));
        lemma_sections_found(parts.sections());
        assert(first_section(parts.sections(), 3) == Some(parts.sections()[3]));
        let other = changed.subrange(0, body.len() as int);
        assert(bytes.subrange(0, body.len() as int) =~= body);
        assert(differ_at(body, other, i));
        assert(crc32(other) != crc32(body));
        assert(checksum_outcome(changed, parts.footer()) is Err);
    }
}

/// A file that is too short to hold the length of a footer and the magic bytes is not opened.
pub proof fn law_short_file_is_refused(bytes: Seq<u8>, compression: Option<CommonCompression>)
    requires
        bytes.len() < 12,
    ensures
        open_outcome(bytes, compression) == Some(
            Err::<FileModel, _>(BtreeIndexError::FileTooSmall { file_len: bytes.len() as u64 }),
        ),
{
}

/// A section that was read by itself is refused where one of its bytes was changed, be it the index
/// or the filter, and whatever the other section holds.
pub proof fn law_changed_section_is_refused(
    footer: FooterModel,
    kind: BtreeIndexSectionKind,
    section: SectionModel,
    bytes: Seq<u8>,
    changed: Seq<u8>,
    i: int,
    other: Seq<u8>,
)
    requires
        kind is Index || kind is Filter,
        section_outcome(footer.6, kind) == Ok::<_, BtreeIndexError>(section),
        section.3 == crc32(bytes),
        section.3 != 0,
        is_guarded(bytes),
        differ_at(bytes, changed, i),
    ensures
        kind is Index ==> (sections_outcome(footer, changed, other) matches Some(Err(_))),
        kind is Filter ==> (sections_outcome(footer, other, changed) matches Some(Err(_))),
{
}

/// A data block is refused where one of its bytes was changed, whether it was read by itself or
/// is taken out of its file, and whatever decompressing it would give.
pub proof fn law_changed_block_is_refused(
    block: BlockModel,
    bytes: Seq<u8>,
    changed: Seq<u8>,
    i: int,
    compression: Option<CommonCompression>,
    decompressed: Option<Seq<u8>>,
    file: Seq<u8>,
)
    requires
        block.6 == crc32(bytes),
        is_guarded(bytes),
        differ_at(bytes, changed, i),
        block.2 + block.3 <= u64::MAX,
        block.2 + block.3 <= file.len() ==> file.subrange(block.2 as int, block.2 + block.3)
            == changed,
    ensures
        data_block_outcome(block, changed, compression, decompressed) matches Some(Err(_)),
        block_bytes_outcome(file, block) matches Some(Err(_)),
{
}

/// A footer of another version is refused, and the error names its version.
pub proof fn law_other_version_is_refused(bytes: Seq<u8>, footer: FooterModel)
    requires
        decoded_footer(bytes) == Some((footer, bytes.len() as int)),
        footer.0 != BTREE_INDEX_FILE_VERSION,
    ensures
        footer_outcome(bytes) matches Some(Err(_)),
        forall|version: u32|
            footer_outcome(bytes) == Some(
                Err::<FooterModel, _>(BtreeIndexError::UnsupportedVersion { version }),
            ) ==> version == footer.0,
{
}

/// The filter of a file has ten bits for each prefix, one at least, and never more than a number can
/// tell; more prefixes do not make it smaller.
pub proof fn law_filter_has_room_for_each_prefix(prefixes: int, more: int)
    requires
        0 <= prefixes <= more,
    ensures
        1 <= filter_bits(prefixes) <= u64::MAX,
        1 <= prefixes && 10 * prefixes <= u64::MAX ==> filter_bits(prefixes) == 10 * prefixes,
        10 * prefixes > u64::MAX ==> filter_bits(prefixes) == u64::MAX,
        filter_bits(prefixes) <= filter_bits(more),
{
}

} // verus!
