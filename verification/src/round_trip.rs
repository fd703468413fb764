//! What a reader finds in a file is what a writer put into it.

use vstd::prelude::*;

use bytes::Bytes;

use crate::codec::{bytes_of, encoded_rows};
use crate::error::BtreeIndexError;
use crate::format::rows_outcome;
use crate::lex::{lemma_lex_irreflexive, lemma_lex_le_transitive, lemma_prefix_interval,
    lemma_prefix_is_le, lex_le};
use crate::sort::{is_sorted, lemma_stable_sort_exists, lemma_stable_sort_sorted, stable_sort,
    Ranked};
use crate::types::{rows_view, BlockModel, CommonCompression, RowModel};
use crate::view::{block_bytes_outcome, block_reads, blocks_read, candidate_blocks,
    decompressed_outcome, decompresses, hits, joined, lemma_hits_concat, lemma_joined_push,
    lookup_gives, names_codec, open_outcome, FileModel, QueryModel};
use crate::writer::{compresses, concatenated, lemma_data_blocks_hold_rows,
    lemma_data_blocks_nonempty, readable, BtreeIndexWriter};

verus! {

/// An entry of the index stands for a block of rows: it names the first and the last key.
pub open spec fn stands_for(entry: BlockModel, rows: Seq<RowModel>) -> bool {
    rows.len() > 0 && entry.0 == rows.first().0 && entry.1 == rows.last().0
}

/// The entries stand for the blocks, one for one.
pub open spec fn all_stand_for(entries: Seq<BlockModel>, blocks: Seq<Seq<RowModel>>) -> bool {
    &&& entries.len() == blocks.len()
    &&& forall|i: int| 0 <= i < blocks.len() ==> stands_for(entries[i], #[trigger] blocks[i])
}

/// The rows of the blocks that may hold what is asked for.
spec fn candidate_contents(
    query: QueryModel,
    entries: Seq<BlockModel>,
    blocks: Seq<Seq<RowModel>>,
) -> Seq<Seq<RowModel>>
    decreases entries.len(),
{
    if entries.len() == 0 {
        Seq::empty()
    } else {
        let rest = candidate_contents(query, entries.drop_last(), blocks.drop_last());
        if query.may_be_in(entries.last()) {
            rest.push(blocks.last())
        } else {
            rest
        }
    }
}

/// A block that may not hold what is asked for does not hold it.
pub proof fn lemma_other_blocks_hold_nothing(
    query: QueryModel,
    entry: BlockModel,
    rows: Seq<RowModel>,
)
    requires
        stands_for(entry, rows),
        is_sorted(rows),
        !query.may_be_in(entry),
    ensures
        hits(query, rows).len() == 0,
{
    assert forall|i: int| 0 <= i < rows.len() implies !query.asks_for((#[trigger] rows[i]).0) by {
        let key = rows[i].0;
        let first = entry.0;
        let last = entry.1;
        lemma_lex_irreflexive(key);
        assert(lex_le(first, key)) by {
            if i > 0 {
                assert(!rows[i].ranks_before(rows[0]));
            }
        }
        assert(lex_le(key, last)) by {
            if i < rows.len() - 1 {
                assert(!rows[rows.len() - 1].ranks_before(rows[i]));
            }
        }
        if query.asks_for(key) {
            match query {
                QueryModel::Prefix { prefix, .. } => {
                    lemma_prefix_is_le(key, prefix);
                    lemma_lex_le_transitive(prefix, key, last);
                    if lex_le(prefix, first) {
                        lemma_prefix_interval(first, key, prefix);
                    }
                },
                QueryModel::Range { start, end } => {
                    lemma_lex_le_transitive(start, key, last);
                    if end.len() > 0 {
                        lemma_lex_le_transitive(first, key, end);
                    }
                },
                QueryModel::Exact { key: wanted } => {},
            }
        }
    }
    lemma_no_hits(query, rows);
}

proof fn lemma_no_hits(query: QueryModel, rows: Seq<RowModel>)
    requires
        forall|i: int| 0 <= i < rows.len() ==> !query.asks_for((#[trigger] rows[i]).0),
    ensures
        hits(query, rows).len() == 0,
    decreases rows.len(),
{
    if rows.len() > 0 {
        assert(!query.asks_for(rows[rows.len() - 1].0));
        assert forall|i: int| 0 <= i < rows.drop_last().len() implies !query.asks_for(
            (#[trigger] rows.drop_last()[i]).0,
        ) by {
            assert(rows.drop_last()[i] == rows[i]);
        }
        lemma_no_hits(query, rows.drop_last());
    }
}

/// The rows of every block are sorted where all rows together are.
proof fn lemma_parts_sorted(blocks: Seq<Seq<RowModel>>)
    requires
        is_sorted(joined(blocks)),
    ensures
        forall|i: int| 0 <= i < blocks.len() ==> is_sorted(#[trigger] blocks[i]),
    decreases blocks.len(),
{
    if blocks.len() > 0 {
        let head = joined(blocks.drop_last());
        let all = joined(blocks);
        let last = blocks.last();
        assert forall|i: int, j: int| 0 <= i < j < head.len() implies !(
        #[trigger] head[j]).ranks_before(#[trigger] head[i]) by {
            assert(head[i] == all[i] && head[j] == all[j]);
        }
        lemma_parts_sorted(blocks.drop_last());
        assert forall|i: int, j: int| 0 <= i < j < last.len() implies !(
        #[trigger] last[j]).ranks_before(#[trigger] last[i]) by {
            assert(last[i] == all[head.len() + i] && last[j] == all[head.len() + j]);
        }
        assert forall|i: int| 0 <= i < blocks.len() implies is_sorted(#[trigger] blocks[i]) by {
            if i < blocks.len() - 1 {
                assert(blocks[i] == blocks.drop_last()[i]);
            }
        }
    }
}

proof fn lemma_candidates_hold_hits(
    query: QueryModel,
    entries: Seq<BlockModel>,
    blocks: Seq<Seq<RowModel>>,
)
    requires
        all_stand_for(entries, blocks),
        forall|i: int| 0 <= i < blocks.len() ==> is_sorted(#[trigger] blocks[i]),
    ensures
        hits(query, joined(candidate_contents(query, entries, blocks))) == hits(
            query,
            joined(blocks),
        ),
        candidate_contents(query, entries, blocks).len() == candidate_blocks(query, entries).len(),
    decreases entries.len(),
{
    if entries.len() > 0 {
        let e = entries.drop_last();
        let b = blocks.drop_last();
        assert forall|i: int| 0 <= i < b.len() implies stands_for(e[i], #[trigger] b[i])
            && is_sorted(b[i]) by {
            assert(b[i] == blocks[i] && e[i] == entries[i]);
        }
        lemma_candidates_hold_hits(query, e, b);
        let rest = candidate_contents(query, e, b);
        let n = blocks.len() - 1;
        assert(stands_for(entries[n], blocks[n]) && is_sorted(blocks[n]));
        lemma_hits_concat(query, joined(b), blocks.last());
        if query.may_be_in(entries.last()) {
            lemma_joined_push(rest, blocks.last());
            lemma_hits_concat(query, joined(rest), blocks.last());
        } else {
            lemma_other_blocks_hold_nothing(query, entries.last(), blocks.last());
            assert(hits(query, joined(b)) + hits(query, blocks.last()) =~= hits(query, joined(b)));
        }
    }
}

proof fn lemma_candidate_index(
    query: QueryModel,
    entries: Seq<BlockModel>,
    blocks: Seq<Seq<RowModel>>,
    k: int,
) -> (i: int)
    requires
        entries.len() == blocks.len(),
        0 <= k < candidate_blocks(query, entries).len(),
        candidate_contents(query, entries, blocks).len() == candidate_blocks(query, entries).len(),
    ensures
        0 <= i < entries.len(),
        candidate_blocks(query, entries)[k] == entries[i],
        candidate_contents(query, entries, blocks)[k] == blocks[i],
    decreases entries.len(),
{
    let e = entries.drop_last();
    let b = blocks.drop_last();
    if query.may_be_in(entries.last()) && k == candidate_blocks(query, e).len() {
        entries.len() - 1
    } else {
        lemma_candidate_index(query, e, b, k)
    }
}

proof fn lemma_joined_split(contents: Seq<Seq<RowModel>>, m: int)
    requires
        0 <= m <= contents.len(),
    ensures
        joined(contents) == joined(contents.take(m)) + joined(contents.skip(m)),
    decreases contents.len(),
{
    if m == contents.len() {
        assert(contents.take(m) =~= contents);
        assert(joined(contents.take(m)) + joined(contents.skip(m)) =~= joined(contents));
    } else {
        let c = contents.drop_last();
        lemma_joined_split(c, m);
        assert(c.take(m) =~= contents.take(m));
        assert(contents.skip(m).drop_last() =~= c.skip(m));
        assert(joined(contents) =~= joined(contents.take(m)) + joined(contents.skip(m)));
    }
}

/// A lookup finds every row that is asked for, in the order of the file, up to the limit: where the
/// entries of an open file stand for blocks of rows that together are in key order, and reading a
/// block can only give its rows.
pub proof fn law_lookup_finds_all<
    D: Fn(CommonCompression, &[u8], u64) -> Option<Vec<u8>>,
>(
    file: FileModel,
    blocks: Seq<Seq<RowModel>>,
    query: QueryModel,
    decompress: D,
    outcome: Option<Result<Seq<RowModel>, BtreeIndexError>>,
)
    requires
        all_stand_for(file.blocks, blocks),
        is_sorted(joined(blocks)),
        forall|i: int, o: Option<Result<Seq<RowModel>, BtreeIndexError>>|
            0 <= i < blocks.len() && #[trigger] block_reads(file, file.blocks[i], decompress, o)
                ==> o == Some(Ok::<_, BtreeIndexError>(blocks[i])),
        lookup_gives(file, query, decompress, outcome),
    ensures
        outcome == Some(
            Ok::<_, BtreeIndexError>(query.limited(hits(query, joined(blocks)))),
        ),
{
    let candidates = candidate_blocks(query, file.blocks);
    let expected = candidate_contents(query, file.blocks, blocks);
    lemma_parts_sorted(blocks);
    lemma_candidates_hold_hits(query, file.blocks, blocks);
    let contents = choose|contents: Seq<Seq<RowModel>>|
        {
            let found = hits(query, joined(contents));
            &&& #[trigger] blocks_read(file, candidates, decompress, contents)
            &&& match outcome {
                Some(Ok(rows)) => {
                    &&& rows == query.limited(found)
                    &&& contents.len() == candidates.len() || query.is_full(found.len())
                },
                _ => {
                    &&& contents.len() < candidates.len()
                    &&& !query.is_full(found.len())
                    &&& block_reads(file, candidates[contents.len() as int], decompress, outcome)
                },
            }
        };
    let m = contents.len() as int;
    assert forall|k: int| 0 <= k < m implies contents[k] == expected[k] by {
        let i = lemma_candidate_index(query, file.blocks, blocks, k);
        assert(block_reads(
            file,
            file.blocks[i],
            decompress,
            Some(Ok::<_, BtreeIndexError>(contents[k])),
        ));
    }
    assert(contents =~= expected.take(m));
    lemma_joined_split(expected, m);
    lemma_hits_concat(query, joined(contents), joined(expected.skip(m)));
    let found = hits(query, joined(contents));
    let all = hits(query, joined(blocks));
    assert(all == found + hits(query, joined(expected.skip(m))));
    match outcome {
        Some(Ok(rows)) => {
            if m == candidates.len() {
                assert(contents =~= expected);
            } else {
                let limit = query.row_limit()->0 as int;
                assert(found.len() >= limit);
                assert(all.take(limit) =~= found.take(limit));
                if found.len() == limit {
                    assert(found.take(limit) =~= found);
                }
                if all.len() == limit {
                    assert(all.take(limit) =~= all);
                }
            }
        },
        _ => {
            let i = lemma_candidate_index(query, file.blocks, blocks, m);
            assert(block_reads(file, file.blocks[i], decompress, outcome));
        },
    }
}

proof fn lemma_concatenated_part(parts: Seq<Seq<u8>>, i: int)
    requires
        0 <= i < parts.len(),
    ensures
        concatenated(parts.take(i)).len() + parts[i].len() <= concatenated(parts).len(),
        concatenated(parts).subrange(
            concatenated(parts.take(i)).len() as int,
            (concatenated(parts.take(i)).len() + parts[i].len()) as int,
        ) == parts[i],
    decreases parts.len(),
{
    let head = parts.drop_last();
    if i == parts.len() - 1 {
        assert(parts.take(i) =~= head);
        assert(concatenated(parts).subrange(
            concatenated(head).len() as int,
            concatenated(parts).len() as int,
        ) =~= parts[i]);
    } else {
        lemma_concatenated_part(head, i);
        assert(head.take(i) =~= parts.take(i));
        assert(head[i] == parts[i]);
        let a = concatenated(parts.take(i)).len() as int;
        let b = a + parts[i].len();
        assert(concatenated(parts).subrange(a, b) =~= concatenated(head).subrange(a, b));
    }
}

/// The entry of each data block leads to the bytes that the block was compressed to.
pub proof fn law_entries_lead_to_blocks(
    writer: BtreeIndexWriter,
    compressed: Seq<Seq<u8>>,
    prefixes: Seq<Seq<u8>>,
    filter: Seq<u8>,
    i: int,
)
    requires
        compressed.len() == writer.blocks().len(),
        writer.parts(compressed, prefixes, filter).file().len() <= u64::MAX,
        0 <= i < compressed.len(),
    ensures
        block_bytes_outcome(
            writer.parts(compressed, prefixes, filter).file(),
            writer.parts(compressed, prefixes, filter).entries[i],
        ) == Some(Ok::<_, BtreeIndexError>(compressed[i])),
{
    let parts = writer.parts(compressed, prefixes, filter);
    let file = parts.file();
    let entry = parts.entries[i];
    let a = concatenated(compressed.take(i)).len() as int;
    let b = a + compressed[i].len();
    lemma_concatenated_part(compressed, i);
    assert(parts.data.len() <= file.len());
    assert(file.subrange(a, b) =~= parts.data.subrange(a, b));
    assert(entry.2 == a && entry.3 == compressed[i].len());
}

/// What was written is found: where decompressing gives back what was compressed, a lookup in the
/// opened file gives exactly the rows that were added and are asked for, in key order, those with
/// equal keys in the order in which they were added, up to the limit.
pub proof fn law_lookup_finds_what_was_written<
    D: Fn(CommonCompression, &[u8], u64) -> Option<Vec<u8>>,
>(
    writer: BtreeIndexWriter,
    compressed: Seq<Seq<u8>>,
    prefixes: Seq<Seq<u8>>,
    filter: Seq<u8>,
    codec: CommonCompression,
    query: QueryModel,
    decompress: D,
    outcome: Option<Result<Seq<RowModel>, BtreeIndexError>>,
)
    requires
        compressed.len() == writer.blocks().len(),
        readable(writer.blocks()),
        writer.parts(compressed, prefixes, filter).file().len() <= u64::MAX,
        forall|i: int, a: Option<Seq<u8>>|
            0 <= i < compressed.len() && #[trigger] decompresses(
                decompress,
                codec,
                compressed[i],
                encoded_rows(writer.blocks()[i]).len() as u64,
                a,
            ) ==> a == Some(encoded_rows(writer.blocks()[i])),
        lookup_gives(
            writer.parts(compressed, prefixes, filter).opened(codec),
            query,
            decompress,
            outcome,
        ),
    ensures
        outcome == Some(
            Ok::<_, BtreeIndexError>(
                query.limited(hits(query, stable_sort(rows_view(writer.rows@)))),
            ),
        ),
{
    let parts = writer.parts(compressed, prefixes, filter);
    let file = parts.opened(codec);
    let blocks = writer.blocks();
    let sorted = stable_sort(rows_view(writer.rows@));
    lemma_stable_sort_exists(rows_view(writer.rows@));
    lemma_stable_sort_sorted(rows_view(writer.rows@), sorted);
    lemma_data_blocks_nonempty(sorted, writer.data_block_size as int);
    lemma_data_blocks_hold_rows(sorted, writer.data_block_size as int);
    assert forall|i: int| 0 <= i < blocks.len() implies stands_for(
        file.blocks[i],
        #[trigger] blocks[i],
    ) by {
        assert(blocks[i].len() > 0);
    }
    assert forall|i: int, o: Option<Result<Seq<RowModel>, BtreeIndexError>>|
        0 <= i < blocks.len() && #[trigger] block_reads(
            file,
            file.blocks[i],
            decompress,
            o,
        ) implies o == Some(Ok::<_, BtreeIndexError>(blocks[i])) by {
        law_entries_lead_to_blocks(writer, compressed, prefixes, filter, i);
        let a = choose|a: Option<Seq<u8>>|
            #[trigger] decompresses(
                decompress,
                codec,
                compressed[i],
                encoded_rows(blocks[i]).len() as u64,
                a,
            ) && o == decompressed_outcome(a);
        assert(a == Some(encoded_rows(blocks[i])));
        assert(rows_outcome(encoded_rows(blocks[i])) == Some(
            Ok::<_, BtreeIndexError>(blocks[i]),
        ));
    }
    law_lookup_finds_all(file, blocks, query, decompress, outcome);
}

/// Decompressing with a codec gives back what was compressed with it.
pub open spec fn undoes<
    C: Fn(CommonCompression, &[u8]) -> Option<Vec<u8>>,
    D: Fn(CommonCompression, &[u8], u64) -> Option<Vec<u8>>,
>(compress: C, decompress: D, codec: CommonCompression) -> bool {
    forall|bytes: Seq<u8>, compressed: Seq<u8>, answer: Option<Seq<u8>>| #[trigger]
        compresses(compress, codec, bytes, Some(compressed)) && #[trigger] decompresses(
            decompress,
            codec,
            compressed,
            bytes.len() as u64,
            answer,
        ) ==> answer == Some(bytes)
}

/// A file that was written can be opened, and a lookup in it gives exactly the rows that were added
/// and are asked for, in key order, those with equal keys in the order in which they were added, up
/// to the limit: where the host knows one codec under the name, and decompresses what it
/// compressed. The length of the footer must be one that the file can say.
pub proof fn law_written_file_is_read_back<
    P: Fn(&str) -> Option<CommonCompression>,
    C: Fn(CommonCompression, &[u8]) -> Option<Vec<u8>>,
    B: Fn(&Vec<Vec<u8>>, u64, u64) -> Option<Vec<u8>>,
    D: Fn(CommonCompression, &[u8], u64) -> Option<Vec<u8>>,
>(
    writer: BtreeIndexWriter,
    parse: P,
    compress: C,
    build_filter: B,
    decompress: D,
    file: Bytes,
    codec: CommonCompression,
    query: QueryModel,
    outcome: Option<Result<Seq<RowModel>, BtreeIndexError>>,
)
    requires
        writer.finishes(parse, compress, build_filter, Ok(file)),
        writer.meta.wf(),
        writer.written_within(parse, compress, build_filter, bytes_of(file)),
        forall|c: CommonCompression| #[trigger]
            names_codec(parse, writer.compression@, Some(c)) ==> c == codec,
        undoes(compress, decompress, codec),
    ensures
        ({
            let opened = open_outcome(bytes_of(file), Some(codec));
            &&& opened matches Some(Ok(_))
            &&& lookup_gives(opened->Some_0->Ok_0, query, decompress, outcome) ==> outcome == Some(
                Ok::<_, BtreeIndexError>(
                    query.limited(hits(query, stable_sort(rows_view(writer.rows@)))),
                ),
            )
        }),
{
    let bytes = bytes_of(file);
    let (c, compressed, prefixes, filter) = choose|
        c: CommonCompression,
        compressed: Seq<Seq<u8>>,
        prefixes: Seq<Seq<u8>>,
        filter: Seq<u8>,
    | #[trigger]
        writer.written_with(
            parse,
            compress,
            build_filter,
            bytes,
            c,
            compressed,
            prefixes,
            filter,
        ) && writer.footer_fits(compressed, prefixes, filter);
    let parts = writer.parts(compressed, prefixes, filter);
    assert(c == codec);
    assert(open_outcome(bytes, Some(codec)) == Some(
        Ok::<_, BtreeIndexError>(parts.opened(codec)),
    ));
    if lookup_gives(parts.opened(codec), query, decompress, outcome) {
        assert forall|i: int, a: Option<Seq<u8>>|
            0 <= i < compressed.len() && #[trigger] decompresses(
                decompress,
                codec,
                compressed[i],
                encoded_rows(writer.blocks()[i]).len() as u64,
                a,
            ) implies a == Some(encoded_rows(writer.blocks()[i])) by {
            assert(compresses(
                compress,
                codec,
                encoded_rows(writer.blocks()[i]),
                Some(compressed[i]),
            ));
        }
        law_lookup_finds_what_was_written(
            writer,
            compressed,
            prefixes,
            filter,
            codec,
            query,
            decompress,
            outcome,
        );
    }
}

} // verus!
