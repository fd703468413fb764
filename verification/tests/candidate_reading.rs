use std::cmp::Ordering;
use std::sync::Arc;

use btree_index::candidate::{
    candidate_blocks_are_disjoint, candidate_blocks_of_file, BtreeIndexCandidateBlock,
    CandidateRead, CandidateRequest, BTREE_INDEX_DATA_BLOCK_READ_BATCH_SIZE,
};
use btree_index::expr::Expr;
use btree_index::format::BTREE_INDEX_FILE_VERSION;
use btree_index::index_scan::select_candidate_rows;
use btree_index::loader::{data_block_range, meta_of_open_file};
use btree_index::rows::{
    btree_prefix_row_refs, clone_marked_row_refs, clone_row_refs, sort_and_truncate_rows,
    sort_rows, truncate_row_refs_before_key,
};
use btree_index::scalar::Scalar;
use btree_index::select::{FilterValue, PayloadBlock};
use btree_index::types::{
    BtreeIndexDataBlockMeta, BtreeIndexFilterBlock, BtreeIndexFooter, BtreeIndexIndexBlock,
    BtreeIndexMeta, BtreeIndexRow, CommonCompression,
};
use btree_index::view::{BtreeIndexFileMeta, BtreeIndexFileView};
use btree_index::writer::BtreeIndexWriter;
use bytes::Bytes;

fn codec(_: &str) -> Option<CommonCompression> {
    Some(CommonCompression { codec: 0 })
}

fn compress(_: CommonCompression, bytes: &[u8]) -> Option<Vec<u8>> {
    Some(bytes.to_vec())
}

fn decompress(_: CommonCompression, bytes: &[u8], _: u64) -> Option<Vec<u8>> {
    Some(bytes.to_vec())
}

fn build_filter(_: &Vec<Vec<u8>>, _: u64, _: u64) -> Option<Vec<u8>> {
    Some(vec![])
}

fn no_meta() -> BtreeIndexMeta {
    BtreeIndexMeta { columns: vec![], metadata: vec![] }
}

/// A store of files, by their locations.
struct Store {
    files: Vec<(String, Bytes)>,
}

impl Store {
    fn write(&mut self, location: &str, keys: &[&str], block_size: usize) {
        let mut writer = BtreeIndexWriter::new(no_meta(), "schema", "wallet ASC", "none")
            .with_data_block_size(block_size);
        for key in keys {
            writer.add_row(
                Bytes::copy_from_slice(key.as_bytes()),
                Bytes::copy_from_slice(key.as_bytes()),
            );
        }
        let data = writer.finish(codec, compress, build_filter).unwrap();
        self.files.push((location.to_string(), data));
    }

    fn data(&self, location: &str) -> Bytes {
        match self.files.iter().find(|(name, _)| name == location) {
            Some((_, data)) => data.clone(),
            None => panic!("no file at {location}"),
        }
    }

    fn meta(&self, location: &str) -> Arc<BtreeIndexFileMeta> {
        let view = BtreeIndexFileView::try_open(self.data(location), codec).unwrap().unwrap();
        Arc::new(meta_of_open_file(view))
    }

    fn rows(&self, candidate: &BtreeIndexCandidateBlock) -> Vec<BtreeIndexRow> {
        let data = self.data(&candidate.index_location);
        let (start, end) = data_block_range(&candidate.block_meta).unwrap();
        let bytes = &data[start as usize..end as usize];
        candidate
            .meta
            .try_decode_data_block(&candidate.block_meta, bytes, codec, decompress)
            .unwrap()
            .unwrap()
    }
}

fn no_decode(_: &Vec<u8>, _: &Vec<usize>) -> Option<Vec<Scalar>> {
    None
}

fn no_order(_: &Scalar, _: &Scalar) -> Option<Ordering> {
    None
}

fn no_value(_: &Expr, _: &PayloadBlock) -> Option<FilterValue> {
    None
}

fn read_candidate_rows(
    store: &Store,
    candidates: Vec<BtreeIndexCandidateBlock>,
    prefix: &[u8],
    limit: Option<usize>,
) -> Vec<BtreeIndexRow> {
    let mut read = CandidateRead::start(candidates, limit);
    while !read.done {
        let request = read.request();
        let rows = store.rows(&read.candidates[request.candidate]);
        let rows = select_candidate_rows(
            &rows, prefix, None, &request, &no_decode, &no_order, &no_order, &no_value,
        )
        .unwrap();
        read.accept(rows);
    }
    read.rows
}

fn block_like(block: &BtreeIndexDataBlockMeta, first: &[u8], last: &[u8]) -> BtreeIndexDataBlockMeta {
    BtreeIndexDataBlockMeta {
        first_key: first.to_vec(),
        last_key: last.to_vec(),
        offset: block.offset,
        length: block.length,
        uncompressed_length: block.uncompressed_length,
        row_count: block.row_count,
        checksum: block.checksum,
    }
}

fn same_block(block: &BtreeIndexDataBlockMeta) -> BtreeIndexDataBlockMeta {
    block_like(block, &block.first_key, &block.last_key)
}

fn candidate_block(first_key: &[u8], last_key: &[u8]) -> BtreeIndexCandidateBlock {
    BtreeIndexCandidateBlock {
        index_location: "unused".to_string(),
        meta: Arc::new(BtreeIndexFileMeta {
            footer: BtreeIndexFooter {
                version: BTREE_INDEX_FILE_VERSION,
                schema: String::new(),
                key_order: String::new(),
                compression: "none".to_string(),
                meta: no_meta(),
                checksum: 0,
                sections: vec![],
            },
            index_block: BtreeIndexIndexBlock { data_blocks: vec![] },
            filter_block: BtreeIndexFilterBlock {
                equality_prefix_bloom: vec![],
                equality_prefix_count: 0,
            },
        }),
        block_meta: BtreeIndexDataBlockMeta {
            first_key: first_key.to_vec(),
            last_key: last_key.to_vec(),
            offset: 0,
            length: 0,
            uncompressed_length: 0,
            row_count: 0,
            checksum: 0,
        },
    }
}

fn test_row(encoded_key: &[u8]) -> BtreeIndexRow {
    BtreeIndexRow { encoded_key: encoded_key.to_vec(), encoded_row_payload: Vec::new() }
}

fn keys(rows: &[BtreeIndexRow]) -> Vec<String> {
    rows.iter().map(|row| String::from_utf8(row.encoded_key.clone()).unwrap()).collect()
}

#[test]
fn test_btree_prefix_row_refs_seek_to_prefix_start() {
    let rows = vec![
        test_row(b"wallet-0|999"),
        test_row(b"wallet-1|001"),
        test_row(b"wallet-1|002"),
        test_row(b"wallet-2|001"),
    ];

    let row_refs = btree_prefix_row_refs(&rows, b"wallet-1|");

    assert_eq!(row_refs.len(), 2);
    assert_eq!(row_refs[0].encoded_key.as_slice(), b"wallet-1|001");
    assert_eq!(row_refs[1].encoded_key.as_slice(), b"wallet-1|002");
}

#[test]
fn test_btree_prefix_row_refs_handles_missing_prefix() {
    let rows = vec![
        test_row(b"wallet-0|999"),
        test_row(b"wallet-2|001"),
        test_row(b"wallet-3|001"),
    ];

    let row_refs = btree_prefix_row_refs(&rows, b"wallet-1|");

    assert!(row_refs.is_empty());
}

#[test]
fn test_truncate_row_refs_before_topk_boundary() {
    let rows = vec![
        test_row(b"wallet-1|001"),
        test_row(b"wallet-1|002"),
        test_row(b"wallet-1|003"),
    ];
    let mut row_refs = rows.iter().collect::<Vec<_>>();

    truncate_row_refs_before_key(&mut row_refs, Some(b"wallet-1|003"));

    assert_eq!(row_refs.len(), 2);
    assert_eq!(row_refs[0].encoded_key.as_slice(), b"wallet-1|001");
    assert_eq!(row_refs[1].encoded_key.as_slice(), b"wallet-1|002");
}

#[test]
fn test_candidate_blocks_disjoint_rejects_overlap() {
    let candidates = vec![candidate_block(b"a", b"m"), candidate_block(b"n", b"z")];
    assert!(candidate_blocks_are_disjoint(&candidates));

    let candidates = vec![candidate_block(b"a", b"n"), candidate_block(b"n", b"z")];
    assert!(!candidate_blocks_are_disjoint(&candidates));

    let candidates = vec![candidate_block(b"a", b"z"), candidate_block(b"m", b"n")];
    assert!(!candidate_blocks_are_disjoint(&candidates));
}

#[test]
fn test_ordered_candidate_rows_stop_after_limit() {
    let mut store = Store { files: vec![] };
    let location = "btree-limit-first.sst";
    store.write(location, &["wallet-1|001"], 65536);

    let meta = store.meta(location);
    let first_block = same_block(&meta.index_block().data_blocks[0]);
    let missing_block = block_like(&first_block, b"wallet-2|001", b"wallet-2|999");

    let rows = read_candidate_rows(
        &store,
        vec![
            BtreeIndexCandidateBlock {
                index_location: location.to_string(),
                meta: meta.clone(),
                block_meta: first_block,
            },
            BtreeIndexCandidateBlock {
                index_location: "missing-btree-limit-second.sst".to_string(),
                meta,
                block_meta: missing_block,
            },
        ],
        b"wallet-",
        Some(1),
    );

    assert_eq!(rows.len(), 1);
    assert_eq!(rows[0].encoded_key.as_slice(), b"wallet-1|001");
}

#[test]
fn test_overlapped_candidate_rows_stop_after_topk_boundary() {
    let mut store = Store { files: vec![] };
    let location = "btree-overlap-limit-first.sst";
    store.write(location, &["wallet-1|001", "wallet-1|002", "wallet-1|003"], usize::MAX);

    let meta = store.meta(location);
    let first_block = same_block(&meta.index_block().data_blocks[0]);
    let overlapping_missing_block = block_like(&first_block, b"wallet-1|003", b"wallet-1|004");

    let rows = read_candidate_rows(
        &store,
        vec![
            BtreeIndexCandidateBlock {
                index_location: location.to_string(),
                meta: meta.clone(),
                block_meta: first_block,
            },
            BtreeIndexCandidateBlock {
                index_location: "missing-btree-overlap-limit-second.sst".to_string(),
                meta,
                block_meta: overlapping_missing_block,
            },
        ],
        b"wallet-1|",
        Some(2),
    );

    assert_eq!(rows.len(), 2);
    assert_eq!(rows[0].encoded_key.as_slice(), b"wallet-1|001");
    assert_eq!(rows[1].encoded_key.as_slice(), b"wallet-1|002");
}

#[test]
fn test_overlapped_candidate_rows_reads_until_limit_then_stops() {
    let mut store = Store { files: vec![] };
    let first_location = "btree-overlap-limit-one.sst";
    let second_location = "btree-overlap-limit-two.sst";
    store.write(first_location, &["wallet-1|001"], usize::MAX);
    store.write(second_location, &["wallet-1|002", "wallet-1|003"], usize::MAX);

    let first_meta = store.meta(first_location);
    let second_meta = store.meta(second_location);
    let first_block = block_like(
        &first_meta.index_block().data_blocks[0],
        b"wallet-1|001",
        b"wallet-1|002",
    );
    let second_block = same_block(&second_meta.index_block().data_blocks[0]);
    let later_missing_block = block_like(&second_block, b"wallet-1|003", b"wallet-1|004");

    let rows = read_candidate_rows(
        &store,
        vec![
            BtreeIndexCandidateBlock {
                index_location: first_location.to_string(),
                meta: first_meta,
                block_meta: first_block,
            },
            BtreeIndexCandidateBlock {
                index_location: second_location.to_string(),
                meta: second_meta.clone(),
                block_meta: second_block,
            },
            BtreeIndexCandidateBlock {
                index_location: "missing-btree-overlap-limit-third.sst".to_string(),
                meta: second_meta,
                block_meta: later_missing_block,
            },
        ],
        b"wallet-1|",
        Some(2),
    );

    assert_eq!(rows.len(), 2);
    assert_eq!(rows[0].encoded_key.as_slice(), b"wallet-1|001");
    assert_eq!(rows[1].encoded_key.as_slice(), b"wallet-1|002");
}

fn all_candidates(store: &Store) -> Vec<BtreeIndexCandidateBlock> {
    let mut candidates = Vec::new();
    for (location, _) in &store.files {
        let meta = store.meta(location);
        candidates.append(&mut candidate_blocks_of_file(location, &meta, true, b"", 0, &vec![]));
    }
    candidates
}

#[test]
fn reading_gives_the_first_rows_however_they_are_spread() {
    let mut overlapping = Store { files: vec![] };
    overlapping.write("one", &["a", "d", "e", "j"], 1);
    overlapping.write("two", &["b", "c", "h"], 65536);
    overlapping.write("three", &["f", "g", "i"], 2);
    let mut disjoint = Store { files: vec![] };
    disjoint.write("one", &["f", "g", "h", "i", "j"], 1);
    disjoint.write("two", &["a", "b", "c", "d", "e"], 2);
    let expected: Vec<String> = "abcdefghij".chars().map(|c| c.to_string()).collect();
    for store in [overlapping, disjoint] {
        let rows = read_candidate_rows(&store, all_candidates(&store), b"", None);
        assert_eq!(keys(&rows), expected);
        for limit in 1..12 {
            let rows = read_candidate_rows(&store, all_candidates(&store), b"", Some(limit));
            assert_eq!(keys(&rows), expected[..limit.min(10)].to_vec());
        }
    }
}

#[test]
fn nothing_is_read_where_there_are_no_candidates() {
    let read = CandidateRead::start(vec![], Some(3));
    assert!(read.done);
    assert!(read.rows.is_empty());
    assert_eq!(read.batch_size(), 0);
}

#[test]
fn disjoint_candidates_are_not_read_for_a_limit_of_zero() {
    let read = CandidateRead::start(vec![candidate_block(b"a", b"b")], Some(0));
    assert!(read.done);
    assert!(read.rows.is_empty());
}

#[test]
fn a_candidate_keeps_its_file() {
    let mut late = candidate_block(b"n", b"z");
    let mut early = candidate_block(b"a", b"m");
    for (candidate, compression) in [(&mut late, "late"), (&mut early, "early")] {
        let meta = Arc::get_mut(&mut candidate.meta).unwrap();
        meta.footer.compression = compression.to_string();
    }
    let read = CandidateRead::start(vec![late, early], None);
    assert_eq!(read.candidates[0].meta.footer.compression, "early");
    assert_eq!(read.candidates[1].meta.footer.compression, "late");
}

#[test]
fn candidates_are_read_in_the_order_of_their_keys() {
    let read = CandidateRead::start(
        vec![candidate_block(b"n", b"z"), candidate_block(b"a", b"m")],
        Some(5),
    );
    assert!(read.in_order);
    assert_eq!(read.candidates[0].block_meta.first_key.as_slice(), b"a");
    let request = read.request();
    assert_eq!(request.candidate, 0);
    assert_eq!(request.limit, Some(5));
    assert_eq!(request.upper_bound_key, None);
    assert_eq!(read.batch_size(), 1);
}

#[test]
fn overlapping_candidates_without_a_limit_are_read_in_batches() {
    let many = |n: usize| (0..n).map(|_| candidate_block(b"a", b"z")).collect::<Vec<_>>();
    let read = CandidateRead::start(many(40), None);
    assert_eq!(read.batch_size(), BTREE_INDEX_DATA_BLOCK_READ_BATCH_SIZE);
    let mut read = CandidateRead::start(many(3), None);
    assert_eq!(read.batch_size(), 3);
    read.accept(vec![test_row(b"c")]);
    assert_eq!(read.batch_size(), 2);
    read.accept(vec![test_row(b"a")]);
    read.accept(vec![test_row(b"b")]);
    assert!(read.done);
    assert_eq!(keys(&read.rows), vec!["a", "b", "c"]);
}

#[test]
fn a_full_reading_asks_only_for_rows_before_its_last() {
    let mut read = CandidateRead::start(
        vec![candidate_block(b"a", b"z"), candidate_block(b"b", b"y")],
        Some(2),
    );
    assert!(!read.in_order);
    read.accept(vec![test_row(b"a"), test_row(b"d")]);
    let request = read.request();
    assert_eq!(request.limit, Some(2));
    assert_eq!(request.upper_bound_key, Some(b"d".to_vec()));
    read.accept(vec![test_row(b"c")]);
    assert!(read.done);
    assert_eq!(keys(&read.rows), vec!["a", "c"]);
}

#[test]
fn a_request_is_answered_with_its_rows() {
    let rows = vec![test_row(b"p1"), test_row(b"p2"), test_row(b"p3"), test_row(b"q1")];
    let select = |limit: Option<usize>, bound: Option<&[u8]>| {
        let request = CandidateRequest {
            candidate: 0,
            limit,
            upper_bound_key: bound.map(|key| key.to_vec()),
        };
        let rows = select_candidate_rows(
            &rows, b"p", None, &request, &no_decode, &no_order, &no_order, &no_value,
        );
        keys(&rows.unwrap())
    };
    assert_eq!(select(None, None), vec!["p1", "p2", "p3"]);
    assert_eq!(select(Some(2), None), vec!["p1", "p2"]);
    assert_eq!(select(None, Some(b"p3")), vec!["p1", "p2"]);
    assert_eq!(select(Some(1), Some(b"p1")), Vec::<String>::new());
}

#[test]
fn rows_in_no_order_are_looked_at_as_they_stand() {
    let rows = vec![test_row(b"p3"), test_row(b"p1"), test_row(b"p2")];
    let request = CandidateRequest { candidate: 0, limit: Some(2), upper_bound_key: None };
    let select = |prefix: &[u8]| {
        let rows = select_candidate_rows(
            &rows, prefix, None, &request, &no_decode, &no_order, &no_order, &no_value,
        );
        keys(&rows.unwrap())
    };
    assert_eq!(select(b""), vec!["p3", "p1"]);
    assert!(select(b"p").iter().all(|key| key.starts_with('p')));
}

#[test]
fn a_file_whose_filter_rules_the_prefix_out_has_no_candidates() {
    let mut store = Store { files: vec![] };
    store.write("file", &["a1", "a2", "b1"], 1);
    let meta = store.meta("file");
    assert!(candidate_blocks_of_file("file", &meta, false, b"a", 1, &vec![]).is_empty());
    let found = candidate_blocks_of_file("file", &meta, true, b"a", 1, &vec![]);
    assert_eq!(found.len(), 2);
    assert!(found.iter().all(|candidate| candidate.index_location == "file"));
    assert_eq!(found[1].block_meta.first_key.as_slice(), b"a2");
}

#[test]
fn rows_are_copied_up_to_a_limit() {
    let rows = vec![test_row(b"1"), test_row(b"2"), test_row(b"3")];
    let refs: Vec<&BtreeIndexRow> = rows.iter().collect();
    assert_eq!(keys(&clone_row_refs(&refs, None)), vec!["1", "2", "3"]);
    assert_eq!(keys(&clone_row_refs(&refs, Some(2))), vec!["1", "2"]);
    assert_eq!(keys(&clone_row_refs(&refs, Some(9))), vec!["1", "2", "3"]);
    let marks = vec![true, false, true];
    assert_eq!(keys(&clone_marked_row_refs(&refs, &marks, None)), vec!["1", "3"]);
    assert_eq!(keys(&clone_marked_row_refs(&refs, &marks, Some(1))), vec!["1"]);
}

#[test]
fn rows_are_sorted_by_their_keys() {
    let rows = || vec![test_row(b"2"), test_row(b"3"), test_row(b"1")];
    assert_eq!(keys(&sort_rows(rows())), vec!["1", "2", "3"]);
    assert_eq!(keys(&sort_and_truncate_rows(rows(), 2)), vec!["1", "2"]);
    assert_eq!(keys(&sort_and_truncate_rows(rows(), 5)), vec!["1", "2", "3"]);
}
