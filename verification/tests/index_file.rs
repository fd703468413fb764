use std::future::IntoFuture;

use btree_index::error::{BtreeIndexError, BtreeIndexPart};
use btree_index::format::{
    btree_footer_range, btree_index_section, decode_btree_footer_bytes, encode_btree_index_meta,
    try_decode_btree_footer_bytes, try_decode_btree_index_meta, try_decode_footer,
    validate_checksum, validate_section_checksum, BTREE_INDEX_FILE_VERSION,
    BTREE_INDEX_FOOTER_TAIL_SIZE, BTREE_INDEX_MAGIC,
};
use btree_index::loader::{data_block_cache_key, data_block_range, meta_of_open_file, MetaLoad};
use btree_index::types::{
    BtreeIndexDataBlockMeta, BtreeIndexMeta, BtreeIndexRow, BtreeIndexSection,
    BtreeIndexSectionKind, CommonCompression, SingleColumnMeta,
};
use btree_index::view::{
    encode_btree_index_file_meta, try_decode_btree_index_file_meta, BtreeIndexFileMeta,
    BtreeIndexFileView,
};
use btree_index::writer::BtreeIndexWriter;
use bytes::Bytes;
use futures::executor::block_on;
use opendal::Operator;

fn codec(name: &str) -> Option<CommonCompression> {
    match name {
        "none" => Some(CommonCompression { codec: 0 }),
        "masked" => Some(CommonCompression { codec: 1 }),
        "broken" => Some(CommonCompression { codec: 2 }),
        _ => None,
    }
}

fn masked(bytes: &[u8]) -> Vec<u8> {
    bytes.iter().map(|b| b ^ 0x5a).collect()
}

fn compress(codec: CommonCompression, bytes: &[u8]) -> Option<Vec<u8>> {
    match codec.codec {
        0 => Some(bytes.to_vec()),
        1 => Some(masked(bytes)),
        _ => None,
    }
}

fn decompress(codec: CommonCompression, bytes: &[u8], len: u64) -> Option<Vec<u8>> {
    match codec.codec {
        0 => Some(bytes.to_vec()),
        1 if bytes.len() as u64 == len => Some(masked(bytes)),
        _ => None,
    }
}

fn build_filter(prefixes: &Vec<Vec<u8>>, bits: u64, seed: u64) -> Option<Vec<u8>> {
    assert_eq!(seed, 0);
    assert!(bits >= 10 * prefixes.len() as u64);
    let mut filter = Vec::new();
    for prefix in prefixes {
        filter.push(prefix.len() as u8);
        filter.extend_from_slice(prefix);
    }
    Some(filter)
}

fn probe(filter: &[u8], prefix: &[u8]) -> Option<bool> {
    let mut rest = filter;
    while !rest.is_empty() {
        let len = rest[0] as usize;
        if rest.len() < 1 + len {
            return None;
        }
        if &rest[1..1 + len] == prefix {
            return Some(true);
        }
        rest = &rest[1 + len..];
    }
    Some(false)
}

fn no_meta() -> BtreeIndexMeta {
    BtreeIndexMeta { columns: vec![], metadata: vec![] }
}

fn row(key: &str, value: &str) -> (Bytes, Bytes) {
    (Bytes::copy_from_slice(key.as_bytes()), Bytes::copy_from_slice(value.as_bytes()))
}

fn finish(writer: BtreeIndexWriter) -> Bytes {
    writer.finish(codec, compress, build_filter).unwrap()
}

fn open(data: Bytes) -> BtreeIndexFileView {
    BtreeIndexFileView::try_open(data, codec).unwrap().unwrap()
}

fn lookup_prefix(
    view: &BtreeIndexFileView,
    prefix: &[u8],
    limit: Option<usize>,
) -> Vec<BtreeIndexRow> {
    view.lookup_prefix(prefix, limit, decompress).unwrap().unwrap()
}

fn keys(rows: &[BtreeIndexRow]) -> Vec<&[u8]> {
    rows.iter().map(|row| row.encoded_key.as_slice()).collect()
}

fn ten_rows(compression: &str, block_size: usize) -> Bytes {
    let mut writer = BtreeIndexWriter::new(no_meta(), "schema", "wallet ASC", compression)
        .with_data_block_size(block_size);
    writer.add_equality_prefix(Bytes::from_static(b"wallet-1|"));
    for score in [3, 1, 4, 0, 5, 9, 2, 6, 8, 7] {
        let (key, value) = row(&format!("wallet-1|{score}"), &format!("payload-{score}"));
        writer.add_row(key, value);
    }
    finish(writer)
}

#[test]
fn test_btree_index_sst_round_trip() {
    let mut writer = BtreeIndexWriter::new(no_meta(), "schema", "a ASC,b DESC", "none")
        .with_data_block_size(16);
    writer.add_equality_prefix(Bytes::from_static(b"wallet-1"));
    let (key, value) = row("wallet-2|14|1", "payload-2");
    writer.add_row(key, value);
    let (key, value) = row("wallet-1|14|2", "payload-1");
    writer.add_row(key, value);

    let data = finish(writer);
    let view = open(data);

    assert_eq!(view.footer().version, BTREE_INDEX_FILE_VERSION);
    assert!(view.may_contain_equality_prefix(b"wallet-1", probe));
    assert!(!view.may_contain_equality_prefix(b"wallet-404", probe));

    let rows = lookup_prefix(&view, b"wallet-1", Some(100));
    assert_eq!(rows.len(), 1);
    assert_eq!(rows[0].encoded_row_payload.as_slice(), b"payload-1");
}

#[test]
fn test_btree_index_prefix_lookup_across_data_blocks() {
    let mut writer = BtreeIndexWriter::new(no_meta(), "schema", "wallet ASC,score DESC", "none")
        .with_data_block_size(1);
    writer.add_equality_prefix(Bytes::from_static(b"wallet-1|"));
    for score in (0..10).rev() {
        let key = format!("wallet-1|{:02}", score);
        let value = format!("payload-{score}");
        let (key, value) = row(&key, &value);
        writer.add_row(key, value);
    }

    let data = finish(writer);
    let view = open(data);

    assert!(view.index_block().data_blocks.len() > 1);
    assert!(view.may_contain_equality_prefix(b"wallet-1|", probe));
    let rows = lookup_prefix(&view, b"wallet-1|", Some(100));
    assert_eq!(rows.len(), 10);
    assert_eq!(rows[0].encoded_key.as_slice(), b"wallet-1|00");
    assert_eq!(rows[9].encoded_key.as_slice(), b"wallet-1|09");
}

#[test]
fn test_btree_index_footer_range_from_tail() {
    let mut writer = BtreeIndexWriter::new(no_meta(), "schema", "wallet ASC", "none");
    writer.add_equality_prefix(Bytes::from_static(b"wallet-1"));
    let (key, value) = row("wallet-1", "payload-1");
    writer.add_row(key, value);

    let data = finish(writer);
    let file_len = data.len() as u64;
    let tail = &data[data.len() - BTREE_INDEX_FOOTER_TAIL_SIZE..];
    let footer_range = btree_footer_range(file_len, tail).unwrap();
    let footer = decode_btree_footer_bytes(
        &data[footer_range.start as usize..footer_range.end as usize],
    )
    .unwrap();

    assert_eq!(footer.version, BTREE_INDEX_FILE_VERSION);
    assert_eq!(footer.key_order, "wallet ASC");
}

fn load_meta(operator: &Operator, location: &str, len_hint: Option<u64>) -> BtreeIndexFileMeta {
    let mut load = MetaLoad::start(len_hint).unwrap();
    if matches!(load, MetaLoad::Length) {
        let stat = block_on(operator.stat(location)).unwrap();
        load = load.accept_length(stat.content_length()).unwrap();
    }
    while let Some((start, end)) = load.request() {
        let buffer = block_on(operator.read_with(location).range(start..end).into_future()).unwrap();
        load = load.accept_bytes(buffer.to_bytes()).unwrap().unwrap();
    }
    match load {
        MetaLoad::Done { meta } => meta,
        _ => panic!("the load stopped early"),
    }
}

fn load_rows(
    operator: &Operator,
    location: &str,
    meta: &BtreeIndexFileMeta,
    block: &BtreeIndexDataBlockMeta,
) -> Vec<BtreeIndexRow> {
    let (start, end) = data_block_range(block).unwrap();
    let buffer = block_on(operator.read_with(location).range(start..end).into_future()).unwrap();
    meta.try_decode_data_block(block, &buffer.to_bytes(), codec, decompress).unwrap().unwrap()
}

fn memory() -> Operator {
    Operator::new(opendal::services::Memory::default()).unwrap().finish()
}

#[test]
fn test_load_btree_index_ranges_from_opendal() {
    let operator = memory();
    let location = "btree-index.sst";
    let mut writer = BtreeIndexWriter::new(no_meta(), "schema", "wallet ASC,score DESC", "none")
        .with_data_block_size(1);
    writer.add_equality_prefix(Bytes::from_static(b"wallet-1|"));
    for score in 0..4 {
        let key = format!("wallet-1|{score}");
        let value = format!("payload-{score}");
        let (key, value) = row(&key, &value);
        writer.add_row(key, value);
    }
    let data = finish(writer);
    block_on(operator.write(location, data.to_vec())).unwrap();

    let meta = load_meta(&operator, location, None);
    assert!(meta.may_contain_equality_prefix(b"wallet-1|", probe));
    let block_metas = meta.blocks_for_prefix(b"wallet-1|");
    assert!(block_metas.len() > 1);

    let mut rows = Vec::new();
    for block_meta in &block_metas {
        rows.extend(load_rows(&operator, location, &meta, block_meta));
    }
    rows.retain(|row| row.encoded_key.starts_with(b"wallet-1|"));
    assert_eq!(rows.len(), 4);
    assert_eq!(rows[0].encoded_row_payload.as_slice(), b"payload-0");
}

#[test]
fn loading_by_pieces_gives_what_opening_gives() {
    let data = ten_rows("masked", 40);
    let operator = memory();
    block_on(operator.write("file", data.to_vec())).unwrap();
    let by_length = load_meta(&operator, "file", Some(data.len() as u64));
    let by_stat = load_meta(&operator, "file", None);
    let opened = meta_of_open_file(open(data));
    let expected = encode_btree_index_file_meta(&opened).unwrap();
    assert_eq!(encode_btree_index_file_meta(&by_length).unwrap(), expected);
    assert_eq!(encode_btree_index_file_meta(&by_stat).unwrap(), expected);
}

#[test]
fn loading_refuses_a_file_that_is_too_short() {
    assert_eq!(
        MetaLoad::start(Some(11)).unwrap_err(),
        BtreeIndexError::InvalidFileLength { file_len: 11 }
    );
    assert_eq!(
        MetaLoad::start(None).unwrap().accept_length(0).unwrap_err(),
        BtreeIndexError::InvalidFileLength { file_len: 0 }
    );
    let load = MetaLoad::start(Some(12)).unwrap();
    assert_eq!(load.request(), Some((0, 12)));
    let stopped = load.accept_bytes(Bytes::from_static(b"0123456789ab")).unwrap();
    assert_eq!(stopped.unwrap_err(), BtreeIndexError::InvalidMagic);
}

#[test]
fn every_lookup_finds_what_was_written() {
    for compression in ["none", "masked"] {
        for block_size in [1, 40, 65536] {
            let view = open(ten_rows(compression, block_size));
            let found = view.lookup_exact(b"wallet-1|4", decompress).unwrap().unwrap();
            assert_eq!(found.len(), 1);
            assert_eq!(found[0].encoded_row_payload.as_slice(), b"payload-4");
            assert!(view.lookup_exact(b"wallet-1|", decompress).unwrap().unwrap().is_empty());

            let all = lookup_prefix(&view, b"wallet-1|", None);
            let ordered: Vec<String> = (0..10).map(|score| format!("wallet-1|{score}")).collect();
            let ordered: Vec<&[u8]> = ordered.iter().map(|key| key.as_bytes()).collect();
            assert_eq!(keys(&all), ordered);
            assert_eq!(keys(&lookup_prefix(&view, b"wallet-1|", Some(3))), ordered[..3].to_vec());

            let range = view
                .lookup_range(&b"wallet-1|2"[..]..&b"wallet-1|5"[..], decompress)
                .unwrap()
                .unwrap();
            assert_eq!(keys(&range), ordered[2..6].to_vec());
            let rest = view
                .lookup_range(&b"wallet-1|8"[..]..&b""[..], decompress)
                .unwrap()
                .unwrap();
            assert_eq!(keys(&rest), ordered[8..].to_vec());
        }
    }
}

#[test]
fn a_prefix_lookup_with_a_limit_of_zero_gives_one_row() {
    let view = open(ten_rows("none", 40));
    assert_eq!(keys(&lookup_prefix(&view, b"wallet-1|", Some(0))), vec![b"wallet-1|0"]);
}

#[test]
fn rows_with_one_key_stay_in_the_order_in_which_they_were_added() {
    let mut writer = BtreeIndexWriter::new(no_meta(), "", "", "none").with_data_block_size(1);
    for value in ["first", "second", "third"] {
        let (key, value) = row("same", value);
        writer.add_row(key, value);
    }
    let view = open(finish(writer));
    let found = view.lookup_exact(b"same", decompress).unwrap().unwrap();
    let payloads: Vec<&[u8]> = found.iter().map(|row| row.encoded_row_payload.as_slice()).collect();
    assert_eq!(payloads, vec![&b"first"[..], b"second", b"third"]);
}

#[test]
fn a_file_without_rows_opens_and_holds_nothing() {
    let writer = BtreeIndexWriter::new(no_meta(), "s", "k", "none");
    let view = open(finish(writer));
    assert!(view.index_block().data_blocks.is_empty());
    assert_eq!(view.filter_block().equality_prefix_count, 0);
    assert!(lookup_prefix(&view, b"", None).is_empty());
}

#[test]
fn blocks_are_cut_once_they_hold_enough() {
    let view = open(ten_rows("none", 40));
    let counts: Vec<u32> =
        view.index_block().data_blocks.iter().map(|block| block.row_count).collect();
    assert_eq!(counts, vec![3, 3, 3, 1]);
    let first = &view.index_block().data_blocks[0];
    assert_eq!(first.first_key.as_slice(), b"wallet-1|0");
    assert_eq!(first.last_key.as_slice(), b"wallet-1|2");
    assert_eq!(first.offset, 0);
    assert_eq!(view.index_block().data_blocks[1].offset, first.length);
}

#[test]
fn a_file_is_laid_out_without_gaps() {
    for block_size in [0, 1, 40, 1000] {
        let data = ten_rows("masked", block_size);
        let view = open(data.clone());
        let mut offset = 0;
        let mut last_key: Vec<u8> = Vec::new();
        for block in &view.index_block().data_blocks {
            assert_eq!(block.offset, offset);
            offset += block.length;
            assert!(last_key <= block.first_key && block.first_key <= block.last_key);
            last_key = block.last_key.clone();
        }
        let rows: u32 = view.index_block().data_blocks.iter().map(|b| b.row_count).sum();
        assert_eq!(rows, 10);
        let kinds: Vec<_> = view.footer().sections.iter().map(|s| s.kind).collect();
        assert_eq!(
            kinds,
            vec![
                BtreeIndexSectionKind::Data,
                BtreeIndexSectionKind::Filter,
                BtreeIndexSectionKind::Index,
                BtreeIndexSectionKind::Footer
            ]
        );
        let mut at = 0;
        for section in &view.footer().sections {
            assert_eq!(section.offset, at);
            at += section.length;
        }
        let footer_len = data.len() as u64 - 12 - at;
        assert_eq!(&data[data.len() - 12..data.len() - 8], &(footer_len as u32).to_le_bytes());
        assert_eq!(&data[data.len() - 8..], b"DBBTREE1");
    }
}

#[test]
fn every_changed_byte_is_noticed() {
    let data = ten_rows("none", 40);
    let footer_at = open(data.clone()).footer().sections[3].offset as usize;
    for at in (0..footer_at).chain(data.len() - 8..data.len()) {
        let mut changed = data.to_vec();
        changed[at] = changed[at].wrapping_add(1);
        assert!(BtreeIndexFileView::try_open(Bytes::from(changed), codec).unwrap().is_err());
    }
    for len in 0..12 {
        let short = Bytes::from(data[data.len() - len..].to_vec());
        assert_eq!(
            BtreeIndexFileView::try_open(short, codec).unwrap().unwrap_err(),
            BtreeIndexError::FileTooSmall { file_len: len as u64 }
        );
    }
}

#[test]
fn no_added_prefix_is_denied() {
    let prefixes = ["", "a", "b", "ab", "a", "wallet"];
    let mut writer = BtreeIndexWriter::new(no_meta(), "", "", "none");
    for prefix in prefixes {
        writer.add_equality_prefix(Bytes::copy_from_slice(prefix.as_bytes()));
    }
    let view = open(finish(writer));
    for prefix in prefixes {
        assert!(view.may_contain_equality_prefix(prefix.as_bytes(), probe));
    }
    assert_eq!(view.filter_block().equality_prefix_count, 5);
}

#[test]
fn a_text_longer_than_the_footer_is_refused() {
    let mut bytes = vec![2, 253];
    bytes.extend_from_slice(&u64::MAX.to_le_bytes());
    assert_eq!(
        decode_btree_footer_bytes(&bytes).unwrap_err(),
        BtreeIndexError::Decode { part: BtreeIndexPart::Footer }
    );
}

#[test]
fn a_prefix_that_is_added_twice_is_counted_once() {
    let mut writer = BtreeIndexWriter::new(no_meta(), "", "", "none");
    for prefix in [&b"b"[..], b"a", b"b"] {
        writer.add_equality_prefix(Bytes::copy_from_slice(prefix));
    }
    let view = open(finish(writer));
    assert_eq!(view.filter_block().equality_prefix_count, 2);
    assert_eq!(view.filter_block().equality_prefix_bloom, vec![1, b'a', 1, b'b']);
}

#[test]
fn a_filter_that_cannot_be_read_rules_nothing_out() {
    let view = open(ten_rows("none", 40));
    assert!(view.may_contain_equality_prefix(b"absent", |_: &[u8], _: &[u8]| None));
    assert!(!view.may_contain_equality_prefix(b"absent", probe));
}

#[test]
fn an_unknown_compression_is_refused() {
    let writer = BtreeIndexWriter::new(no_meta(), "", "", "zip");
    assert_eq!(
        writer.finish(codec, compress, build_filter).unwrap_err(),
        BtreeIndexError::UnknownCompression
    );
    let data = ten_rows("masked", 40);
    let refused = BtreeIndexFileView::try_open(data, |_: &str| None).unwrap();
    assert_eq!(refused.unwrap_err(), BtreeIndexError::UnknownCompression);
}

#[test]
fn a_failing_host_is_reported() {
    let with_row = |compression: &str| {
        let mut writer = BtreeIndexWriter::new(no_meta(), "", "", compression);
        let (key, value) = row("k", "v");
        writer.add_row(key, value);
        writer
    };
    assert_eq!(
        with_row("broken").finish(codec, compress, build_filter).unwrap_err(),
        BtreeIndexError::Compress
    );
    assert_eq!(
        with_row("none")
            .finish(codec, compress, |_: &Vec<Vec<u8>>, _: u64, _: u64| None)
            .unwrap_err(),
        BtreeIndexError::BuildFilter
    );
    let view = open(ten_rows("none", 40));
    let failed = view.lookup_prefix(b"", None, |_: CommonCompression, _: &[u8], _: u64| None);
    assert_eq!(failed.unwrap().unwrap_err(), BtreeIndexError::Decompress);
}

#[test]
fn damage_is_noticed() {
    let data = ten_rows("none", 40);

    let mut damaged = data.to_vec();
    damaged[0] ^= 1;
    let refused = BtreeIndexFileView::try_open(Bytes::from(damaged), codec).unwrap();
    assert!(matches!(refused.unwrap_err(), BtreeIndexError::FileChecksumMismatch { .. }));

    let mut damaged = data.to_vec();
    let last = damaged.len() - 1;
    damaged[last] ^= 1;
    let refused = BtreeIndexFileView::try_open(Bytes::from(damaged), codec).unwrap();
    assert_eq!(refused.unwrap_err(), BtreeIndexError::InvalidMagic);

    let refused = BtreeIndexFileView::try_open(Bytes::from_static(b"short"), codec).unwrap();
    assert_eq!(refused.unwrap_err(), BtreeIndexError::FileTooSmall { file_len: 5 });

    let mut damaged = data.to_vec();
    let at = damaged.len() - BTREE_INDEX_FOOTER_TAIL_SIZE;
    damaged[at..at + 4].copy_from_slice(&u32::MAX.to_le_bytes());
    let refused = BtreeIndexFileView::try_open(Bytes::from(damaged), codec).unwrap();
    assert!(matches!(
        refused.unwrap_err(),
        BtreeIndexError::InvalidFooterLength { footer_len: 0xffff_ffff, .. }
    ));
}

#[test]
fn a_damaged_block_is_noticed_when_it_is_decoded() {
    let data = ten_rows("masked", 40);
    let meta = meta_of_open_file(open(data.clone()));
    let block = &meta.index_block().data_blocks[1];
    let (start, end) = data_block_range(block).unwrap();
    let bytes = &data[start as usize..end as usize];
    let rows = meta.try_decode_data_block(block, bytes, codec, decompress).unwrap().unwrap();
    assert_eq!(keys(&rows), vec![&b"wallet-1|3"[..], b"wallet-1|4", b"wallet-1|5"]);

    let mut damaged = bytes.to_vec();
    damaged[0] ^= 1;
    let refused = meta.try_decode_data_block(block, &damaged, codec, decompress).unwrap();
    assert!(matches!(refused.unwrap_err(), BtreeIndexError::DataBlockChecksumMismatch { .. }));

    let garbage = |_: CommonCompression, _: &[u8], _: u64| Some(vec![0xff_u8]);
    let refused = meta.try_decode_data_block(block, bytes, codec, garbage).unwrap();
    assert_eq!(
        refused.unwrap_err(),
        BtreeIndexError::Decode { part: BtreeIndexPart::DataBlock }
    );
}

#[test]
fn the_end_of_a_file_says_where_its_footer_is() {
    let mut tail = 100_u32.to_le_bytes().to_vec();
    tail.extend_from_slice(&BTREE_INDEX_MAGIC);
    assert_eq!(btree_footer_range(200, &tail), Ok(88..188));
    assert_eq!(btree_footer_range(112, &tail), Ok(0..100));
    assert_eq!(
        btree_footer_range(111, &tail),
        Err(BtreeIndexError::InvalidFooterLength { footer_len: 100, file_len: 111 })
    );
    assert_eq!(
        btree_footer_range(11, &tail),
        Err(BtreeIndexError::InvalidFileLength { file_len: 11 })
    );
    assert_eq!(
        btree_footer_range(200, &tail[1..]),
        Err(BtreeIndexError::InvalidTailLength { tail_len: 11 })
    );
    tail[11] = 0;
    assert_eq!(btree_footer_range(200, &tail), Err(BtreeIndexError::InvalidMagic));
}

#[test]
fn a_footer_of_another_version_is_refused() {
    let mut footer = try_decode_footer(&ten_rows("none", 40)).unwrap().unwrap();
    assert_eq!(footer.version, 2);
    assert_eq!(
        btree_index_section(&footer, BtreeIndexSectionKind::Filter).unwrap().kind,
        BtreeIndexSectionKind::Filter
    );
    footer.sections.clear();
    assert_eq!(
        btree_index_section(&footer, BtreeIndexSectionKind::Index).unwrap_err(),
        BtreeIndexError::MissingSection { kind: BtreeIndexSectionKind::Index }
    );
    let mut bytes = ten_rows("none", 40).to_vec();
    let tail = bytes.split_off(bytes.len() - BTREE_INDEX_FOOTER_TAIL_SIZE);
    let file_len = (bytes.len() + tail.len()) as u64;
    let range = btree_footer_range(file_len, &tail).unwrap();
    bytes[range.start as usize] = 7;
    let refused = try_decode_btree_footer_bytes(&bytes[range.start as usize..]).unwrap();
    assert_eq!(refused.unwrap_err(), BtreeIndexError::UnsupportedVersion { version: 7 });
    let refused = try_decode_btree_footer_bytes(b"").unwrap();
    assert_eq!(
        refused.unwrap_err(),
        BtreeIndexError::Decode { part: BtreeIndexPart::Footer }
    );
}

#[test]
fn checksums_are_those_of_the_bytes() {
    let data = ten_rows("none", 40);
    let mut footer = try_decode_footer(&data).unwrap().unwrap();
    assert_eq!(validate_checksum(&data, &footer), Ok(()));
    footer.checksum ^= 1;
    assert!(matches!(
        validate_checksum(&data, &footer),
        Err(BtreeIndexError::FileChecksumMismatch { .. })
    ));

    let section = BtreeIndexSection {
        kind: BtreeIndexSectionKind::Index,
        offset: 0,
        length: 9,
        checksum: 0xcbf4_3926,
    };
    assert_eq!(
        validate_section_checksum(&section, b"123456789", BtreeIndexPart::IndexBlock),
        Ok(())
    );
    assert_eq!(
        validate_section_checksum(&section, b"", BtreeIndexPart::IndexBlock),
        Err(BtreeIndexError::SectionChecksumMismatch {
            part: BtreeIndexPart::IndexBlock,
            expected: 0xcbf4_3926,
            actual: 0,
        })
    );
    let unchecked = BtreeIndexSection { checksum: 0, ..section };
    assert_eq!(
        validate_section_checksum(&unchecked, b"anything", BtreeIndexPart::IndexBlock),
        Ok(())
    );
}

#[test]
fn metadata_comes_back_as_it_was() {
    let meta = BtreeIndexMeta {
        columns: vec![(
            "balance".to_string(),
            SingleColumnMeta { offset: 1, len: 300, num_values: 70000 },
        )],
        metadata: vec![
            ("a".to_string(), "first".to_string()),
            ("b".to_string(), "second".to_string()),
        ],
    };
    let bytes = encode_btree_index_meta(&meta).unwrap();
    assert_ne!(bytes, b"balance");
    let back = try_decode_btree_index_meta(&bytes).unwrap().unwrap();
    assert_eq!(back.columns, meta.columns);
    assert_eq!(back.metadata, meta.metadata);
    let refused = try_decode_btree_index_meta(&bytes[..3]).unwrap();
    assert_eq!(
        refused.unwrap_err(),
        BtreeIndexError::Decode { part: BtreeIndexPart::IndexMeta }
    );
}

#[test]
fn the_metadata_of_a_file_comes_back_as_it_was() {
    let meta = meta_of_open_file(open(ten_rows("masked", 40)));
    let bytes = encode_btree_index_file_meta(&meta).unwrap();
    let back = try_decode_btree_index_file_meta(&bytes).unwrap().unwrap();
    assert_eq!(format!("{back:?}"), format!("{meta:?}"));
    assert_eq!(back.footer().compression, "masked");
    let refused = try_decode_btree_index_file_meta(&bytes[..3]).unwrap();
    assert_eq!(
        refused.unwrap_err(),
        BtreeIndexError::Decode { part: BtreeIndexPart::FileMeta }
    );
}

#[test]
fn a_block_is_cached_by_its_place() {
    let block = BtreeIndexDataBlockMeta {
        first_key: vec![],
        last_key: vec![],
        offset: 40,
        length: 1234,
        uncompressed_length: 0,
        row_count: 0,
        checksum: 0,
    };
    assert_eq!(data_block_cache_key("a/b.sst", &block), "a/b.sst#40+1234");
    assert_eq!(data_block_range(&block), Some((40, 1274)));
    let endless = BtreeIndexDataBlockMeta { offset: u64::MAX, ..block };
    assert_eq!(data_block_range(&endless), None);
}
