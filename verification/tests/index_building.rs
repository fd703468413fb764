use btree_index::index_def::{
    build_btree_index, create_btree_index_builders, field_indexes, is_covered_all_columns,
    key_field_indexes, to_btree_key_order, BtreeBuildError, BtreeIndexBuilder, BtreeIndexState,
};
use btree_index::key::{btree_equality_prefix, encode_btree_key_component};
use btree_index::scalar::{
    ColumnKind, NumberDataType, NumberScalar, Scalar, TableDataType, TableField,
};
use btree_index::select::PayloadBlock;
use btree_index::table_meta::{
    TableIndex, TableIndexColumn, TableIndexColumnOrder, TableIndexType, TableMeta,
};
use btree_index::types::{BtreeIndexKeyOrder, BtreeIndexRow, CommonCompression};
use btree_index::view::BtreeIndexFileView;
use bytes::Bytes;

fn codec(name: &str) -> Option<CommonCompression> {
    if name == "none" || name == "zstd" {
        Some(CommonCompression { codec: 0 })
    } else {
        None
    }
}

fn compress(_: CommonCompression, bytes: &[u8]) -> Option<Vec<u8>> {
    Some(bytes.to_vec())
}

fn decompress(_: CommonCompression, bytes: &[u8], _: u64) -> Option<Vec<u8>> {
    Some(bytes.to_vec())
}

fn build_filter(prefixes: &Vec<Vec<u8>>, _: u64, _: u64) -> Option<Vec<u8>> {
    Some(serde_json::to_vec(prefixes).unwrap())
}

fn probe(filter: &[u8], prefix: &[u8]) -> Option<bool> {
    let prefixes: Vec<Vec<u8>> = serde_json::from_slice(filter).ok()?;
    Some(prefixes.iter().any(|held| held == prefix))
}

fn encode_payload(values: &Vec<Scalar>) -> Option<Vec<u8>> {
    let mut cells: Vec<(String, u64)> = Vec::new();
    for value in values {
        cells.push(match value {
            Scalar::String(text) => (text.clone(), 0),
            Scalar::Number(NumberScalar::UInt64(n)) => (String::new(), *n),
            _ => return None,
        });
    }
    serde_json::to_vec(&cells).ok()
}

fn decode_payload(payload: &[u8]) -> Vec<(String, u64)> {
    serde_json::from_slice(payload).unwrap()
}

fn field(name: &str, kind: ColumnKind, column_id: u32) -> TableField {
    TableField {
        name: name.to_string(),
        data_type: TableDataType::of(kind),
        column_id,
        virtual_computed: false,
    }
}

fn wallet() -> TableField {
    field("wallet_address", ColumnKind::String, 0)
}

fn platform() -> TableField {
    field("platform_id", ColumnKind::Number(NumberDataType::UInt64), 1)
}

fn balance() -> TableField {
    field("balance", ColumnKind::Number(NumberDataType::UInt64), 2)
}

fn text(value: &str) -> Scalar {
    Scalar::String(value.to_string())
}

fn uint64(value: u64) -> Scalar {
    Scalar::Number(NumberScalar::UInt64(value))
}

fn schema() -> Vec<TableField> {
    vec![wallet(), platform(), balance()]
}

fn schema_text() -> String {
    let names: Vec<String> = schema().into_iter().map(|field| field.name).collect();
    serde_json::to_string(&names).unwrap()
}

fn block() -> PayloadBlock {
    PayloadBlock {
        num_rows: 3,
        columns: vec![
            vec![text("wallet-b"), text("wallet-a"), text("wallet-a")],
            vec![uint64(14), uint64(14), uint64(14)],
            vec![uint64(20), uint64(30), uint64(40)],
        ],
    }
}

fn builder() -> BtreeIndexBuilder {
    BtreeIndexBuilder {
        name: "idx_wallet".to_string(),
        version: "123456789".to_string(),
        key_fields: vec![
            (wallet(), TableIndexColumnOrder::Asc),
            (platform(), TableIndexColumnOrder::Asc),
            (balance(), TableIndexColumnOrder::Desc),
        ],
        payload_fields: vec![wallet(), platform(), balance()],
        options: vec![("compression".to_string(), "none".to_string())],
    }
}

fn build(block: &PayloadBlock, builder: &BtreeIndexBuilder) -> Result<Bytes, BtreeBuildError> {
    build_btree_index(
        &schema(),
        block,
        builder,
        &schema_text(),
        encode_payload,
        codec,
        compress,
        build_filter,
    )
}

fn open(data: Bytes) -> BtreeIndexFileView {
    BtreeIndexFileView::try_open(data, codec).unwrap().unwrap()
}

fn lookup(view: &BtreeIndexFileView, prefix: &[u8]) -> Vec<BtreeIndexRow> {
    view.lookup_prefix(prefix, Some(100), decompress).unwrap().unwrap()
}

#[test]
fn test_build_btree_index_sst_from_block() {
    let data = build(&block(), &builder()).unwrap();
    let view = open(data);

    let mut prefix = Vec::new();
    encode_btree_key_component(&mut prefix, &text("wallet-a"), BtreeIndexKeyOrder::Asc).unwrap();
    encode_btree_key_component(&mut prefix, &uint64(14), BtreeIndexKeyOrder::Asc).unwrap();

    assert!(view.may_contain_equality_prefix(&prefix, probe));
    let rows = lookup(&view, &prefix);
    assert_eq!(rows.len(), 2);
    assert_eq!(view.footer().key_order, "wallet_address ASC,platform_id ASC,balance DESC");
    assert!(view.footer().schema.contains("\"balance\""));
    assert!(view.footer().schema.contains("\"platform_id\""));

    let first_payload = decode_payload(&rows[0].encoded_row_payload);
    let second_payload = decode_payload(&rows[1].encoded_row_payload);
    assert_eq!(
        first_payload,
        vec![("wallet-a".to_string(), 0), (String::new(), 14), (String::new(), 40)]
    );
    assert_eq!(
        second_payload,
        vec![("wallet-a".to_string(), 0), (String::new(), 14), (String::new(), 30)]
    );
}

#[test]
fn every_prefix_of_a_key_is_in_the_filter() {
    let view = open(build(&block(), &builder()).unwrap());
    for row in lookup(&view, b"") {
        for count in 1..4 {
            let prefix = btree_equality_prefix(&row.encoded_key, count).unwrap();
            assert!(view.may_contain_equality_prefix(&prefix, probe));
        }
    }
    assert_eq!(view.filter_block().equality_prefix_count, 2 + 2 + 3);
}

#[test]
fn a_file_says_which_index_it_is_of() {
    let view = open(build(&block(), &builder()).unwrap());
    let meta = &view.footer().meta;
    let pair = |name: &str, value: &str| (name.to_string(), value.to_string());
    assert_eq!(
        meta.metadata,
        vec![
            pair("encoding", "databend-btree-sst-v1"),
            pair("index_name", "idx_wallet"),
            pair("index_version", "123456789"),
        ]
    );
    assert_eq!(meta.columns.len(), 3);
    assert_eq!(meta.columns[2].0, "balance");
    assert_eq!(meta.columns[2].1.num_values, 3);
}

#[test]
fn building_reports_what_fails() {
    let mut unknown = builder();
    unknown.options = vec![("compression".to_string(), "zip".to_string())];
    assert_eq!(build(&block(), &unknown).unwrap_err(), BtreeBuildError::UnknownCompression);

    let mut no_key = builder();
    no_key.key_fields[1].0.name = "absent".to_string();
    assert_eq!(
        build(&block(), &no_key).unwrap_err(),
        BtreeBuildError::UnknownKeyField { field: 1 }
    );

    let mut no_payload = builder();
    no_payload.payload_fields[2].name = "absent".to_string();
    assert_eq!(
        build(&block(), &no_payload).unwrap_err(),
        BtreeBuildError::UnknownPayloadField { field: 2 }
    );

    let mut nulls = block();
    nulls.columns[1][2] = Scalar::Null;
    assert_eq!(
        build(&nulls, &builder()).unwrap_err(),
        BtreeBuildError::EncodePayload { row: 2 }
    );

    nulls.columns[1][1] = Scalar::Null;
    assert_eq!(
        build(&nulls, &builder()).unwrap_err(),
        BtreeBuildError::EncodePayload { row: 1 }
    );
    unknown.key_fields[1].0.name = "absent".to_string();
    assert_eq!(build(&block(), &unknown).unwrap_err(), BtreeBuildError::UnknownCompression);
    no_key.payload_fields[2].name = "absent".to_string();
    assert_eq!(
        build(&block(), &no_key).unwrap_err(),
        BtreeBuildError::UnknownKeyField { field: 1 }
    );

    let failed = build_btree_index(
        &schema(),
        &block(),
        &builder(),
        "",
        encode_payload,
        codec,
        |_: CommonCompression, _: &[u8]| None,
        build_filter,
    );
    assert!(matches!(failed.unwrap_err(), BtreeBuildError::Write { .. }));
}

#[test]
fn the_compression_of_an_index_has_a_default() {
    let mut plain = builder();
    plain.options = vec![];
    let view = open(build(&block(), &plain).unwrap());
    assert_eq!(view.footer().compression, "zstd");
}

fn index(name: &str, key: &[(u32, TableIndexColumnOrder)], others: &[u32]) -> TableIndex {
    TableIndex {
        index_type: TableIndexType::Btree,
        name: name.to_string(),
        version: "v".to_string(),
        sync_creation: true,
        column_ids: key.iter().map(|(column_id, _)| *column_id).collect(),
        key_columns: key
            .iter()
            .map(|(column_id, order)| TableIndexColumn { column_id: *column_id, order: *order })
            .collect(),
        include_column_ids: others.to_vec(),
        options: vec![],
    }
}

fn names(fields: &[TableField]) -> Vec<&str> {
    fields.iter().map(|field| field.name.as_str()).collect()
}

#[test]
fn an_index_is_built_over_its_keys_and_what_it_carries() {
    let asc = TableIndexColumnOrder::Asc;
    let desc = TableIndexColumnOrder::Desc;
    let mut covering = index("covering", &[(2, desc)], &[]);
    covering.options = vec![(
        "index_covered_type".to_string(),
        "covered_all_columns_in_schema".to_string(),
    )];
    let mut later = index("later", &[(0, asc)], &[]);
    later.sync_creation = false;
    let mut inverted = index("inverted", &[(0, asc)], &[]);
    inverted.index_type = TableIndexType::Inverted;
    let meta = TableMeta {
        schema: schema(),
        indexes: vec![
            index("carrying", &[(0, asc)], &[2, 0]),
            covering,
            inverted,
            later,
            index("lost", &[(9, asc)], &[]),
        ],
    };
    let builders = create_btree_index_builders(&meta);
    let built: Vec<&str> = builders.iter().map(|builder| builder.name.as_str()).collect();
    assert_eq!(built, vec!["carrying", "covering"]);
    assert_eq!(names(&builders[0].payload_fields), vec!["wallet_address", "balance"]);
    assert_eq!(names(&builders[1].payload_fields), vec!["wallet_address", "platform_id", "balance"]);
    assert_eq!(builders[1].key_fields[0].1, desc);
}

#[test]
fn fields_are_found_in_a_schema() {
    assert_eq!(field_indexes(&schema(), &vec![balance(), wallet()]), Ok(vec![2, 0]));
    assert_eq!(field_indexes(&vec![wallet()], &vec![wallet(), balance()]), Err(1));
    assert_eq!(
        key_field_indexes(&schema(), &vec![(platform(), TableIndexColumnOrder::Desc)]),
        Ok(vec![(1, BtreeIndexKeyOrder::Desc)])
    );
    assert_eq!(to_btree_key_order(TableIndexColumnOrder::Asc), BtreeIndexKeyOrder::Asc);
}

#[test]
fn covering_is_an_option() {
    let option = |value: &str| vec![("index_covered_type".to_string(), value.to_string())];
    assert!(is_covered_all_columns(&option("covered_all_columns_in_schema")));
    assert!(!is_covered_all_columns(&option("some")));
    assert!(!is_covered_all_columns(&vec![]));
}

#[test]
fn a_built_index_knows_its_size() {
    let state = BtreeIndexState::try_create(vec![1, 2, 3], "here".to_string());
    assert_eq!(state.size, 3);
    assert_eq!(state.location, ("here".to_string(), 0));
    assert_eq!(state.data, vec![1, 2, 3]);
}
