use std::collections::HashMap;

use btree_index::agg_index::{build_agg_index, AggIndexError, AggIndexInfo, AggSelection};
use btree_index::column_set::ColumnSet;
use btree_index::columns::{
    build_prewhere_virtual_column_ids, build_projection, build_virtual_column, columns_are_known,
    table_symbol_for_field, BaseTableColumn, ColumnEntry, DerivedColumn, InternalColumn,
    Projection, TableInternalColumn, VirtualColumn,
};
use btree_index::digest::digest_text;
use btree_index::expr::Expr;
use btree_index::filter::{BtreeIndexColumnOrder, Filters};
use btree_index::ordered_index::{
    is_ordered_covered_all_columns, key_order_is_asc, ordered_extra_filter_key_column_count,
    ordered_filter_column_names, ordered_filters_are_covered, ordered_index_matches_scan_order,
    ordered_payload_fields, to_ordered_pushdown_order,
};
use btree_index::ordered_scan::try_build_ordered_index_info;
use btree_index::push_down::{create_scan_push_down_filters, push_down_order};
use btree_index::scalar::{
    ColumnKind, NumberDataType, NumberScalar, Scalar, TableDataType, TableField,
};
use btree_index::scalar_expr::{
    collect_ordered_prefix_column_constants, conjunction, extract_is_null_column,
    extract_ordered_prefix_column_constant, ScalarExpr,
};
use btree_index::scan::{Prewhere, Scan, SortItem};
use btree_index::scan_plan::{
    build_dummy_table_scan, dummy_scan_cache_state, sample_parts, scan_output_projection, DataField,
    DataSourceInfo, DataSourcePlan, DummySource, PartitionsShuffleKind, TableScan, TableScanError,
};
use btree_index::table_meta::{
    TableIndex, TableIndexColumn, TableIndexColumnOrder, TableIndexType, TableMeta,
};
use btree_index::table_plan::{
    can_plan_table_scan, plan_scan_source, plan_secure_filter, plan_table_scan, prune_table_scan,
    ScanSourceError, TableFacts,
};
use btree_index::table_scan::{prune_scan_columns, secure_cache_key};

fn int64(value: i64) -> Scalar {
    Scalar::Number(NumberScalar::Int64(value))
}

fn text(value: &str) -> Scalar {
    Scalar::String(value.to_string())
}

fn shown(scalar: &Scalar) -> String {
    format!("{scalar:?}")
}

fn call(func_name: &str, arguments: Vec<ScalarExpr>) -> ScalarExpr {
    ScalarExpr::FunctionCall { func_name: func_name.to_string(), params: vec![], arguments }
}

fn column(symbol: usize) -> ScalarExpr {
    ScalarExpr::BoundColumnRef(symbol)
}

fn constant(value: Scalar) -> ScalarExpr {
    ScalarExpr::ConstantExpr(value)
}

fn eq(left: ScalarExpr, right: ScalarExpr) -> ScalarExpr {
    call("eq", vec![left, right])
}

fn and(left: ScalarExpr, right: ScalarExpr) -> ScalarExpr {
    call("and", vec![left, right])
}

fn is_not_null(expr: ScalarExpr) -> ScalarExpr {
    call("is_not_null", vec![expr])
}

fn is_null(expr: ScalarExpr) -> ScalarExpr {
    call("not", vec![is_not_null(expr)])
}

#[test]
fn test_ordered_prefix_constants_collect_eq_and_is_null() {
    let platform = 0;
    let tag = 1;
    let expr = and(eq(column(platform), constant(int64(14))), is_null(column(tag)));

    let mut constants_by_column = HashMap::new();
    collect_ordered_prefix_column_constants(&expr, &mut constants_by_column);

    assert_eq!(constants_by_column.get(&platform).map(shown), Some(shown(&int64(14))));
    assert_eq!(constants_by_column.get(&tag).map(shown), Some(shown(&Scalar::Null)));
}

#[test]
fn test_ordered_prefix_constant_extracts_reversed_eq() {
    let wallet = 0;
    let expr = eq(constant(text("wallet-a")), column(wallet));

    let (symbol, value) = extract_ordered_prefix_column_constant(&expr).unwrap();
    assert_eq!(symbol, wallet);
    assert_eq!(shown(&value), shown(&text("wallet-a")));
}

#[test]
fn test_ordered_prefix_constant_ignores_is_not_null() {
    let tag = 0;
    assert!(extract_ordered_prefix_column_constant(&is_not_null(column(tag))).is_none());
}

#[test]
fn the_last_predicate_on_a_column_fixes_it() {
    let expr = call(
        "and_filters",
        vec![eq(column(3), constant(int64(1))), eq(column(3), constant(int64(2)))],
    );
    let mut constants = HashMap::new();
    collect_ordered_prefix_column_constants(&expr, &mut constants);
    assert_eq!(constants.len(), 1);
    assert_eq!(constants.get(&3).map(shown), Some(shown(&int64(2))));
    assert_eq!(extract_is_null_column(&is_null(column(4))), Some(4));
    assert_eq!(extract_is_null_column(&is_not_null(column(4))), None);
}

#[test]
fn predicates_are_joined_from_the_left() {
    let joined = conjunction(&vec![column(0), column(1), column(2)], "and_filters").unwrap();
    let expected = call("and_filters", vec![call("and_filters", vec![column(0), column(1)]), column(2)]);
    assert_eq!(format!("{joined:?}"), format!("{expected:?}"));
    assert!(conjunction(&vec![], "and_filters").is_none());
}

fn field(name: &str, kind: ColumnKind, column_id: u32) -> TableField {
    TableField {
        name: name.to_string(),
        data_type: TableDataType::of(kind),
        column_id,
        virtual_computed: false,
    }
}

fn int_kind() -> ColumnKind {
    ColumnKind::Number(NumberDataType::Int64)
}

fn schema() -> Vec<TableField> {
    vec![
        field("platform_id", int_kind(), 0),
        field("wallet_address", ColumnKind::String, 1),
        field("balance", int_kind(), 2),
        field("tag", int_kind(), 3),
    ]
}

fn base(symbol: usize, name: &str) -> ColumnEntry {
    ColumnEntry::BaseTableColumn(BaseTableColumn {
        table_index: 0,
        column_index: symbol,
        column_name: name.to_string(),
        data_type: TableDataType::of(int_kind()),
        path_indices: None,
    })
}

fn row_id_column() -> InternalColumn {
    InternalColumn {
        column_name: "_row_id".to_string(),
        data_type: TableDataType::of(ColumnKind::Number(NumberDataType::UInt64)),
        column_id: 4294967295,
    }
}

/// The columns of the table, then that of the row ids, then one read out of the tag.
fn columns() -> Vec<ColumnEntry> {
    vec![
        base(0, "platform_id"),
        base(1, "wallet_address"),
        base(2, "balance"),
        base(3, "tag"),
        ColumnEntry::InternalColumn(TableInternalColumn {
            table_index: 0,
            column_index: 4,
            internal_column: row_id_column(),
        }),
        ColumnEntry::VirtualColumn(tag_city()),
    ]
}

fn tag_city() -> VirtualColumn {
    VirtualColumn {
        table_index: 0,
        column_index: 5,
        column_id: 3000000001,
        column_name: "tag['city']".to_string(),
        source_column_id: 3,
        source_column_name: "tag".to_string(),
        key_paths: "{city}".to_string(),
        data_type: TableDataType::of(ColumnKind::String).wrap_nullable(),
    }
}

fn set(symbols: &[usize]) -> ColumnSet {
    let mut set = ColumnSet::empty();
    for symbol in symbols {
        set.insert(*symbol);
    }
    set
}

fn ordered_index(name: &str, key: &[(u32, TableIndexColumnOrder)], others: &[u32]) -> TableIndex {
    TableIndex {
        index_type: TableIndexType::Ordered,
        name: name.to_string(),
        version: "v1".to_string(),
        sync_creation: true,
        column_ids: vec![],
        key_columns: key
            .iter()
            .map(|(column_id, order)| TableIndexColumn { column_id: *column_id, order: *order })
            .collect(),
        include_column_ids: others.to_vec(),
        options: vec![],
    }
}

const ASC: TableIndexColumnOrder = TableIndexColumnOrder::Asc;
const DESC: TableIndexColumnOrder = TableIndexColumnOrder::Desc;

fn table_meta(indexes: Vec<TableIndex>) -> TableMeta {
    TableMeta { schema: schema(), indexes }
}

fn by_balance(asc: bool) -> SortItem {
    SortItem { index: 2, asc, nulls_first: false }
}

/// The rows of a platform with the largest balances.
fn ordered_scan(symbols: &[usize]) -> Scan {
    Scan {
        table_index: 0,
        scan_id: 11,
        columns: set(symbols),
        push_down_predicates: Some(vec![eq(column(0), constant(int64(14)))]),
        secure_predicates: None,
        limit: Some(10),
        order_by: Some(vec![by_balance(false)]),
        prewhere: None,
        is_lazy_table: false,
        update_stream_columns: false,
        change_type: Some(3),
        inverted_index: None,
        vector_index: Some(8),
        sample: None,
    }
}

fn column_ref(place: usize) -> Expr {
    Expr::ColumnRef(place, TableDataType::of(int_kind()))
}

fn columns_upto(count: usize) -> Vec<Expr> {
    (0..count).map(column_ref).collect()
}

/// The host keeps a predicate as a call on the columns that it reads.
fn prepare(expr: &ScalarExpr) -> Result<Filters, String> {
    if format!("{expr:?}").contains("refused") {
        return Err("refused".to_string());
    }
    let mut columns: Vec<String> = Vec::new();
    for (symbol, name) in ["platform_id", "wallet_address", "balance", "tag"].iter().enumerate() {
        if format!("{expr:?}").contains(&format!("BoundColumnRef({symbol})")) {
            columns.push(name.to_string());
        }
    }
    let args = columns_upto(columns.len());
    Ok(Filters { expr: Expr::Other { kind: 1, args }, columns })
}

fn deterministic(_: &Filters) -> bool {
    true
}

fn negate(filters: &Filters) -> Result<Expr, String> {
    Ok(Expr::FunctionCall {
        name: "not".to_string(),
        overload: 0,
        args: columns_upto(filters.columns.len()),
    })
}

fn filters_over(names: &[&str]) -> Option<Filters> {
    Some(Filters {
        expr: Expr::Other { kind: 1, args: columns_upto(names.len()) },
        columns: names.iter().map(|name| name.to_string()).collect(),
    })
}

#[test]
fn an_ordered_index_answers_a_scan_that_it_sorts() {
    let meta = table_meta(vec![ordered_index("by_balance", &[(0, ASC), (2, DESC)], &[1])]);
    let filters = filters_over(&["platform_id"]);
    let info =
        try_build_ordered_index_info(&ordered_scan(&[1, 2]), &meta, &columns(), &filters).unwrap();
    assert_eq!(info.index_name, "by_balance");
    assert_eq!(info.index_version, "v1");
    assert_eq!(info.limit, Some(10));
    assert_eq!(info.equality_prefix.len(), 1);
    assert_eq!(shown(&info.equality_prefix[0]), shown(&int64(14)));
    assert_eq!(info.key_columns[1].order, BtreeIndexColumnOrder::Desc);
    assert!(info.use_block_btree_index_size_hint);
    let names: Vec<&str> = info.payload_fields.iter().map(|field| field.name.as_str()).collect();
    assert_eq!(names, vec!["platform_id", "balance", "wallet_address"]);
}

#[test]
fn an_ordered_index_is_not_used_for_every_scan() {
    let meta = table_meta(vec![ordered_index("by_balance", &[(0, ASC), (2, DESC)], &[1])]);
    let filters = filters_over(&["platform_id"]);
    let offered = |scan: &Scan, filters: &Option<Filters>| {
        try_build_ordered_index_info(scan, &meta, &columns(), filters).is_some()
    };
    assert!(offered(&ordered_scan(&[2]), &filters));
    assert!(!offered(&ordered_scan(&[2, 3]), &filters));
    assert!(!offered(&ordered_scan(&[2]), &filters_over(&["platform_id", "tag"])));
    let mut endless = ordered_scan(&[2]);
    endless.limit = None;
    assert!(!offered(&endless, &filters));
    let mut unsorted = ordered_scan(&[2]);
    unsorted.order_by = None;
    assert!(!offered(&unsorted, &filters));
    let mut guarded = ordered_scan(&[2]);
    guarded.secure_predicates = Some(vec![column(0)]);
    assert!(!offered(&guarded, &filters));
    let mut free = ordered_scan(&[2]);
    free.push_down_predicates = Some(vec![is_not_null(column(0))]);
    assert!(!offered(&free, &filters));
    let mut ascending = ordered_scan(&[2]);
    ascending.order_by = Some(vec![by_balance(true)]);
    assert!(!offered(&ascending, &filters));
}

#[test]
fn an_index_that_only_filters_keeps_no_limit() {
    let meta = table_meta(vec![ordered_index("by_wallet", &[(0, ASC), (1, ASC)], &[2])]);
    let filters = filters_over(&["platform_id", "wallet_address"]);
    let info =
        try_build_ordered_index_info(&ordered_scan(&[2]), &meta, &columns(), &filters).unwrap();
    assert_eq!(info.limit, None);
}

#[test]
fn the_best_ordered_index_is_chosen() {
    let filters = filters_over(&["platform_id", "wallet_address"]);
    let choose = |indexes: Vec<TableIndex>| {
        let meta = table_meta(indexes);
        let info =
            try_build_ordered_index_info(&ordered_scan(&[2]), &meta, &columns(), &filters).unwrap();
        assert!(!info.use_block_btree_index_size_hint);
        info.index_name
    };
    let narrow = || ordered_index("narrow", &[(0, ASC), (2, DESC)], &[1]);
    let wide = || ordered_index("wide", &[(0, ASC), (2, DESC)], &[1, 3]);
    let filtering = || ordered_index("filtering", &[(0, ASC), (1, ASC)], &[2]);
    assert_eq!(choose(vec![narrow(), wide()]), "narrow");
    assert_eq!(choose(vec![wide(), narrow()]), "narrow");
    assert_eq!(choose(vec![filtering(), wide()]), "wide");
}

#[test]
fn orders_are_compared_behind_the_prefix() {
    let meta = table_meta(vec![]);
    let key = vec![
        TableIndexColumn { column_id: 0, order: ASC },
        TableIndexColumn { column_id: 2, order: DESC },
    ];
    let matches = |prefix_len: usize, items: &[SortItem]| {
        ordered_index_matches_scan_order(&meta, &columns(), 0, &key, prefix_len, &items.to_vec())
    };
    assert!(matches(1, &[by_balance(false)]));
    assert!(!matches(1, &[by_balance(true)]));
    assert!(!matches(0, &[by_balance(false)]));
    assert!(!matches(1, &[by_balance(false), by_balance(false)]));
    assert!(key_order_is_asc(ASC));
    assert!(!key_order_is_asc(DESC));
    assert_eq!(to_ordered_pushdown_order(DESC), BtreeIndexColumnOrder::Desc);
}

#[test]
fn the_fields_of_an_ordered_index_are_each_held_once() {
    let meta = table_meta(vec![]);
    let key = vec![TableIndexColumn { column_id: 2, order: ASC }];
    let names = |others: &[u32], all: bool| {
        ordered_payload_fields(&meta, &key, &others.to_vec(), all)
            .map(|fields| fields.into_iter().map(|field| field.name).collect::<Vec<_>>())
    };
    assert_eq!(names(&[2, 0, 0], false).unwrap(), vec!["balance", "platform_id"]);
    assert_eq!(names(&[], true).unwrap().len(), 4);
    assert_eq!(names(&[9], false), None);
    let option = vec![(
        "index_covered_type".to_string(),
        "covered_all_columns_in_schema".to_string(),
    )];
    assert!(is_ordered_covered_all_columns(&option));
    assert!(!is_ordered_covered_all_columns(&vec![]));
}

#[test]
fn the_columns_of_a_filter_are_named() {
    let mut names = ordered_filter_column_names(&filters_over(&["tag", "balance"]));
    names.sort();
    assert_eq!(names, vec!["balance", "tag"]);
    assert!(ordered_filter_column_names(&None).is_empty());
    assert!(ordered_filters_are_covered(&filters_over(&["tag"]), &schema()));
    assert!(!ordered_filters_are_covered(&filters_over(&["absent"]), &schema()));
    assert!(ordered_filters_are_covered(&None, &vec![]));
    let meta = table_meta(vec![]);
    let key = vec![
        TableIndexColumn { column_id: 0, order: ASC },
        TableIndexColumn { column_id: 2, order: ASC },
        TableIndexColumn { column_id: 3, order: ASC },
    ];
    assert_eq!(ordered_extra_filter_key_column_count(&meta, &key, 1, &names), 2);
    assert_eq!(ordered_extra_filter_key_column_count(&meta, &key, 2, &names), 1);
    assert_eq!(ordered_extra_filter_key_column_count(&meta, &key, 3, &names), 0);
}

fn places(projection: Projection) -> Vec<usize> {
    match projection {
        Projection::Columns(places) => places,
        Projection::InnerColumns(_) => panic!("there are no inner columns"),
    }
}

#[test]
fn columns_are_projected_to_their_places() {
    let columns = columns();
    let project = |symbols: &[usize], virtual_source: bool| {
        places(build_projection(&columns, &schema(), &symbols.to_vec(), false, true, virtual_source))
    };
    assert_eq!(project(&[2, 0, 4], true), vec![0, 2]);
    assert_eq!(project(&[0, 5], true), vec![0, 3]);
    assert_eq!(project(&[0, 3, 5], true), vec![0, 3]);
    assert_eq!(project(&[0, 5], false), vec![0]);
    assert_eq!(table_symbol_for_field(&columns, 0, "balance"), Some(2));
    assert_eq!(table_symbol_for_field(&columns, 1, "balance"), None);
    assert_eq!(build_prewhere_virtual_column_ids(&columns, &vec![0, 5]), Some(vec![3000000001]));
    assert_eq!(build_prewhere_virtual_column_ids(&columns, &vec![0]), None);
}

#[test]
fn inner_columns_are_projected_by_their_paths() {
    let columns = vec![
        base(0, "platform_id"),
        ColumnEntry::BaseTableColumn(BaseTableColumn {
            table_index: 0,
            column_index: 1,
            column_name: "tag:1".to_string(),
            data_type: TableDataType::of(int_kind()),
            path_indices: Some(vec![3, 0]),
        }),
        ColumnEntry::DerivedColumn(DerivedColumn { column_index: 2, alias: "tag".to_string() }),
    ];
    match build_projection(&columns, &schema(), &vec![0, 1, 2], true, true, true) {
        Projection::InnerColumns(paths) => {
            assert_eq!(paths, vec![(0, vec![0]), (1, vec![3, 0]), (2, vec![3])]);
        }
        Projection::Columns(_) => panic!("there are inner columns"),
    }
    assert!(columns_are_known(&columns, &schema(), &vec![0, 1, 2], true, true));
    assert!(!columns_are_known(&columns, &schema(), &vec![1], false, true));
    assert!(!columns_are_known(&columns, &schema(), &vec![7], true, true));
}

#[test]
fn the_source_of_a_virtual_column_is_wanted_only_where_it_is_read() {
    let mut unknown = tag_city();
    unknown.source_column_name = "absent".to_string();
    let columns = vec![ColumnEntry::VirtualColumn(unknown)];
    assert!(!columns_are_known(&columns, &schema(), &vec![0], true, true));
    assert!(columns_are_known(&columns, &schema(), &vec![0], true, false));
}

#[test]
fn a_virtual_column_is_cast_to_its_type() {
    let spell = |_: TableDataType| "string".to_string();
    let info = build_virtual_column(&vec![(5, tag_city())], &spell).unwrap();
    assert_eq!(info.source_column_ids, vec![3]);
    assert_eq!(info.virtual_column_fields[0].cast_func_name.as_deref(), Some("to_string"));
    assert_eq!(info.virtual_column_fields[0].source_name, "tag");
    let mut plain = tag_city();
    plain.data_type = TableDataType::of(ColumnKind::Variant);
    let info = build_virtual_column(&vec![(5, tag_city()), (6, plain)], &spell).unwrap();
    assert_eq!(info.source_column_ids, vec![3]);
    assert_eq!(info.virtual_column_fields[1].cast_func_name, None);
    assert!(build_virtual_column(&vec![], &spell).is_none());
}

#[test]
fn filters_are_made_of_all_predicates() {
    let (made, is_deterministic) = create_scan_push_down_filters(
        &vec![column(0), column(2)],
        &prepare,
        &|_: &Filters| false,
        &negate,
    )
    .unwrap();
    let made = made.unwrap();
    assert!(!is_deterministic);
    assert_eq!(made.filter.columns, vec!["platform_id", "balance"]);
    assert!(matches!(made.inverted_filter, Expr::FunctionCall { .. }));
    let (none, is_deterministic) =
        create_scan_push_down_filters(&vec![], &prepare, &deterministic, &negate).unwrap();
    assert!(none.is_none() && is_deterministic);
    let refused = create_scan_push_down_filters(
        &vec![call("refused", vec![])],
        &prepare,
        &deterministic,
        &negate,
    );
    assert_eq!(refused.unwrap_err(), "refused");
}

#[test]
fn only_stored_columns_are_sorted_by_the_storage() {
    let item = |index: usize| SortItem { index, asc: true, nulls_first: true };
    let orders = push_down_order(&columns(), &vec![item(2), item(5), item(4)]);
    let names: Vec<&str> = orders.iter().map(|order| order.column_name.as_str()).collect();
    assert_eq!(names, vec!["balance", "_row_id"]);
    assert!(orders[0].asc && orders[0].nulls_first);
}

fn facts(indexes: Vec<TableIndex>, lazy: bool) -> TableFacts {
    TableFacts {
        meta: table_meta(indexes),
        schema: schema(),
        virtual_columns: set(&[5]),
        supported_lazy_materialize: lazy,
        row_id: Some((4, row_id_column())),
    }
}

#[test]
fn columns_that_nobody_uses_are_dropped() {
    let mut scan = ordered_scan(&[0, 1, 2, 3]);
    scan.prewhere = Some(Prewhere {
        output_columns: set(&[]),
        prewhere_columns: set(&[3]),
        predicates: vec![column(3)],
    });
    let pruned = prune_scan_columns(scan, &set(&[1, 5, 9]), &set(&[5]), &set(&[0]), true, false);
    assert_eq!(pruned.scan.columns.items, vec![0, 1, 3, 5]);
    assert_eq!(pruned.scan.prewhere.unwrap().output_columns.items, vec![0, 1, 5]);
    assert!(pruned.lazy_columns.is_none());
    assert!(pruned.retained_columns.is_empty());
}

#[test]
fn a_scan_without_columns_is_left_alone() {
    let pruned =
        prune_scan_columns(ordered_scan(&[]), &set(&[1]), &set(&[5]), &set(&[0]), true, false);
    assert!(pruned.scan.columns.is_empty());
}

#[test]
fn columns_are_read_later_unless_an_ordered_index_has_them() {
    let lazy_scan = || {
        let mut scan = ordered_scan(&[0, 1, 2]);
        scan.is_lazy_table = true;
        scan
    };
    let prune = |indexes: Vec<TableIndex>| {
        prune_table_scan(
            lazy_scan(),
            &set(&[2]),
            &set(&[]),
            &facts(indexes, true),
            &columns(),
            &prepare,
            &deterministic,
            &negate,
        )
        .unwrap()
    };
    let pruned = prune(vec![]);
    assert_eq!(pruned.scan.columns.items, vec![2]);
    assert_eq!(pruned.lazy_columns.unwrap().items, vec![0, 1]);
    assert_eq!(pruned.retained_columns.items, vec![2]);

    let pruned = prune(vec![ordered_index("by_balance", &[(0, ASC), (2, DESC)], &[1])]);
    assert_eq!(pruned.scan.columns.items, vec![0, 1, 2]);
    assert!(pruned.lazy_columns.unwrap().is_empty());
    assert_eq!(pruned.retained_columns.items, vec![0, 1, 2]);

    let mut refused = lazy_scan();
    refused.push_down_predicates = Some(vec![call("refused", vec![])]);
    let refused = prune_table_scan(
        refused,
        &set(&[2]),
        &set(&[]),
        &facts(vec![], true),
        &columns(),
        &prepare,
        &deterministic,
        &negate,
    );
    assert_eq!(refused.unwrap_err(), "refused");
}

fn spell(_: TableDataType) -> String {
    "string".to_string()
}

fn serialize(expr: &ScalarExpr) -> Result<String, String> {
    Ok(format!("{expr:?}"))
}

fn pair(name: &str, symbol: &str) -> (String, String) {
    (name.to_string(), symbol.to_string())
}

#[test]
fn a_scan_is_planned_up_to_its_source() {
    let meta = facts(vec![ordered_index("by_balance", &[(0, ASC), (2, DESC)], &[1])], false);
    let planned = plan_table_scan(
        &ordered_scan(&[1, 2]),
        &meta,
        &columns(),
        &set(&[]),
        false,
        &prepare,
        &deterministic,
        &negate,
        &spell,
        &serialize,
    )
    .unwrap();
    assert_eq!(planned.columns.name_mapping, vec![pair("balance", "2"), pair("wallet_address", "1")]);
    assert!(!planned.columns.has_inner_column);
    assert_eq!(planned.schema.len(), 4);
    assert_eq!(planned.cache_key_extra, None);
    let info = planned.push_downs;
    assert_eq!(info.limit, Some(10));
    assert_eq!(info.ordered_index.unwrap().index_name, "by_balance");
    assert_eq!(info.order_by.len(), 1);
    assert_eq!(places(info.projection), vec![1, 2]);
    assert!(info.is_deterministic);
    assert!(!info.lazy_materialization);
    assert_eq!(info.change_type, Some(3));
    assert_eq!(info.inverted_index, None);
    assert_eq!(info.vector_index, Some(8));
    assert_eq!(info.sample, None);
}

#[test]
fn a_scan_whose_columns_are_read_later_gives_row_ids() {
    let planned = plan_table_scan(
        &ordered_scan(&[1, 2, 5]),
        &facts(vec![], true),
        &columns(),
        &set(&[1]),
        true,
        &prepare,
        &deterministic,
        &negate,
        &spell,
        &serialize,
    )
    .unwrap();
    assert_eq!(
        planned.columns.name_mapping,
        vec![pair("_row_id", "4"), pair("balance", "2"), pair("tag['city']", "5")]
    );
    assert_eq!(planned.schema.len(), 5);
    assert_eq!(planned.schema[4].name, "_row_id");
    assert!(planned.push_downs.lazy_materialization);
    assert!(planned.push_downs.virtual_column.is_some());
    assert!(planned.push_downs.output_columns.is_some());
}

#[test]
fn an_early_filter_reads_its_columns_first() {
    let mut scan = ordered_scan(&[1, 2, 3]);
    scan.prewhere = Some(Prewhere {
        output_columns: set(&[1, 2]),
        prewhere_columns: set(&[3]),
        predicates: vec![is_not_null(column(3))],
    });
    let planned = plan_table_scan(
        &scan,
        &facts(vec![], false),
        &columns(),
        &set(&[]),
        false,
        &prepare,
        &deterministic,
        &negate,
        &spell,
        &serialize,
    )
    .unwrap();
    let prewhere = planned.push_downs.prewhere.unwrap();
    assert_eq!(places(prewhere.output_columns), vec![1, 2]);
    assert_eq!(places(prewhere.prewhere_columns), vec![3]);
    assert_eq!(places(prewhere.remain_columns), vec![1, 2]);
    assert_eq!(prewhere.filter.columns, vec!["tag"]);
    assert_eq!(planned.columns.name_mapping.len(), 2);
}

#[test]
fn the_first_refusal_ends_the_planning() {
    let by_name = |expr: &ScalarExpr| -> Result<Filters, String> {
        match expr {
            ScalarExpr::FunctionCall { func_name, .. } if func_name.starts_with("no_") => {
                Err(func_name.clone())
            }
            _ => prepare(expr),
        }
    };
    let meta = facts(vec![ordered_index("by_balance", &[(0, ASC), (2, DESC)], &[1])], false);
    let refused = |scan: &Scan| {
        plan_table_scan(
            scan,
            &meta,
            &columns(),
            &set(&[]),
            false,
            &by_name,
            &deterministic,
            &negate,
            &spell,
            &|_: &ScalarExpr| -> Result<String, String> { Err("no_text".to_string()) },
        )
        .unwrap_err()
    };
    let mut scan = ordered_scan(&[1, 2]);
    scan.prewhere = Some(Prewhere {
        output_columns: set(&[1]),
        prewhere_columns: set(&[2]),
        predicates: vec![call("no_early", vec![])],
    });
    assert_eq!(refused(&scan), "no_early");
    scan.push_down_predicates = Some(vec![call("no_user", vec![])]);
    assert_eq!(refused(&scan), "no_user");
    scan.secure_predicates = Some(vec![call("no_secure", vec![])]);
    assert_eq!(refused(&scan), "no_secure");
    scan = ordered_scan(&[1, 2]);
    scan.secure_predicates = Some(vec![column(1)]);
    assert_eq!(refused(&scan), "no_text");
}

#[test]
fn a_column_may_be_read_from_an_internal_one() {
    let mut entries = columns();
    entries.push(base(6, "_row_id"));
    let scan = ordered_scan(&[4, 6]);
    assert!(can_plan_table_scan(&scan, &facts(vec![], false), &entries, &set(&[]), false));
    let scan = ordered_scan(&[6]);
    assert!(!can_plan_table_scan(&scan, &facts(vec![], false), &entries, &set(&[]), false));
}

#[test]
fn row_access_policies_are_part_of_the_cache_key() {
    let mut scan = ordered_scan(&[1, 2]);
    scan.secure_predicates = Some(vec![column(2), column(1)]);
    let plan = |scan: &Scan| {
        plan_table_scan(
            scan,
            &facts(vec![], false),
            &columns(),
            &set(&[]),
            false,
            &prepare,
            &deterministic,
            &negate,
            &spell,
            &serialize,
        )
    };
    let key = plan(&scan).unwrap().cache_key_extra.unwrap();
    let expected = digest_text("0|BoundColumnRef(1)|BoundColumnRef(2)");
    assert_eq!(key, format!("secure:{expected}"));
    scan.secure_predicates = Some(vec![column(1), column(2)]);
    assert_eq!(plan(&scan).unwrap().cache_key_extra.unwrap(), key);
    assert_eq!(
        secure_cache_key(3, vec!["b".to_string(), "a".to_string()]),
        format!("secure:{}", digest_text("3|a|b"))
    );
    assert_ne!(secure_cache_key(3, vec!["a".to_string()]), secure_cache_key(4, vec!["a".to_string()]));
    scan.secure_predicates = Some(vec![call("refused", vec![])]);
    assert_eq!(plan(&scan).unwrap_err(), "refused");
}

fn source(output: Vec<TableField>) -> DataSourcePlan {
    DataSourcePlan {
        source_info: DataSourceInfo::TableSource,
        catalog_name: "default".to_string(),
        desc: "'default'.'db'.'t'".to_string(),
        table_schema: schema(),
        output_schema: output,
        parts_kind: PartitionsShuffleKind::BroadcastWarehouse,
        partitions_total: 3,
        push_downs: None,
        reserve_block_index: false,
        table_index: 0,
        scan_id: 0,
    }
}

fn data_field(name: &str) -> DataField {
    DataField { name: name.to_string(), data_type: TableDataType::of(int_kind()) }
}

fn agg_info(used: &[usize], selected: usize) -> AggIndexInfo {
    AggIndexInfo {
        index_id: 77,
        schema: vec![data_field("0"), data_field("9")],
        used_columns: used.to_vec(),
        predicates: vec![],
        selection: vec![AggSelection { index: selected, scalar: column(9) }],
        is_agg: true,
        num_agg_funcs: 1,
    }
}

fn check(expr: &ScalarExpr) -> Result<Filters, String> {
    match expr {
        ScalarExpr::BoundColumnRef(symbol) => {
            Ok(Filters { expr: column_ref(0), columns: vec![symbol.to_string()] })
        }
        _ => Err("not a column".to_string()),
    }
}

fn cast(expr: Expr) -> Result<Expr, String> {
    Ok(expr)
}

#[test]
fn an_aggregating_index_is_read_in_place_of_the_table() {
    let fields = vec![data_field("2")];
    let plan = build_agg_index(&agg_info(&[9], 2), &fields, &check, &cast).unwrap();
    assert_eq!(plan.index_id, 77);
    assert_eq!(plan.projection, vec![1]);
    assert_eq!(plan.schema.len(), agg_info(&[9], 2).schema.len());
    assert_eq!(plan.selection.len(), 1);
    assert_eq!(plan.selection[0].1, Some(0));
    assert!(matches!(plan.selection[0].0, Expr::ColumnRef(0, _)));
    let missing = build_agg_index(&agg_info(&[5], 2), &fields, &check, &cast);
    assert!(matches!(missing.unwrap_err(), AggIndexError::UnknownColumn));
    let mut refused = agg_info(&[9], 2);
    refused.selection[0].scalar = constant(int64(1));
    let refused = build_agg_index(&refused, &fields, &check, &cast);
    assert!(matches!(refused.unwrap_err(), AggIndexError::Host(_)));
}

fn planned_columns() -> btree_index::table_scan::ScanColumns {
    btree_index::table_scan::ScanColumns {
        has_inner_column: false,
        name_mapping: vec![pair("balance", "2"), pair("platform_id", "0")],
        internal_columns: vec![],
        virtual_columns: vec![],
    }
}

#[test]
fn the_source_of_a_scan_knows_its_scan() {
    let scan = ordered_scan(&[0, 2]);
    let plan =
        plan_scan_source(&scan, planned_columns(), source(schema()), true, None, &check, &cast)
            .unwrap();
    assert_eq!(plan.name, "TableScan");
    assert_eq!(plan.scan_id, 11);
    assert_eq!(plan.table_index, Some(0));
    assert_eq!(plan.source.scan_id, 11);
    assert!(plan.source.reserve_block_index);
    assert!(plan.internal_column.is_none());
    assert!(plan.is_warehouse_distributed_plan());
    assert!(plan.builds_prune_pipeline(true));
    assert!(!plan.builds_prune_pipeline(false));
    assert_eq!(plan.get_desc(), "default.'default'.'db'.'t'");
    let labels = plan.get_labels().unwrap();
    let headings: Vec<&str> = labels.iter().map(|(heading, _)| heading.as_str()).collect();
    assert_eq!(headings, vec!["Full table name", "Columns (2 / 4)", "Total partitions"]);
    assert_eq!(labels[1].1, vec!["balance", "platform_id"]);
    assert_eq!(labels[2].1, vec!["3"]);
}

#[test]
fn a_scan_gives_its_fields_in_the_order_of_the_schema() {
    let fields = TableScan::output_fields(&schema(), &planned_columns().name_mapping).unwrap();
    let names: Vec<&str> = fields.iter().map(|field| field.name.as_str()).collect();
    assert_eq!(names, vec!["0", "2"]);
    assert_eq!(
        TableScan::output_fields(&vec![], &planned_columns().name_mapping).unwrap_err(),
        TableScanError::UnknownColumn { entry: 0 }
    );
    assert_eq!(
        scan_output_projection(&schema(), &planned_columns().name_mapping),
        Ok(Some(vec![0, 2]))
    );
    let whole = vec![field("a", int_kind(), 0)];
    assert_eq!(scan_output_projection(&whole, &vec![pair("a", "0")]), Ok(None));
}

#[test]
fn an_aggregating_index_needs_the_fields_of_the_scan() {
    let mut without = source(vec![]);
    without.push_downs = Some(
        plan_table_scan(
            &ordered_scan(&[0, 2]),
            &facts(vec![], false),
            &columns(),
            &set(&[]),
            false,
            &prepare,
            &deterministic,
            &negate,
            &spell,
            &serialize,
        )
        .unwrap()
        .push_downs,
    );
    let info = agg_info(&[9], 2);
    let failed = plan_scan_source(
        &ordered_scan(&[0, 2]),
        planned_columns(),
        without,
        false,
        Some(&info),
        &check,
        &cast,
    );
    assert!(matches!(
        failed.unwrap_err(),
        ScanSourceError::Output(TableScanError::UnknownColumn { entry: 0 })
    ));
}

#[test]
fn row_access_policies_are_applied_on_top_of_the_scan() {
    let fields = vec![data_field("0"), data_field("2")];
    let bind = |expr: &ScalarExpr, fields: &Vec<DataField>| -> Result<Expr, String> {
        match expr {
            ScalarExpr::BoundColumnRef(symbol) => {
                let name = symbol.to_string();
                match fields.iter().position(|field| field.name == name) {
                    Some(place) => Ok(column_ref(place)),
                    None => Err(name),
                }
            }
            _ => Ok(Expr::Constant(Scalar::Boolean(true), TableDataType::of(ColumnKind::Boolean))),
        }
    };
    let mut scan = ordered_scan(&[0, 2]);
    let plan = |scan: &Scan, not_applied: bool| {
        plan_secure_filter(scan, &set(&[2, 8]), &set(&[0]), &fields, not_applied, &bind)
    };
    assert!(plan(&scan, true).unwrap().is_none());
    scan.secure_predicates = Some(vec![column(0), constant(Scalar::Null)]);
    let filter = plan(&scan, true).unwrap().unwrap();
    assert_eq!(filter.projections, vec![0, 1]);
    assert_eq!(filter.predicates.len(), 2);
    assert!(plan(&scan, false).unwrap().is_none());
    scan.secure_predicates = Some(vec![constant(Scalar::Null)]);
    assert!(plan(&scan, true).unwrap().is_none());
    scan.secure_predicates = Some(vec![column(1)]);
    assert_eq!(plan(&scan, true).unwrap_err(), "1");
    scan.secure_predicates = Some(vec![column(0), column(3), column(1)]);
    assert_eq!(plan(&scan, true).unwrap_err(), "3");
}

#[test]
fn a_sample_keeps_what_was_drawn() {
    assert_eq!(sample_parts(vec!["a", "b", "c"], &vec![true, false, true]), vec!["a", "c"]);
}

#[test]
fn a_folded_result_depends_on_all_its_tables() {
    let fuse = |id: &str| DummySource { result_can_be_cached: true, cache_id: Some(id.to_string()) };
    let state = dummy_scan_cache_state(true, &vec![fuse("s1"), fuse("s2")]);
    assert!(state.cacheable);
    assert_eq!(state.partition_shas, vec!["s1", "s2"]);
    let other = DummySource { result_can_be_cached: true, cache_id: None };
    let state = dummy_scan_cache_state(true, &vec![fuse("s1"), other, fuse("s2")]);
    assert!(!state.cacheable);
    assert_eq!(state.partition_shas, vec!["s1"]);
    let state = dummy_scan_cache_state(false, &vec![fuse("s1")]);
    assert!(state.cacheable && state.partition_shas.is_empty());
    let plan = build_dummy_table_scan(source(vec![]), 99, 7);
    assert_eq!(plan.name_mapping, vec![pair("dummy", "7")]);
    assert_eq!(plan.table_index, Some(99));
}
