use std::cmp::Ordering;

use btree_index::error::BtreeIndexError;
use btree_index::expr::{compile_btree_fast_predicates, project_column_ref, Expr};
use btree_index::fast::{
    compare_btree_filter_scalars, evaluate_btree_fast_predicate, evaluate_btree_fast_predicates,
    BtreeIndexFastPredicate,
};
use btree_index::filter::{
    btree_key_fields_by_payload_index, btree_prefix_payload_equalities, build_filter_expr,
    encode_prefix, BtreeIndexColumnOrder, BtreeIndexFilter, BtreeIndexInfo, BtreeIndexKeyColumn,
    BtreeScanError, Filters,
};
use btree_index::key::{btree_equality_prefix, encode_btree_key_component};
use btree_index::payload::{
    build_output_block, decoded_payload_cache_key, index_len_hint, scalar_mem_bytes,
    scalar_rows_mem_bytes,
};
use btree_index::predicate::{fast_compare_op, BtreeIndexFastCompareOp};
use btree_index::scalar::{
    ColumnKind, DecimalScalar, DecimalSize, NumberDataType, NumberScalar, Scalar, TableDataType,
    TableField,
};
use btree_index::select::{
    filter_index_row_refs, payload_rows_to_block, FilterValue, PayloadBlock,
};
use btree_index::types::{BtreeIndexKeyOrder, BtreeIndexRow};

fn text(value: &str) -> Scalar {
    Scalar::String(value.to_string())
}

fn uint64(value: u64) -> Scalar {
    Scalar::Number(NumberScalar::UInt64(value))
}

fn int64(value: i64) -> Scalar {
    Scalar::Number(NumberScalar::Int64(value))
}

fn field(name: &str, data_type: TableDataType, column_id: u32) -> TableField {
    TableField { name: name.to_string(), data_type, column_id, virtual_computed: false }
}

fn wallet_field() -> TableField {
    field("wallet_address", TableDataType::of(ColumnKind::String), 0)
}

fn balance_field() -> TableField {
    field("balance", TableDataType::of(ColumnKind::Number(NumberDataType::UInt64)), 1)
}

fn tag_field() -> TableField {
    field(
        "tag_black_hole",
        TableDataType::of(ColumnKind::Number(NumberDataType::UInt64)).wrap_nullable(),
        2,
    )
}

fn shown(scalar: &Scalar) -> String {
    format!("{scalar:?}")
}

fn equal(a: &Scalar, b: &Scalar) -> bool {
    shown(a) == shown(b)
}

/// Values of one type are compared as the type orders them.
fn direct(a: &Scalar, b: &Scalar) -> Option<Ordering> {
    match (a, b) {
        (Scalar::Number(NumberScalar::UInt64(x)), Scalar::Number(NumberScalar::UInt64(y))) => {
            Some(x.cmp(y))
        }
        (Scalar::Number(NumberScalar::Int64(x)), Scalar::Number(NumberScalar::Int64(y))) => {
            Some(x.cmp(y))
        }
        (Scalar::String(x), Scalar::String(y)) => Some(x.cmp(y)),
        _ => None,
    }
}

fn float(scalar: &Scalar) -> Option<f64> {
    match scalar {
        Scalar::Number(n) => n.integer_to_i128().map(|n| n as f64),
        Scalar::Decimal(DecimalScalar::Decimal64(n, size)) => {
            Some(*n as f64 / 10f64.powi(size.scale as i32))
        }
        Scalar::Decimal(DecimalScalar::Decimal128(n, size)) => {
            Some(*n as f64 / 10f64.powi(size.scale as i32))
        }
        _ => None,
    }
}

fn as_float(a: &Scalar, b: &Scalar) -> Option<Ordering> {
    float(a)?.partial_cmp(&float(b)?)
}

/// A payload is one byte for null, or a tag and the bytes of the value, each behind its length.
fn encode_payload(values: &[Scalar]) -> Vec<u8> {
    let mut bytes = Vec::new();
    for value in values {
        let spelled = match value {
            Scalar::Null => vec![0],
            Scalar::String(text) => [&[1], text.as_bytes()].concat(),
            Scalar::Number(NumberScalar::UInt64(n)) => [&[2], &n.to_be_bytes()[..]].concat(),
            _ => panic!("no such value here"),
        };
        bytes.push(spelled.len() as u8);
        bytes.extend_from_slice(&spelled);
    }
    bytes
}

fn decode_payload(bytes: &[u8]) -> Option<Vec<Scalar>> {
    let mut values = Vec::new();
    let mut rest = bytes;
    while let Some((len, tail)) = rest.split_first() {
        if tail.len() < *len as usize {
            return None;
        }
        let (spelled, tail) = tail.split_at(*len as usize);
        values.push(match spelled.split_first()? {
            (0, _) => Scalar::Null,
            (1, bytes) => Scalar::String(String::from_utf8(bytes.to_vec()).ok()?),
            (2, bytes) => uint64(u64::from_be_bytes(bytes.try_into().ok()?)),
            _ => return None,
        });
        rest = tail;
    }
    Some(values)
}

fn decode(payload: &Vec<u8>, wanted: &Vec<usize>) -> Option<Vec<Scalar>> {
    let mut values: Vec<Option<Scalar>> = decode_payload(payload)?.into_iter().map(Some).collect();
    wanted.iter().map(|index| values.get_mut(*index)?.take()).collect()
}

fn value_at<'a>(expr: &'a Expr, block: &'a PayloadBlock, row: usize) -> Option<&'a Scalar> {
    match expr {
        Expr::Constant(value, _) => Some(value),
        Expr::ColumnRef(column, _) => block.columns.get(*column)?.get(row),
        _ => None,
    }
}

/// Evaluates comparisons for equality, row by row.
fn evaluate(expr: &Expr, block: &PayloadBlock) -> Option<FilterValue> {
    match expr {
        Expr::Constant(Scalar::Boolean(value), _) => Some(FilterValue::All(*value)),
        Expr::FunctionCall { name, args, .. } if name == "eq" && args.len() == 2 => {
            let mut marks = Vec::new();
            for row in 0..block.num_rows {
                let left = value_at(&args[0], block, row)?;
                let right = value_at(&args[1], block, row)?;
                marks.push(equal(left, right));
            }
            Some(FilterValue::Each(marks))
        }
        _ => None,
    }
}

fn row(key: &[u8], values: &[Scalar]) -> BtreeIndexRow {
    BtreeIndexRow { encoded_key: key.to_vec(), encoded_row_payload: encode_payload(values) }
}

fn call(name: &str, args: Vec<Expr>) -> Expr {
    Expr::FunctionCall { name: name.to_string(), overload: 0, args }
}

fn number(kind: NumberDataType) -> TableDataType {
    TableDataType::of(ColumnKind::Number(kind))
}

fn col(column: usize) -> Expr {
    Expr::ColumnRef(column, number(NumberDataType::UInt64))
}

fn constant(value: Scalar) -> Expr {
    Expr::Constant(value, number(NumberDataType::UInt64))
}

/// A cast to a type that the host knows by its number.
fn cast(to: u32, expr: Expr) -> Expr {
    Expr::Other { kind: to, args: vec![expr] }
}

fn filtered(
    rows: &[BtreeIndexRow],
    filter: &BtreeIndexFilter,
    limit: Option<usize>,
) -> Result<Vec<Vec<u8>>, BtreeScanError> {
    let refs: Vec<&BtreeIndexRow> = rows.iter().collect();
    let rows = filter_index_row_refs(&refs, filter, limit, &decode, &direct, &as_float, &evaluate)?;
    Ok(rows.into_iter().map(|row| row.encoded_key).collect())
}

#[test]
fn test_payload_rows_to_block() {
    let block = payload_rows_to_block(
        &vec![wallet_field(), balance_field()],
        &vec![vec![text("wallet-a"), uint64(42)]],
    )
    .unwrap();

    assert_eq!(block.num_rows, 1);
    assert_eq!(shown(&block.columns[0][0]), shown(&text("wallet-a")));
    assert_eq!(shown(&block.columns[1][0]), shown(&uint64(42)));
}

#[test]
fn test_filter_index_rows_preserves_matching_keys() {
    let rows = vec![
        row(b"k1", &[text("wallet-a"), uint64(1)]),
        row(b"k2", &[text("wallet-a"), uint64(2)]),
        row(b"k3", &[text("wallet-a"), uint64(3)]),
    ];
    let expr = call("eq", vec![col(0), constant(uint64(2))]);
    let filter = BtreeIndexFilter {
        expr: Some(expr),
        payload_field_indexes: vec![1],
        payload_fields: vec![balance_field()],
        key_predicates: vec![],
        fast_predicates: None,
    };

    let rows = filtered(&rows, &filter, None).unwrap();
    assert_eq!(rows.len(), 1);
    assert_eq!(rows[0].as_slice(), b"k2");
}

#[test]
fn test_fast_filter_index_rows() {
    let rows = vec![
        row(b"k1", &[text("wallet-a"), uint64(0), Scalar::Null]),
        row(b"k2", &[text("wallet-a"), uint64(2), uint64(1)]),
        row(b"k3", &[text("wallet-a"), uint64(3), Scalar::Null]),
    ];
    let filter = BtreeIndexFilter {
        expr: None,
        payload_field_indexes: vec![1, 2],
        payload_fields: vec![balance_field(), tag_field()],
        key_predicates: vec![],
        fast_predicates: Some(vec![
            BtreeIndexFastPredicate::Compare {
                column: 0,
                op: BtreeIndexFastCompareOp::Gt,
                constant: uint64(0),
            },
            BtreeIndexFastPredicate::IsNull { column: 1 },
        ]),
    };

    let rows = filtered(&rows, &filter, None).unwrap();
    assert_eq!(rows.len(), 1);
    assert_eq!(rows[0].as_slice(), b"k3");
}

#[test]
fn test_fast_filter_compiler_skips_prefix_equality() {
    let wallet_eq = call("eq", vec![col(0), constant(text("wallet-a"))]);
    let balance_gt = call("gt", vec![col(1), constant(uint64(0))]);
    let expr = call("and_filters", vec![wallet_eq, balance_gt]);

    let predicates =
        compile_btree_fast_predicates(&expr, &vec![(0, text("wallet-a"))], &equal).unwrap();
    assert_eq!(predicates.len(), 1);
    assert!(matches!(
        predicates[0],
        BtreeIndexFastPredicate::Compare { column: 1, op: BtreeIndexFastCompareOp::Gt, .. }
    ));
}

#[test]
fn test_fast_filter_compare_cross_numeric_types() {
    assert_eq!(
        compare_btree_filter_scalars(
            &Scalar::Number(NumberScalar::UInt8(1)),
            &int64(0),
            &direct,
            &as_float
        ),
        Some(Ordering::Greater)
    );

    let decimal_size = DecimalSize { precision: 65, scale: 30 };
    assert_eq!(
        compare_btree_filter_scalars(
            &Scalar::Decimal(DecimalScalar::Decimal128(1, decimal_size)),
            &int64(0),
            &direct,
            &as_float
        ),
        Some(Ordering::Greater)
    );

    let decimal_zero = DecimalSize { precision: 1, scale: 0 };
    assert_eq!(
        compare_btree_filter_scalars(
            &Scalar::Decimal(DecimalScalar::Decimal128(1, decimal_size)),
            &Scalar::Decimal(DecimalScalar::Decimal64(0, decimal_zero)),
            &direct,
            &as_float
        ),
        Some(Ordering::Greater)
    );
}

#[test]
fn values_of_unlike_types_do_not_compare() {
    assert_eq!(compare_btree_filter_scalars(&text("1"), &int64(1), &direct, &as_float), None);
    assert_eq!(
        compare_btree_filter_scalars(&uint64(u64::MAX), &int64(-1), &direct, &as_float),
        Some(Ordering::Greater)
    );
}

#[test]
fn comparisons_are_found_by_their_names() {
    assert_eq!(fast_compare_op("gt", false), Some(BtreeIndexFastCompareOp::Gt));
    assert_eq!(fast_compare_op("gt", true), Some(BtreeIndexFastCompareOp::Lt));
    assert_eq!(fast_compare_op("lte", true), Some(BtreeIndexFastCompareOp::Gte));
    assert_eq!(fast_compare_op("noteq", true), Some(BtreeIndexFastCompareOp::NotEq));
    assert_eq!(fast_compare_op("like", false), None);
}

#[test]
fn a_compiled_filter_holds_of_the_rows_that_the_expression_is_true_of() {
    let expr = call(
        "and",
        vec![
            call("gte", vec![constant(uint64(5)), col(1)]),
            call("not", vec![call("is_not_null", vec![col(2)])]),
            call("is_not_null", vec![col(0)]),
        ],
    );
    let predicates = compile_btree_fast_predicates(&expr, &vec![], &equal).unwrap();
    assert_eq!(predicates.len(), 3);
    let holds = |balance: Scalar, tag: Scalar, wallet: Scalar| {
        let row = vec![wallet, balance, tag];
        evaluate_btree_fast_predicates(&predicates, &row, &direct, &as_float)
    };
    assert!(holds(uint64(5), Scalar::Null, text("w")));
    assert!(!holds(uint64(6), Scalar::Null, text("w")));
    assert!(!holds(Scalar::Null, Scalar::Null, text("w")));
    assert!(!holds(uint64(5), uint64(1), text("w")));
    assert!(!holds(uint64(5), Scalar::Null, Scalar::Null));
}

#[test]
fn an_expression_that_is_no_conjunction_is_not_compiled() {
    let either = call(
        "or",
        vec![
            call("eq", vec![col(0), constant(int64(1))]),
            call("eq", vec![col(0), constant(int64(2))]),
        ],
    );
    assert!(compile_btree_fast_predicates(&either, &vec![], &equal).is_none());
    let columns = call("eq", vec![col(0), col(1)]);
    assert!(compile_btree_fast_predicates(&columns, &vec![], &equal).is_none());
    let truth = constant(Scalar::Boolean(true));
    assert!(compile_btree_fast_predicates(&truth, &vec![], &equal).unwrap().is_empty());
}

#[test]
fn columns_are_renumbered() {
    let expr = call("eq", vec![col(1), cast(4, col(0))]);
    let moved = project_column_ref(&expr, &vec![Some(7), Some(8)]).unwrap();
    assert_eq!(
        format!("{moved:?}"),
        format!("{:?}", call("eq", vec![col(8), cast(4, col(7))]))
    );
    assert_eq!(project_column_ref(&expr, &vec![Some(7), None]).unwrap_err(), 1);
}

fn index_info(filters: Option<Filters>) -> BtreeIndexInfo {
    BtreeIndexInfo {
        index_name: "idx".to_string(),
        index_version: "1".to_string(),
        key_columns: vec![
            BtreeIndexKeyColumn { field: wallet_field(), order: BtreeIndexColumnOrder::Asc },
            BtreeIndexKeyColumn { field: balance_field(), order: BtreeIndexColumnOrder::Desc },
        ],
        payload_fields: vec![wallet_field(), balance_field(), tag_field()],
        equality_prefix: vec![text("wallet-a")],
        limit: Some(100),
        filters,
        use_block_btree_index_size_hint: false,
    }
}

fn filters(expr: Expr, columns: &[&str]) -> Filters {
    Filters { expr, columns: columns.iter().map(|name| name.to_string()).collect() }
}

#[test]
fn the_prefix_of_a_scan_is_the_key_of_its_values() {
    let prefix = encode_prefix(&index_info(None)).unwrap();
    let mut key = Vec::new();
    encode_btree_key_component(&mut key, &text("wallet-a"), BtreeIndexKeyOrder::Asc).unwrap();
    assert_eq!(prefix, key);
    assert_eq!(btree_equality_prefix(&prefix, 1), Ok(key));
    assert_eq!(
        btree_equality_prefix(&prefix, 2),
        Err(BtreeIndexError::MissingComponentLength)
    );
}

#[test]
fn a_filter_is_split_between_key_and_payload() {
    let made = filters(
        call(
            "and_filters",
            vec![
                call("eq", vec![col(0), constant(text("wallet-a"))]),
                call("gt", vec![col(1), constant(uint64(1))]),
                call("not", vec![call("is_not_null", vec![col(2)])]),
            ],
        ),
        &["wallet_address", "balance", "tag_black_hole"],
    );
    let info = index_info(None);
    let filter = build_filter_expr(&info, Some(&made), &equal).unwrap().unwrap();
    assert!(filter.expr.is_none());
    assert_eq!(filter.key_predicates.len(), 1);
    assert_eq!(filter.key_predicates[0].component_index, 1);
    assert_eq!(filter.payload_field_indexes, vec![2]);
    assert!(matches!(
        filter.fast_predicates.as_deref(),
        Some([BtreeIndexFastPredicate::IsNull { column: 0 }])
    ));

    let key = |balance: u64| {
        let mut key = Vec::new();
        encode_btree_key_component(&mut key, &text("wallet-a"), BtreeIndexKeyOrder::Asc).unwrap();
        encode_btree_key_component(&mut key, &uint64(balance), BtreeIndexKeyOrder::Desc).unwrap();
        key
    };
    let rows = vec![
        row(&key(3), &[text("wallet-a"), uint64(3), uint64(9)]),
        row(&key(2), &[text("wallet-a"), uint64(2), Scalar::Null]),
        row(&key(1), &[text("wallet-a"), uint64(1), Scalar::Null]),
    ];
    assert_eq!(filtered(&rows, &filter, None), Ok(vec![key(2)]));
}

#[test]
fn the_parts_of_a_filter_mean_the_whole() {
    let names = ["wallet_address", "balance", "tag_black_hole"];
    let whole = || {
        call(
            "and_filters",
            vec![
                call("eq", vec![col(0), constant(text("wallet-a"))]),
                call("gt", vec![constant(uint64(4)), col(1)]),
                call("gte", vec![col(1), constant(uint64(2))]),
                call("eq", vec![col(2), constant(uint64(9))]),
            ],
        )
    };
    let filter = build_filter_expr(&index_info(None), Some(&filters(whole(), &names)), &equal)
        .unwrap()
        .unwrap();
    assert_eq!(filter.key_predicates.len(), 2);
    assert_eq!(filter.payload_field_indexes, vec![2]);

    let tests = compile_btree_fast_predicates(&whole(), &vec![], &equal).unwrap();
    assert_eq!(tests.len(), 4);
    let mut passed = 0;
    for balance in 0..6u64 {
        for tag in [Scalar::Null, uint64(8), uint64(9)] {
            let mut key = Vec::new();
            encode_btree_key_component(&mut key, &text("wallet-a"), BtreeIndexKeyOrder::Asc)
                .unwrap();
            encode_btree_key_component(&mut key, &uint64(balance), BtreeIndexKeyOrder::Desc)
                .unwrap();
            let values = vec![text("wallet-a"), uint64(balance), tag];
            let expected = evaluate_btree_fast_predicates(&tests, &values, &direct, &as_float);
            let found = filtered(&[row(&key, &values)], &filter, None).unwrap();
            assert_eq!(!found.is_empty(), expected);
            passed += found.len();
        }
    }
    assert_eq!(passed, 2);
}

#[test]
fn the_host_is_asked_only_for_what_a_filter_needs() {
    let on_key = filters(call("gt", vec![col(0), constant(uint64(1))]), &["balance"]);
    let filter = build_filter_expr(&index_info(None), Some(&on_key), &equal).unwrap().unwrap();
    let key = |balance: u64| {
        let mut key = Vec::new();
        encode_btree_key_component(&mut key, &text("wallet-a"), BtreeIndexKeyOrder::Asc).unwrap();
        encode_btree_key_component(&mut key, &uint64(balance), BtreeIndexKeyOrder::Desc).unwrap();
        key
    };
    let rows = vec![row(&key(2), &[]), row(&key(1), &[])];
    let refs: Vec<&BtreeIndexRow> = rows.iter().collect();
    let found = filter_index_row_refs(
        &refs,
        &filter,
        None,
        &|_: &Vec<u8>, _: &Vec<usize>| -> Option<Vec<Scalar>> { panic!("nothing is decoded") },
        &|_: &Scalar, _: &Scalar| -> Option<Ordering> { panic!("nothing is compared") },
        &|_: &Scalar, _: &Scalar| -> Option<Ordering> { panic!("nothing is compared") },
        &|_: &Expr, _: &PayloadBlock| -> Option<FilterValue> { panic!("nothing is evaluated") },
    )
    .unwrap();
    assert_eq!(found.len(), 1);
    assert_eq!(found[0].encoded_key, key(2));

    let unasked = |_: &Scalar, _: &Scalar| -> Option<Ordering> { panic!("nothing is compared") };
    let is_null = BtreeIndexFastPredicate::IsNull { column: 0 };
    let is_one = BtreeIndexFastPredicate::Compare {
        column: 0,
        op: BtreeIndexFastCompareOp::Eq,
        constant: uint64(1),
    };
    let row = vec![Scalar::Null];
    assert!(evaluate_btree_fast_predicate(&is_null, &row, &unasked, &unasked));
    assert!(!evaluate_btree_fast_predicate(&is_one, &row, &unasked, &unasked));
    assert!(!evaluate_btree_fast_predicate(&is_one, &vec![], &unasked, &unasked));
    assert!(!evaluate_btree_fast_predicates(&vec![is_null, is_one], &row, &unasked, &unasked));

    let unequal = |_: &Scalar, _: &Scalar| -> bool { panic!("nothing is compared") };
    let found = compile_btree_fast_predicates(
        &call("eq", vec![col(0), constant(uint64(1))]),
        &vec![(1, uint64(1))],
        &unequal,
    );
    assert_eq!(found.unwrap().len(), 1);
}

#[test]
fn a_filter_that_is_not_simple_is_left_to_the_host() {
    let made = filters(
        call("eq", vec![col(0), cast(4, col(1))]),
        &["tag_black_hole", "wallet_address"],
    );
    let info = index_info(None);
    let filter = build_filter_expr(&info, Some(&made), &equal).unwrap().unwrap();
    assert!(filter.fast_predicates.is_none());
    assert!(filter.key_predicates.is_empty());
    assert_eq!(filter.payload_field_indexes, vec![0, 2]);
    assert_eq!(
        format!("{:?}", filter.expr.unwrap()),
        format!("{:?}", call("eq", vec![col(1), cast(4, col(0))]))
    );
    assert!(build_filter_expr(&info, None, &equal).unwrap().is_none());
}

#[test]
fn a_filter_over_a_column_that_is_not_held_is_refused() {
    let made = filters(call("is_not_null", vec![col(0)]), &["absent"]);
    assert_eq!(
        build_filter_expr(&index_info(None), Some(&made), &equal).unwrap_err(),
        BtreeScanError::UnknownFilterColumn { column: 0 }
    );
    let mut info = index_info(None);
    info.payload_fields = vec![balance_field()];
    assert_eq!(
        btree_prefix_payload_equalities(&info).unwrap_err(),
        BtreeScanError::UnknownKeyColumn { component: 0 }
    );
    assert_eq!(
        btree_key_fields_by_payload_index(&info).unwrap_err(),
        BtreeScanError::UnknownKeyColumn { component: 0 }
    );
}

#[test]
fn key_columns_are_found_in_the_payload() {
    let info = index_info(None);
    let equalities = btree_prefix_payload_equalities(&info).unwrap();
    assert_eq!(equalities.len(), 1);
    assert_eq!(equalities[0].0, 0);
    let fields = btree_key_fields_by_payload_index(&info).unwrap();
    assert_eq!(fields.len(), 3);
    assert_eq!(fields[0].as_ref().unwrap().order, BtreeIndexKeyOrder::Asc);
    assert_eq!(fields[1].as_ref().unwrap().component_index, 1);
    assert_eq!(fields[1].as_ref().unwrap().order, BtreeIndexKeyOrder::Desc);
    assert!(fields[2].is_none());
}

fn expression_filter(expr: Option<Expr>) -> BtreeIndexFilter {
    BtreeIndexFilter {
        expr,
        payload_field_indexes: vec![1],
        payload_fields: vec![balance_field()],
        key_predicates: vec![],
        fast_predicates: None,
    }
}

#[test]
fn filtering_stops_at_the_limit() {
    let rows: Vec<BtreeIndexRow> =
        (0..5).map(|n| row(&[n], &[text("w"), uint64(n as u64 % 2)])).collect();
    let odd = expression_filter(Some(call(
        "eq",
        vec![col(0), constant(uint64(0))],
    )));
    assert_eq!(filtered(&rows, &odd, None), Ok(vec![vec![0], vec![2], vec![4]]));
    assert_eq!(filtered(&rows, &odd, Some(2)), Ok(vec![vec![0], vec![2]]));
    let all = expression_filter(Some(constant(Scalar::Boolean(true))));
    assert_eq!(filtered(&rows, &all, Some(1)), Ok(vec![vec![0]]));
    let none = expression_filter(Some(constant(Scalar::Boolean(false))));
    assert_eq!(filtered(&rows, &none, None), Ok(vec![]));
}

#[test]
fn filtering_reports_what_fails() {
    let rows = vec![row(b"k", &[text("w"), uint64(1)])];
    assert_eq!(
        filtered(&rows, &expression_filter(None), None),
        Err(BtreeScanError::MissingExpression)
    );
    assert_eq!(
        filtered(&rows, &expression_filter(Some(col(0))), None),
        Err(BtreeScanError::Evaluate)
    );
    let broken = vec![BtreeIndexRow { encoded_key: vec![], encoded_row_payload: vec![9] }];
    assert_eq!(
        filtered(&broken, &expression_filter(Some(col(0))), None),
        Err(BtreeScanError::DecodePayload)
    );
    assert_eq!(filtered(&[], &expression_filter(None), None), Ok(vec![]));
}

#[test]
fn rows_become_columns() {
    let fields = vec![wallet_field(), balance_field()];
    let rows = vec![vec![text("a"), uint64(1)], vec![text("b"), uint64(2)]];
    let block = payload_rows_to_block(&fields, &rows).unwrap();
    assert_eq!(
        format!("{:?}", block.columns),
        format!("{:?}", vec![vec![text("a"), text("b")], vec![uint64(1), uint64(2)]])
    );
    let uneven = vec![vec![text("a"), uint64(1)], vec![text("b")]];
    assert_eq!(
        payload_rows_to_block(&fields, &uneven).unwrap_err(),
        BtreeScanError::InvalidPayloadWidth { width: 1, expected: 2 }
    );
    assert_eq!(payload_rows_to_block(&vec![], &vec![vec![], vec![]]).unwrap().num_rows, 2);
    assert_eq!(
        payload_rows_to_block(&vec![], &vec![vec![uint64(1)]]).unwrap_err(),
        BtreeScanError::UnexpectedPayload
    );
}

#[test]
fn the_output_has_its_columns_in_the_order_that_is_asked() {
    let fields = vec![wallet_field(), balance_field()];
    let names = |names: &[&str]| names.iter().map(|name| name.to_string()).collect::<Vec<_>>();
    let rows = vec![vec![text("a"), uint64(1)]];
    let block =
        build_output_block(&fields, &rows, &names(&["balance", "wallet_address"])).unwrap().unwrap();
    assert_eq!(block.num_rows, 1);
    assert_eq!(shown(&block.columns[0][0]), shown(&uint64(1)));
    assert_eq!(shown(&block.columns[1][0]), shown(&text("a")));
    assert_eq!(
        build_output_block(&fields, &rows, &names(&["balance", "absent"])).unwrap_err(),
        BtreeScanError::UnknownOutputColumn { column: 1 }
    );
    assert!(build_output_block(&fields, &vec![], &names(&["absent"])).unwrap().is_none());
}

#[test]
fn a_payload_is_cached_by_its_length_and_digest() {
    assert_eq!(
        decoded_payload_cache_key(b"abc"),
        "3:ba7816bf8f01cfea414140de5dae2223b00361a396177a9cb410ff61f20015ad"
    );
    assert_eq!(
        decoded_payload_cache_key(b""),
        "0:e3b0c44298fc1c149afbf4c8996fb92427ae41e4649b934ca495991b7852b855"
    );
}

#[test]
fn the_weight_of_a_row_counts_what_its_values_hold() {
    assert_eq!(scalar_mem_bytes(&Scalar::Null, 64), 64);
    assert_eq!(scalar_mem_bytes(&text("abc"), 64), 67);
    assert_eq!(scalar_mem_bytes(&Scalar::Tuple(vec![text("a"), Scalar::Binary(vec![1, 2])]), 10), 33);
    assert_eq!(scalar_rows_mem_bytes(&vec![text("abc"), uint64(1)], 10), 43);
}

#[test]
fn the_length_of_a_file_is_known_where_the_table_has_one_index() {
    assert_eq!(index_len_hint(true, Some(7)), Some(7));
    assert_eq!(index_len_hint(true, None), None);
    assert_eq!(index_len_hint(false, Some(7)), None);
}
