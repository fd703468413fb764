use btree_index::error::BtreeIndexError;
use btree_index::fast::{
    split_btree_fast_predicates, BtreeIndexFastPredicate, BtreeIndexKeyField,
};
use btree_index::key::{
    btree_equality_prefix, encode_btree_key_component, encode_key_component_value,
    encoded_key_component,
};
use btree_index::normalize::{
    decimal_scalar_from_i256, normalize_key_filter_constant, rescale_decimal_i256,
};
use btree_index::predicate::{
    candidate_block_may_match_key_predicates, component_in_range, evaluate_btree_key_predicates,
    BtreeIndexFastCompareOp, BtreeIndexKeyPredicate,
};
use btree_index::scalar::{
    ColumnKind, DecimalDataType, DecimalScalar, DecimalSize, NumberDataType, NumberScalar, Scalar,
    TableDataType, F64,
};
use btree_index::types::{BtreeIndexDataBlockMeta, BtreeIndexKeyOrder};
use btree_index::wide::I256;

fn text(value: &str) -> Scalar {
    Scalar::String(value.to_string())
}

fn int8(value: i8) -> Scalar {
    Scalar::Number(NumberScalar::Int8(value))
}

fn int64(value: i64) -> Scalar {
    Scalar::Number(NumberScalar::Int64(value))
}

fn number(kind: NumberDataType) -> TableDataType {
    TableDataType::of(ColumnKind::Number(kind))
}

fn encoded_test_key(values: &[(Scalar, BtreeIndexKeyOrder)]) -> Vec<u8> {
    let mut key = Vec::new();
    for (scalar, order) in values {
        encode_btree_key_component(&mut key, scalar, *order).unwrap();
    }
    key
}

fn block(first_key: &[u8], last_key: &[u8]) -> BtreeIndexDataBlockMeta {
    BtreeIndexDataBlockMeta {
        first_key: first_key.to_vec(),
        last_key: last_key.to_vec(),
        offset: 0,
        length: 0,
        uncompressed_length: 0,
        row_count: 0,
        checksum: 0,
    }
}

const ASC: BtreeIndexKeyOrder = BtreeIndexKeyOrder::Asc;
const DESC: BtreeIndexKeyOrder = BtreeIndexKeyOrder::Desc;

#[test]
fn test_key_predicate_compares_tinyint_suffix() {
    let key_field = BtreeIndexKeyField {
        component_index: 1,
        order: BtreeIndexKeyOrder::Asc,
        data_type: number(NumberDataType::Int8),
    };
    let (key_predicates, payload_predicates) = split_btree_fast_predicates(
        &vec![BtreeIndexFastPredicate::Compare {
            column: 1,
            op: BtreeIndexFastCompareOp::Gt,
            constant: int64(0),
        }],
        &vec![None, Some(key_field)],
    )
    .unwrap();
    assert_eq!(key_predicates.len(), 1);
    assert_eq!(payload_predicates.unwrap().len(), 0);

    let key = encoded_test_key(&[(text("token-a"), ASC), (int8(1), ASC)]);
    assert!(evaluate_btree_key_predicates(&key_predicates, &key));

    let key = encoded_test_key(&[(text("token-a"), ASC), (int8(0), ASC)]);
    assert!(!evaluate_btree_key_predicates(&key_predicates, &key));
}

#[test]
fn test_key_predicate_reverses_desc_compare_order() {
    let key_field = BtreeIndexKeyField {
        component_index: 0,
        order: BtreeIndexKeyOrder::Desc,
        data_type: number(NumberDataType::Int64),
    };
    let (key_predicates, _) = split_btree_fast_predicates(
        &vec![BtreeIndexFastPredicate::Compare {
            column: 0,
            op: BtreeIndexFastCompareOp::Gt,
            constant: int64(0),
        }],
        &vec![Some(key_field)],
    )
    .unwrap();

    let key = encoded_test_key(&[(int64(10), DESC)]);
    assert!(evaluate_btree_key_predicates(&key_predicates, &key));

    let key = encoded_test_key(&[(int64(-1), DESC)]);
    assert!(!evaluate_btree_key_predicates(&key_predicates, &key));
}

#[test]
fn test_key_predicate_compares_desc_decimal_from_integer_constant() {
    let size = DecimalSize { precision: 20, scale: 2 };
    let key_field = BtreeIndexKeyField {
        component_index: 0,
        order: BtreeIndexKeyOrder::Desc,
        data_type: TableDataType::of(ColumnKind::Decimal(DecimalDataType::Decimal128(size))),
    };
    let (key_predicates, payload_predicates) = split_btree_fast_predicates(
        &vec![BtreeIndexFastPredicate::Compare {
            column: 0,
            op: BtreeIndexFastCompareOp::Gt,
            constant: int64(0),
        }],
        &vec![Some(key_field)],
    )
    .unwrap();
    assert_eq!(key_predicates.len(), 1);
    assert_eq!(payload_predicates.unwrap().len(), 0);

    let key =
        encoded_test_key(&[(Scalar::Decimal(DecimalScalar::Decimal128(100, size)), DESC)]);
    assert!(evaluate_btree_key_predicates(&key_predicates, &key));

    let key = encoded_test_key(&[(Scalar::Decimal(DecimalScalar::Decimal128(0, size)), DESC)]);
    assert!(!evaluate_btree_key_predicates(&key_predicates, &key));
}

#[test]
fn test_candidate_block_pruning_uses_first_suffix_desc_range() {
    let key_field = BtreeIndexKeyField {
        component_index: 2,
        order: BtreeIndexKeyOrder::Desc,
        data_type: number(NumberDataType::Int64),
    };
    let (key_predicates, _) = split_btree_fast_predicates(
        &vec![BtreeIndexFastPredicate::Compare {
            column: 0,
            op: BtreeIndexFastCompareOp::Gt,
            constant: int64(0),
        }],
        &vec![Some(key_field)],
    )
    .unwrap();
    let prefix_key = encoded_test_key(&[(int64(14), ASC), (text("token-a"), ASC)]);
    let prefix = btree_equality_prefix(&prefix_key, 2).unwrap();
    let key = |balance: i64| {
        encoded_test_key(&[(int64(14), ASC), (text("token-a"), ASC), (int64(balance), DESC)])
    };

    let positive_block = block(&key(10), &key(1));
    assert!(candidate_block_may_match_key_predicates(
        &positive_block,
        &prefix,
        2,
        &key_predicates
    ));

    let non_positive_block = block(&key(0), &key(-10));
    assert!(!candidate_block_may_match_key_predicates(
        &non_positive_block,
        &prefix,
        2,
        &key_predicates
    ));

    let boundary_block = block(b"before-prefix", &key(-10));
    assert!(candidate_block_may_match_key_predicates(
        &boundary_block,
        &prefix,
        2,
        &key_predicates
    ));
}

#[test]
fn test_candidate_block_pruning_uses_later_suffix_only_when_prefix_is_constant() {
    let key_field = BtreeIndexKeyField {
        component_index: 3,
        order: BtreeIndexKeyOrder::Asc,
        data_type: number(NumberDataType::Int8).wrap_nullable(),
    };
    let (key_predicates, _) = split_btree_fast_predicates(
        &vec![BtreeIndexFastPredicate::IsNull { column: 0 }],
        &vec![Some(key_field)],
    )
    .unwrap();
    let prefix_key = encoded_test_key(&[(int64(14), ASC), (text("token-a"), ASC)]);
    let prefix = btree_equality_prefix(&prefix_key, 2).unwrap();
    let key = |balance: i64, tag: Scalar| {
        encoded_test_key(&[
            (int64(14), ASC),
            (text("token-a"), ASC),
            (int64(balance), DESC),
            (tag, ASC),
        ])
    };

    let same_balance_non_null_tag_block = block(&key(10, int8(1)), &key(10, int8(1)));
    assert!(!candidate_block_may_match_key_predicates(
        &same_balance_non_null_tag_block,
        &prefix,
        2,
        &key_predicates
    ));

    let different_balance_block = block(&key(11, int8(1)), &key(10, Scalar::Null));
    assert!(candidate_block_may_match_key_predicates(
        &different_balance_block,
        &prefix,
        2,
        &key_predicates
    ));
}

#[test]
fn components_are_spelled_byte_for_byte() {
    assert_eq!(encoded_test_key(&[(int8(1), ASC)]), vec![0, 0, 0, 1, 0x81, 0xff]);
    assert_eq!(encoded_test_key(&[(int8(1), DESC)]), vec![0, 0, 0, 1, 0x7e, 0xff]);
    assert_eq!(encoded_test_key(&[(Scalar::Null, ASC)]), vec![0, 0, 0, 1, 0, 0xff]);
    assert_eq!(
        encoded_test_key(&[(text("ab"), ASC)]),
        vec![0, 0, 0, 6, 0, 0, 0, 2, b'a', b'b', 0xff]
    );
    assert_eq!(
        encode_key_component_value(&Scalar::Boolean(true), ASC).unwrap(),
        vec![1]
    );
    assert_eq!(
        encode_key_component_value(&Scalar::Date(-1), ASC).unwrap(),
        vec![0x7f, 0xff, 0xff, 0xff]
    );
    assert_eq!(
        encode_key_component_value(&Scalar::Timestamp(0), DESC).unwrap(),
        vec![0x7f, 0xff, 0xff, 0xff, 0xff, 0xff, 0xff, 0xff]
    );
    let size = DecimalSize { precision: 9, scale: 2 };
    assert_eq!(
        encode_key_component_value(&Scalar::Decimal(DecimalScalar::Decimal64(5, size)), ASC)
            .unwrap(),
        vec![9, 2, 0x80, 0, 0, 0, 0, 0, 0, 5]
    );
    let float = F64 { bits: 1.5_f64.to_bits(), rank: 0xbff8_0000_0000_0000 };
    assert_eq!(
        encode_key_component_value(&Scalar::Number(NumberScalar::Float64(float)), ASC).unwrap(),
        vec![0xbf, 0xf8, 0, 0, 0, 0, 0, 0]
    );
}

#[test]
fn nested_values_are_spelled_component_by_component() {
    let pair = Scalar::Tuple(vec![int8(1), Scalar::Null]);
    assert_eq!(
        encode_key_component_value(&pair, ASC).unwrap(),
        vec![0, 0, 0, 1, 0x81, 0xff, 0, 0, 0, 1, 0, 0xff]
    );
    assert_eq!(
        encode_key_component_value(&Scalar::Array(vec![7, 8]), ASC).unwrap(),
        vec![0, 0, 0, 2, 7, 8]
    );
    assert_eq!(encode_key_component_value(&Scalar::EmptyArray, ASC).unwrap(), vec![1]);
    assert_eq!(encode_key_component_value(&Scalar::EmptyMap, DESC).unwrap(), vec![0xfd]);
}

#[test]
fn numbers_order_as_their_components_do() {
    let values = [i64::MIN, -300, -1, 0, 1, 255, 256, i64::MAX];
    for a in values {
        for b in values {
            let x = encode_key_component_value(&int64(a), ASC).unwrap();
            let y = encode_key_component_value(&int64(b), ASC).unwrap();
            assert_eq!(x.cmp(&y), a.cmp(&b));
            let x = encode_key_component_value(&int64(a), DESC).unwrap();
            let y = encode_key_component_value(&int64(b), DESC).unwrap();
            assert_eq!(x.cmp(&y), b.cmp(&a));
        }
    }
}

#[test]
fn wide_decimals_order_as_their_digits_do() {
    let size = DecimalSize { precision: 76, scale: 0 };
    let values = [
        I256 { high: i128::MIN, low: 0 },
        I256 { high: -1, low: u128::MAX },
        I256 { high: 0, low: 0 },
        I256 { high: 0, low: u128::MAX },
        I256 { high: 1, low: 0 },
        I256 { high: i128::MAX, low: u128::MAX },
    ];
    let spelled: Vec<Vec<u8>> = values
        .iter()
        .map(|v| {
            let scalar = Scalar::Decimal(DecimalScalar::Decimal256(*v, size));
            encode_key_component_value(&scalar, ASC).unwrap()
        })
        .collect();
    for i in 1..spelled.len() {
        assert!(spelled[i - 1] < spelled[i]);
    }
}

#[test]
fn components_come_back_out_of_a_key() {
    let key = encoded_test_key(&[(text("ab"), ASC), (Scalar::Null, DESC), (int8(-1), ASC)]);
    assert_eq!(encoded_key_component(&key, 0), Some(&[0, 0, 0, 2, b'a', b'b'][..]));
    assert_eq!(encoded_key_component(&key, 1), Some(&[0xff][..]));
    assert_eq!(encoded_key_component(&key, 2), Some(&[0x7f][..]));
    assert_eq!(encoded_key_component(&key, 3), None);
    assert_eq!(encoded_key_component(&key[..4], 0), None);
}

#[test]
fn a_prefix_is_made_of_whole_components() {
    let key = encoded_test_key(&[(int8(1), ASC), (int8(2), ASC)]);
    assert_eq!(btree_equality_prefix(&key, 0).unwrap(), Vec::<u8>::new());
    assert_eq!(btree_equality_prefix(&key, 1).unwrap(), key[..6].to_vec());
    assert_eq!(btree_equality_prefix(&key, 2).unwrap(), key);
    assert_eq!(
        btree_equality_prefix(&key, 3),
        Err(BtreeIndexError::MissingComponentLength)
    );
    assert_eq!(
        btree_equality_prefix(&key[..11], 2),
        Err(BtreeIndexError::MissingComponentSeparator)
    );
}

#[test]
fn a_key_begins_with_another_where_its_first_components_do() {
    let key = encoded_test_key(&[(text("cid-x"), ASC), (int64(7), DESC), (int8(3), ASC)]);
    assert!(key.starts_with(&encoded_test_key(&[])));
    assert!(key.starts_with(&encoded_test_key(&[(text("cid-x"), ASC)])));
    assert!(key.starts_with(&encoded_test_key(&[(text("cid-x"), ASC), (int64(7), DESC)])));
    assert!(!key.starts_with(&encoded_test_key(&[(text("cid-x"), ASC), (int64(7), ASC)])));
    assert!(!key.starts_with(&encoded_test_key(&[(text("cid"), ASC)])));
}

#[test]
fn keys_order_by_the_first_component_that_differs() {
    let key = |first: i64, second: i64, third: i8| {
        encoded_test_key(&[(int64(first), ASC), (int64(second), DESC), (int8(third), ASC)])
    };
    assert!(key(-1, 5, 100) < key(2, 9, -100));
    assert!(key(2, 9, 100) < key(2, 5, -100));
    assert!(key(2, 5, -100) < key(2, 5, 100));
}

#[test]
fn null_comes_before_values_in_either_order() {
    for order in [ASC, DESC] {
        for value in [i64::MIN, -1, 0, i64::MAX] {
            let null = encoded_test_key(&[(int8(1), ASC), (Scalar::Null, order)]);
            let other = encoded_test_key(&[(int8(1), ASC), (int64(value), order)]);
            assert!(null < other);
        }
    }
}

#[test]
fn texts_are_told_apart_by_their_components() {
    let a = encode_key_component_value(&text("token-a"), DESC).unwrap();
    let b = encode_key_component_value(&text("token-b"), DESC).unwrap();
    assert_ne!(a, b);
    assert_eq!(a, encode_key_component_value(&text("token-a"), DESC).unwrap());
}

#[test]
fn components_of_texts_order_by_their_lengths() {
    let component = |value: &str, order| encode_key_component_value(&text(value), order).unwrap();
    assert!(component("b", ASC) < component("aa", ASC));
    assert!(component("aa", DESC) < component("b", DESC));
    assert!(component("ab", ASC) < component("ba", ASC));
    assert!(component("ba", DESC) < component("ab", DESC));
}

fn key_predicates_on(
    predicate: BtreeIndexFastPredicate,
    order: BtreeIndexKeyOrder,
    data_type: TableDataType,
) -> Vec<BtreeIndexKeyPredicate> {
    let key_field = BtreeIndexKeyField { component_index: 0, order, data_type };
    split_btree_fast_predicates(&vec![predicate], &vec![Some(key_field)]).unwrap().0
}

#[test]
fn every_comparison_is_that_of_the_values() {
    let ops = [
        (BtreeIndexFastCompareOp::Eq, [false, true, false]),
        (BtreeIndexFastCompareOp::NotEq, [true, false, true]),
        (BtreeIndexFastCompareOp::Gt, [false, false, true]),
        (BtreeIndexFastCompareOp::Gte, [false, true, true]),
        (BtreeIndexFastCompareOp::Lt, [true, false, false]),
        (BtreeIndexFastCompareOp::Lte, [true, true, false]),
    ];
    for order in [ASC, DESC] {
        for (op, expected) in ops {
            let predicates = key_predicates_on(
                BtreeIndexFastPredicate::Compare { column: 0, op, constant: int64(5) },
                order,
                number(NumberDataType::Int64),
            );
            for (value, holds) in [4, 5, 6].iter().zip(expected) {
                let key = encoded_test_key(&[(int64(*value), order)]);
                assert_eq!(evaluate_btree_key_predicates(&predicates, &key), holds);
            }
            let key = encoded_test_key(&[(Scalar::Null, order)]);
            assert!(!evaluate_btree_key_predicates(&predicates, &key));
        }
    }
}

#[test]
fn null_tests_read_the_key() {
    let nullable = number(NumberDataType::Int64).wrap_nullable();
    let is_null = key_predicates_on(BtreeIndexFastPredicate::IsNull { column: 0 }, DESC, nullable);
    let not_null =
        key_predicates_on(BtreeIndexFastPredicate::IsNotNull { column: 0 }, DESC, nullable);
    let null_key = encoded_test_key(&[(Scalar::Null, DESC)]);
    let key = encoded_test_key(&[(int64(3), DESC)]);
    assert!(evaluate_btree_key_predicates(&is_null, &null_key));
    assert!(!evaluate_btree_key_predicates(&is_null, &key));
    assert!(!evaluate_btree_key_predicates(&not_null, &null_key));
    assert!(evaluate_btree_key_predicates(&not_null, &key));
    assert!(!evaluate_btree_key_predicates(&not_null, b"no key"));
}

#[test]
fn a_component_lies_between_two_others() {
    assert!(component_in_range(&[2], &[1], &[3]));
    assert!(component_in_range(&[1], &[1], &[1]));
    assert!(!component_in_range(&[0], &[1], &[3]));
    assert!(!component_in_range(&[4], &[1], &[3]));
}

#[test]
fn pruning_keeps_a_block_that_holds_a_match() {
    for op in [
        BtreeIndexFastCompareOp::Eq,
        BtreeIndexFastCompareOp::NotEq,
        BtreeIndexFastCompareOp::Gt,
        BtreeIndexFastCompareOp::Gte,
        BtreeIndexFastCompareOp::Lt,
        BtreeIndexFastCompareOp::Lte,
    ] {
        for order in [ASC, DESC] {
            for constant in -3..4 {
                let predicates = key_predicates_on(
                    BtreeIndexFastPredicate::Compare { column: 0, op, constant: int64(constant) },
                    order,
                    number(NumberDataType::Int64),
                );
                for low in -2..3 {
                    for high in low..3 {
                        let key = |v: i64| encoded_test_key(&[(int64(v), order)]);
                        let held = match order {
                            BtreeIndexKeyOrder::Asc => block(&key(low), &key(high)),
                            BtreeIndexKeyOrder::Desc => block(&key(high), &key(low)),
                        };
                        let matches = (low..high + 1)
                            .any(|v| evaluate_btree_key_predicates(&predicates, &key(v)));
                        let kept =
                            candidate_block_may_match_key_predicates(&held, b"", 0, &predicates);
                        assert!(kept || !matches);
                    }
                }
            }
        }
    }
}

#[test]
fn pruning_keeps_a_block_of_texts_that_holds_a_match() {
    let texts = ["", "b", "aa", "zz", "aaa", "b\u{ff}c"];
    for op in [
        BtreeIndexFastCompareOp::Eq,
        BtreeIndexFastCompareOp::NotEq,
        BtreeIndexFastCompareOp::Gt,
        BtreeIndexFastCompareOp::Lte,
    ] {
        for order in [ASC, DESC] {
            let key = |value: &str| encoded_test_key(&[(text(value), order)]);
            let mut keys: Vec<Vec<u8>> = texts.iter().map(|value| key(value)).collect();
            keys.sort();
            for constant in texts {
                let predicates = key_predicates_on(
                    BtreeIndexFastPredicate::Compare { column: 0, op, constant: text(constant) },
                    order,
                    TableDataType::of(ColumnKind::String),
                );
                for low in 0..keys.len() {
                    for high in low..keys.len() {
                        let held = block(&keys[low], &keys[high]);
                        let matches = keys[low..high + 1]
                            .iter()
                            .any(|key| evaluate_btree_key_predicates(&predicates, key));
                        let kept =
                            candidate_block_may_match_key_predicates(&held, b"", 0, &predicates);
                        assert!(kept || !matches);
                    }
                }
            }
        }
    }
}

#[test]
fn constants_are_turned_into_values_of_the_column() {
    let shown = |constant: &Scalar, data_type: TableDataType| {
        normalize_key_filter_constant(constant, &data_type).map(|value| format!("{value:?}"))
    };
    assert_eq!(
        shown(&int64(200), number(NumberDataType::UInt8)),
        Some("Number(UInt8(200))".to_string())
    );
    assert_eq!(shown(&int64(300), number(NumberDataType::UInt8)), None);
    assert_eq!(shown(&int64(-1), number(NumberDataType::UInt64)), None);
    assert_eq!(
        shown(&text("x"), TableDataType::of(ColumnKind::String).wrap_nullable()),
        Some("String(\"x\")".to_string())
    );
    assert_eq!(shown(&text("x"), number(NumberDataType::Int8)), None);
    let size = DecimalSize { precision: 5, scale: 2 };
    assert_eq!(
        shown(&int64(3), TableDataType::of(ColumnKind::Decimal(DecimalDataType::Decimal64(size)))),
        Some(format!("{:?}", Scalar::Decimal(DecimalScalar::Decimal64(300, size))))
    );
}

#[test]
fn a_constant_that_the_column_cannot_hold_is_left_to_the_payload() {
    let key_field = BtreeIndexKeyField {
        component_index: 0,
        order: ASC,
        data_type: number(NumberDataType::Int8),
    };
    let (key_predicates, payload_predicates) = split_btree_fast_predicates(
        &vec![BtreeIndexFastPredicate::Compare {
            column: 0,
            op: BtreeIndexFastCompareOp::Lt,
            constant: int64(1000),
        }],
        &vec![Some(key_field)],
    )
    .unwrap();
    assert!(key_predicates.is_empty());
    assert_eq!(payload_predicates.unwrap().len(), 1);
}

#[test]
fn decimals_are_rescaled() {
    let value = |n: i128| I256::from_i128(n);
    assert_eq!(rescale_decimal_i256(value(12), 1, 3), Some(value(1200)));
    assert_eq!(rescale_decimal_i256(value(-1299), 3, 1), Some(value(-12)));
    assert_eq!(rescale_decimal_i256(value(7), 2, 2), Some(value(7)));
    assert_eq!(rescale_decimal_i256(I256 { high: i128::MAX, low: 0 }, 0, 1), None);
    let size = DecimalSize { precision: 3, scale: 0 };
    assert_eq!(
        decimal_scalar_from_i256(value(999), DecimalDataType::Decimal64(size)),
        Some(DecimalScalar::Decimal64(999, size))
    );
    assert_eq!(decimal_scalar_from_i256(value(1000), DecimalDataType::Decimal64(size)), None);
}
