//! A filter that is parted between the key and the payload means what it meant whole.

use std::cmp::Ordering;

use vstd::prelude::*;
use vstd::utf8::encode_utf8;

use crate::error::BtreeIndexError;
use crate::expr::{compiled, ExprModel};
use crate::fast::{cell, encoded_component, key_field_at, key_filter_of, lemma_position_of, parted,
    position_of, row_satisfies, row_satisfies_all, scalar_ordering, BtreeIndexKeyField,
    FastPredicateModel};
use crate::filter::{filter_plan, is_index_set, key_fields, on_positions, predicate_columns,
    prefix_equalities, prefix_values, BtreeIndexFilter, BtreeIndexInfo, BtreeScanError,
    Filters};
use crate::filter_meaning::{has_fixed_values, is_true, law_compiled_filter_means_the_expression,
    mentions_null, turns_around};
use crate::key::{component_at, component_bytes, components_fit, framed, half_range, key_bytes,
    law_key_gives_components_back, lemma_framed_component, value_bytes};
use crate::key_laws::{fixed_value, law_key_filter_compares_values, law_key_filter_tests_for_null,
    law_components_of_texts_order_by_length, law_text_components_tell_apart,
    lemma_component_injective, text_key_ordering};
use crate::lex::{lemma_be_bytes_len, lemma_lex_irreflexive};
use crate::normalize::{lemma_i256_of, normalized, type_size};
use crate::normalize_laws::{is_same_number, law_decimal_constant_keeps_its_number, number_of};
use crate::predicate::{component_satisfies, int_ordering, key_predicates_view, key_satisfies,
    key_satisfies_all, lex_ordering, op_holds, BtreeIndexFastCompareOp, KeyPredicateModel};
use crate::scalar::{integer_of, ColumnKind, DecimalDataType, DecimalScalar, NumberDataType,
    NumberScalar, ScalarModel};
use crate::text::lemma_utf8_injective;
use crate::types::BtreeIndexKeyOrder;
use crate::wide::{lemma_pow10_positive, pow10};

verus! {

/// The type of a number.
pub open spec fn number_type(number: NumberScalar) -> NumberDataType {
    match number {
        NumberScalar::UInt8(_) => NumberDataType::UInt8,
        NumberScalar::UInt16(_) => NumberDataType::UInt16,
        NumberScalar::UInt32(_) => NumberDataType::UInt32,
        NumberScalar::UInt64(_) => NumberDataType::UInt64,
        NumberScalar::Int8(_) => NumberDataType::Int8,
        NumberScalar::Int16(_) => NumberDataType::Int16,
        NumberScalar::Int32(_) => NumberDataType::Int32,
        NumberScalar::Int64(_) => NumberDataType::Int64,
        NumberScalar::Float32(_) => NumberDataType::Float32,
        NumberScalar::Float64(_) => NumberDataType::Float64,
    }
}

/// The type of a decimal.
pub open spec fn decimal_type(decimal: DecimalScalar) -> DecimalDataType {
    match decimal {
        DecimalScalar::Decimal64(_, size) => DecimalDataType::Decimal64(size),
        DecimalScalar::Decimal128(_, size) => DecimalDataType::Decimal128(size),
        DecimalScalar::Decimal256(_, size) => DecimalDataType::Decimal256(size),
    }
}

/// The value is of a kind that key filters read.
pub open spec fn is_of_kind(value: ScalarModel, kind: ColumnKind) -> bool {
    match kind {
        ColumnKind::Boolean => value is Boolean,
        ColumnKind::Number(t) => value matches ScalarModel::Number(n) && number_type(n) == t,
        ColumnKind::Decimal(t) => value matches ScalarModel::Decimal(d) && decimal_type(d) == t,
        ColumnKind::String => value is String,
        ColumnKind::Date => value is Date,
        ColumnKind::Timestamp => value is Timestamp,
        ColumnKind::Variant | ColumnKind::Other(_) => false,
    }
}

/// The value is not null, and a key spells it as it spells null.
pub open spec fn is_spelled_as_null(value: ScalarModel) -> bool {
    !(value is Null) && value_bytes(value) == value_bytes(ScalarModel::Null)
}

/// The value is an integer.
pub open spec fn is_integer(value: ScalarModel) -> bool {
    value matches ScalarModel::Number(n) && integer_of(n) is Some
}

/// The components of the texts stand to each other as their bytes do: they are of one length, or the
/// shorter is the first.
pub open spec fn are_in_key_order(a: Seq<char>, b: Seq<char>) -> bool {
    text_key_ordering(a, b) == lex_ordering(encode_utf8(a), encode_utf8(b))
}

/// How a number stands to another, each given by its digits and how many stand behind the point.
pub open spec fn number_ordering(a: (int, nat), b: (int, nat)) -> Ordering {
    int_ordering(a.0 * pow10(b.1), b.0 * pow10(a.1))
}

/// The constant is the same number as a value of the column, and the host compares the column's value
/// with it as numbers.
pub open spec fn is_compared_as_number(
    constant: ScalarModel,
    kind: ColumnKind,
    value: ScalarModel,
    direct: spec_fn(ScalarModel, ScalarModel) -> Option<Ordering>,
    as_float: spec_fn(ScalarModel, ScalarModel) -> Option<Ordering>,
) -> bool {
    &&& kind is Decimal
    &&& number_of(constant) matches Some(number) && number_of(
        normalized(constant, kind)->Some_0,
    ) matches Some(held) && is_same_number(held, number)
    &&& value is Null || scalar_ordering(value, constant, direct, as_float) == Some(
        number_ordering(number_of(value)->Some_0, number_of(constant)->Some_0),
    )
}

/// The key can answer a comparison of a column's value with a constant: the constant is null, or of
/// the column's kind, or both are integers, or the column is one of decimals and the constant the
/// same number as one of them; of a text it can tell whether it is equal, and how it stands to
/// another where their components stand to each other as their bytes do.
pub open spec fn is_answerable(
    op: BtreeIndexFastCompareOp,
    constant: ScalarModel,
    kind: ColumnKind,
    value: ScalarModel,
    direct: spec_fn(ScalarModel, ScalarModel) -> Option<Ordering>,
    as_float: spec_fn(ScalarModel, ScalarModel) -> Option<Ordering>,
) -> bool {
    ||| is_compared_as_number(constant, kind, value, direct, as_float)
    ||| constant is Null
    ||| is_of_kind(constant, kind) && (kind is String ==> op is Eq || op is NotEq || value is Null
        || are_in_key_order(value->String_0, constant->String_0))
    ||| kind is Number && is_integer(constant)
}

/// The component of a key means the value of its column to a filter, and the filter's constant, as
/// the column holds it, is what it was: the value is null or of the column's kind, neither is spelled
/// as null is, and the constant is not too long for a key.
pub open spec fn key_can_answer(
    predicate: FastPredicateModel,
    field: BtreeIndexKeyField,
    value: ScalarModel,
    direct: spec_fn(ScalarModel, ScalarModel) -> Option<Ordering>,
    as_float: spec_fn(ScalarModel, ScalarModel) -> Option<Ordering>,
) -> bool {
    &&& !is_spelled_as_null(value)
    &&& predicate matches FastPredicateModel::Compare { op, constant, .. } ==> (normalized(
        constant,
        field.data_type.kind,
    ) matches Some(c) ==> {
        &&& value is Null || is_of_kind(value, field.data_type.kind)
        &&& is_answerable(op, constant, field.data_type.kind, value, direct, as_float)
        &&& !is_spelled_as_null(c)
        &&& value_bytes(c).len() < 0x1_0000_0000
    })
}

/// The host compares values as a key holds them: values of one type by the numbers that order them,
/// and integers by their values. It compares texts by their bytes.
pub open spec fn compares_as_keys(
    direct: spec_fn(ScalarModel, ScalarModel) -> Option<Ordering>,
) -> bool {
    &&& forall|a: ScalarModel, b: ScalarModel|
        fixed_value(a) is Some && fixed_value(b) is Some && fixed_value(a)->Some_0.0 == fixed_value(
            b,
        )->Some_0.0 ==> #[trigger] direct(a, b) == Some(
            int_ordering(fixed_value(a)->Some_0.1, fixed_value(b)->Some_0.1),
        )
    &&& forall|a: NumberScalar, b: NumberScalar|
        integer_of(a) is Some && integer_of(b) is Some ==> (#[trigger] direct(
            ScalarModel::Number(a),
            ScalarModel::Number(b),
        ) matches Some(ordering) ==> ordering == int_ordering(
            integer_of(a)->Some_0,
            integer_of(b)->Some_0,
        ))
    &&& forall|a: Seq<char>, b: Seq<char>| #[trigger]
        direct(ScalarModel::String(a), ScalarModel::String(b)) == Some(
            lex_ordering(encode_utf8(a), encode_utf8(b)),
        )
}

proof fn lemma_encoded_component(scalar: ScalarModel, order: BtreeIndexKeyOrder)
    requires
        value_bytes(scalar).len() < 0x1_0000_0000,
    ensures
        encoded_component(scalar, order) == Ok::<_, BtreeIndexError>(
            component_bytes(scalar, order),
        ),
{
    let none = Seq::<u8>::empty();
    let bytes = component_bytes(scalar, order);
    assert(bytes.len() == value_bytes(scalar).len());
    lemma_framed_component(none, bytes, none);
    assert(none + framed(bytes) + none =~= framed(bytes));
    assert(none + framed(bytes) =~= framed(bytes));
}

/// A constant of the column's kind, or an integer for a column of integers, is brought to the
/// column's type without a change of its value.
proof fn lemma_normalized_keeps(constant: ScalarModel, kind: ColumnKind)
    requires
        normalized(constant, kind) is Some,
        !(constant is Null),
        is_of_kind(constant, kind) || kind is Number && is_integer(constant),
    ensures
        is_of_kind(normalized(constant, kind)->Some_0, kind),
        is_of_kind(constant, kind) ==> normalized(constant, kind)->Some_0 == constant,
        is_integer(constant) && kind is Number ==> is_integer(normalized(constant, kind)->Some_0)
            && integer_of(normalized(constant, kind)->Some_0->Number_0) == integer_of(
            constant->Number_0,
        ),
{
    match (kind, constant) {
        (ColumnKind::Decimal(_), ScalarModel::Decimal(decimal)) => {
            assert(pow10(0) == 1);
            match decimal {
                DecimalScalar::Decimal256(v, _) => {
                    lemma_i256_of(v);
                    assert(v@ * 1 == v@);
                },
                DecimalScalar::Decimal128(v, _) => {
                    assert(v * 1 == v);
                },
                DecimalScalar::Decimal64(v, _) => {
                    assert(v * 1 == v);
                },
            }
        },
        _ => {},
    }
}

/// A constant of a decimal column becomes a decimal of the column's type.
proof fn lemma_normalized_decimal(constant: ScalarModel, kind: ColumnKind)
    requires
        normalized(constant, kind) is Some,
        !(constant is Null),
        kind is Decimal,
    ensures
        is_of_kind(normalized(constant, kind)->Some_0, kind),
{
}

/// Decimals of one type stand to each other by their digits, and so to every number that one of
/// them is.
proof fn lemma_number_ordering(value: ScalarModel, held: ScalarModel, constant: ScalarModel)
    requires
        value is Decimal,
        held is Decimal,
        decimal_type(value->Decimal_0) == decimal_type(held->Decimal_0),
        number_of(constant) is Some,
        is_same_number(number_of(held)->Some_0, number_of(constant)->Some_0),
    ensures
        number_ordering(number_of(value)->Some_0, number_of(constant)->Some_0) == int_ordering(
            fixed_value(value)->Some_0.1,
            fixed_value(held)->Some_0.1,
        ),
{
    let (v, t) = number_of(value)->Some_0;
    let (n, u) = number_of(held)->Some_0;
    let (c, s) = number_of(constant)->Some_0;
    assert(t == u);
    let p = pow10(s);
    lemma_pow10_positive(s);
    assert(n * p == c * pow10(t));
    assert((v < n) == (v * p < n * p)) by (nonlinear_arith)
        requires
            p > 0,
    ;
    assert((v == n) == (v * p == n * p)) by (nonlinear_arith)
        requires
            p > 0,
    ;
}

/// Values of one kind, but texts, are of one type.
proof fn lemma_kind_is_type(a: ScalarModel, b: ScalarModel, kind: ColumnKind)
    requires
        is_of_kind(a, kind),
        is_of_kind(b, kind),
        !(kind is String),
    ensures
        fixed_value(a) is Some,
        fixed_value(b) is Some,
        fixed_value(a)->Some_0.0 == fixed_value(b)->Some_0.0,
        a matches ScalarModel::Number(n) ==> (integer_of(n) matches Some(v) ==> fixed_value(
            a,
        )->Some_0.1 == v),
{
}

proof fn lemma_text_bytes(text: Seq<char>)
    ensures
        encode_utf8(text).len() < value_bytes(ScalarModel::String(text)).len(),
{
    lemma_be_bytes_len(encode_utf8(text).len() as int, 4);
}

/// The key filter that a comparison was made into is that comparison.
proof fn lemma_key_compares(
    op: BtreeIndexFastCompareOp,
    constant: ScalarModel,
    field: BtreeIndexKeyField,
    value: ScalarModel,
    filter: KeyPredicateModel,
    direct: spec_fn(ScalarModel, ScalarModel) -> Option<Ordering>,
    as_float: spec_fn(ScalarModel, ScalarModel) -> Option<Ordering>,
)
    requires
        compares_as_keys(direct),
        key_filter_of(FastPredicateModel::Compare { column: 0, op, constant }, field) == Ok::<
            _,
            BtreeIndexError,
        >(Some(filter)),
        key_can_answer(
            FastPredicateModel::Compare { column: 0, op, constant },
            field,
            value,
            direct,
            as_float,
        ),
        value_bytes(value).len() < 0x1_0000_0000,
    ensures
        component_satisfies(filter, component_bytes(value, field.order)) == row_satisfies(
            FastPredicateModel::Compare { column: 0, op, constant },
            seq![value],
            direct,
            as_float,
        ),
{
    let kind = field.data_type.kind;
    let order = field.order;
    lemma_encoded_component(ScalarModel::Null, order);
    let c = normalized(constant, kind)->Some_0;
    lemma_encoded_component(c, order);
    lemma_component_injective(value, ScalarModel::Null, order);
    assert(cell(seq![value], 0) == Some(value));
    if !(value is Null) && !(constant is Null) && is_compared_as_number(
        constant,
        kind,
        value,
        direct,
        as_float,
    ) {
        lemma_normalized_decimal(constant, kind);
        lemma_kind_is_type(value, c, kind);
        lemma_kind_is_type(c, value, kind);
        law_key_filter_compares_values(value, c, op, order, field.component_index);
        lemma_number_ordering(value, c, constant);
    } else if !(value is Null) && !(constant is Null) {
        lemma_normalized_keeps(constant, kind);
        if kind is String {
            let a = value->String_0;
            let b = constant->String_0;
            law_text_components_tell_apart(a, b, order);
            law_components_of_texts_order_by_length(a, b, order);
            lemma_component_injective(c, ScalarModel::Null, order);
            lemma_text_bytes(a);
            lemma_text_bytes(b);
            if encode_utf8(a) == encode_utf8(b) {
                lemma_utf8_injective(a, b);
            }
            lemma_lex_irreflexive(encode_utf8(a));
            assert(direct(ScalarModel::String(a), ScalarModel::String(b)) is Some);
        } else {
            lemma_kind_is_type(value, c, kind);
            lemma_kind_is_type(c, value, kind);
            law_key_filter_compares_values(value, c, op, order, field.component_index);
            if is_of_kind(constant, kind) {
                assert(direct(value, constant) is Some);
            } else {
                let a = value->Number_0;
                let b = constant->Number_0;
                assert(direct(ScalarModel::Number(a), ScalarModel::Number(b)) is Some
                    || direct(value, constant) is None);
            }
        }
    }
}

proof fn lemma_decimal_is_not_null(value: ScalarModel)
    requires
        value is Decimal,
    ensures
        !is_spelled_as_null(value),
        value_bytes(value).len() < 0x1_0000_0000,
{
    match value->Decimal_0 {
        DecimalScalar::Decimal64(v, size) => {
            lemma_be_bytes_len(v + half_range(8), 8);
        },
        DecimalScalar::Decimal128(v, size) => {
            lemma_be_bytes_len(v + half_range(16), 16);
        },
        DecimalScalar::Decimal256(v, size) => {
            lemma_be_bytes_len(v@ + half_range(32), 32);
        },
    }
    assert(value_bytes(value).len() > 1);
}

/// A filter that compares a decimal key column with a number, be it an integer or a decimal of
/// another size, holds of a key exactly where the column's value and the constant stand to each
/// other so as numbers, if the constant has no more digits behind the point than the column.
pub proof fn law_decimal_key_filter_compares_numbers(
    value: DecimalScalar,
    constant: ScalarModel,
    op: BtreeIndexFastCompareOp,
    field: BtreeIndexKeyField,
    column: usize,
    filter: KeyPredicateModel,
)
    requires
        field.data_type.kind == ColumnKind::Decimal(decimal_type(value)),
        number_of(constant) is Some,
        number_of(constant)->Some_0.1 <= type_size(decimal_type(value)).scale,
        key_filter_of(FastPredicateModel::Compare { column, op, constant }, field) == Ok::<
            _,
            BtreeIndexError,
        >(Some(filter)),
    ensures
        component_satisfies(filter, component_bytes(ScalarModel::Decimal(value), field.order))
            == op_holds(
            op,
            number_ordering(
                number_of(ScalarModel::Decimal(value))->Some_0,
                number_of(constant)->Some_0,
            ),
        ),
{
    let v = ScalarModel::Decimal(value);
    let kind = field.data_type.kind;
    lemma_encoded_component(ScalarModel::Null, field.order);
    let c = normalized(constant, kind)->Some_0;
    law_decimal_constant_keeps_its_number(constant, decimal_type(value));
    lemma_decimal_is_not_null(v);
    lemma_decimal_is_not_null(c);
    lemma_encoded_component(c, field.order);
    lemma_kind_is_type(v, c, kind);
    law_key_filter_compares_values(v, c, op, field.order, field.component_index);
    lemma_number_ordering(v, c, constant);
}

/// The key has the values of the columns that stand in it.
pub open spec fn key_holds(
    values: Seq<(ScalarModel, BtreeIndexKeyOrder)>,
    field: BtreeIndexKeyField,
    value: ScalarModel,
) -> bool {
    field.component_index < values.len() && values[field.component_index as int] == (
        value,
        field.order,
    )
}

proof fn lemma_held_component(
    values: Seq<(ScalarModel, BtreeIndexKeyOrder)>,
    field: BtreeIndexKeyField,
    value: ScalarModel,
)
    requires
        components_fit(values),
        key_holds(values, field, value),
    ensures
        component_at(key_bytes(values), field.component_index as nat) == Some(
            component_bytes(value, field.order),
        ),
{
    law_key_gives_components_back(values, field.component_index as nat);
}

/// What is asked of a filter on a column of the key: the row has the column, the key holds its
/// value, and it can answer.
pub open spec fn is_told_by_key(
    predicate: FastPredicateModel,
    key_fields: Seq<Option<BtreeIndexKeyField>>,
    values: Seq<(ScalarModel, BtreeIndexKeyOrder)>,
    row: Seq<ScalarModel>,
    direct: spec_fn(ScalarModel, ScalarModel) -> Option<Ordering>,
    as_float: spec_fn(ScalarModel, ScalarModel) -> Option<Ordering>,
) -> bool {
    key_field_at(key_fields, predicate.column()) matches Some(field) ==> {
        &&& cell(row, predicate.column()) matches Some(value)
        &&& key_holds(values, field, value)
        &&& key_can_answer(predicate, field, value, direct, as_float)
    }
}

proof fn lemma_key_filter_means(
    predicate: FastPredicateModel,
    field: BtreeIndexKeyField,
    filter: KeyPredicateModel,
    values: Seq<(ScalarModel, BtreeIndexKeyOrder)>,
    row: Seq<ScalarModel>,
    value: ScalarModel,
    direct: spec_fn(ScalarModel, ScalarModel) -> Option<Ordering>,
    as_float: spec_fn(ScalarModel, ScalarModel) -> Option<Ordering>,
)
    requires
        components_fit(values),
        compares_as_keys(direct),
        key_filter_of(predicate, field) == Ok::<_, BtreeIndexError>(Some(filter)),
        cell(row, predicate.column()) == Some(value),
        key_holds(values, field, value),
        key_can_answer(predicate, field, value, direct, as_float),
    ensures
        key_satisfies(filter, key_bytes(values)) == row_satisfies(predicate, row, direct, as_float),
{
    lemma_encoded_component(ScalarModel::Null, field.order);
    lemma_held_component(values, field, value);
    assert(filter.component_index == field.component_index);
    match predicate {
        FastPredicateModel::Compare { op, constant, .. } => {
            lemma_key_compares(op, constant, field, value, filter, direct, as_float);
        },
        _ => {
            law_key_filter_tests_for_null(value, field.order, field.component_index);
        },
    }
}

proof fn lemma_satisfies_push(
    predicates: Seq<FastPredicateModel>,
    row: Seq<ScalarModel>,
    direct: spec_fn(ScalarModel, ScalarModel) -> Option<Ordering>,
    as_float: spec_fn(ScalarModel, ScalarModel) -> Option<Ordering>,
)
    requires
        predicates.len() > 0,
    ensures
        row_satisfies_all(predicates, row, direct, as_float) == (row_satisfies_all(
            predicates.drop_last(),
            row,
            direct,
            as_float,
        ) && row_satisfies(predicates.last(), row, direct, as_float)),
{
    let head = predicates.drop_last();
    let n = predicates.len() - 1;
    if row_satisfies_all(predicates, row, direct, as_float) {
        assert(row_satisfies(predicates[n], row, direct, as_float));
        assert forall|i: int| 0 <= i < head.len() implies row_satisfies(
            #[trigger] head[i],
            row,
            direct,
            as_float,
        ) by {
            assert(head[i] == predicates[i]);
        }
    }
    if row_satisfies_all(head, row, direct, as_float) && row_satisfies(
        predicates.last(),
        row,
        direct,
        as_float,
    ) {
        assert forall|i: int| 0 <= i < predicates.len() implies row_satisfies(
            #[trigger] predicates[i],
            row,
            direct,
            as_float,
        ) by {
            if i < n {
                assert(head[i] == predicates[i]);
            }
        }
    }
}

proof fn lemma_key_satisfies_push(filters: Seq<KeyPredicateModel>, key: Seq<u8>)
    requires
        filters.len() > 0,
    ensures
        key_satisfies_all(filters, key) == (key_satisfies_all(filters.drop_last(), key)
            && key_satisfies(filters.last(), key)),
{
    let head = filters.drop_last();
    let n = filters.len() - 1;
    if key_satisfies_all(filters, key) {
        assert(key_satisfies(filters[n], key));
        assert forall|i: int| 0 <= i < head.len() implies key_satisfies(#[trigger] head[i], key) by {
            assert(head[i] == filters[i]);
        }
    }
    if key_satisfies_all(head, key) && key_satisfies(filters.last(), key) {
        assert forall|i: int| 0 <= i < filters.len() implies key_satisfies(
            #[trigger] filters[i],
            key,
        ) by {
            if i < n {
                assert(head[i] == filters[i]);
            }
        }
    }
}

/// Filters that are parted into filters on the key and filters on the payload hold together of the
/// key and the row where they held of the row, whole.
pub proof fn law_parted_filters_mean_the_same(
    predicates: Seq<FastPredicateModel>,
    key_fields: Seq<Option<BtreeIndexKeyField>>,
    values: Seq<(ScalarModel, BtreeIndexKeyOrder)>,
    row: Seq<ScalarModel>,
    direct: spec_fn(ScalarModel, ScalarModel) -> Option<Ordering>,
    as_float: spec_fn(ScalarModel, ScalarModel) -> Option<Ordering>,
)
    requires
        parted(predicates, key_fields) is Ok,
        components_fit(values),
        compares_as_keys(direct),
        forall|i: int|
            0 <= i < predicates.len() ==> is_told_by_key(
                #[trigger] predicates[i],
                key_fields,
                values,
                row,
                direct,
                as_float,
            ),
    ensures
        ({
            let parts = parted(predicates, key_fields)->Ok_0;
            row_satisfies_all(predicates, row, direct, as_float) == (key_satisfies_all(
                parts.0,
                key_bytes(values),
            ) && row_satisfies_all(parts.1, row, direct, as_float))
        }),
    decreases predicates.len(),
{
    let key = key_bytes(values);
    if predicates.len() > 0 {
        let head = predicates.drop_last();
        let last = predicates.last();
        let n = predicates.len() - 1;
        assert(is_told_by_key(predicates[n], key_fields, values, row, direct, as_float));
        assert forall|i: int| 0 <= i < head.len() implies is_told_by_key(
            #[trigger] head[i],
            key_fields,
            values,
            row,
            direct,
            as_float,
        ) by {
            assert(head[i] == predicates[i]);
        }
        law_parted_filters_mean_the_same(head, key_fields, values, row, direct, as_float);
        lemma_satisfies_push(predicates, row, direct, as_float);
        let before = parted(head, key_fields)->Ok_0;
        let now = parted(predicates, key_fields)->Ok_0;
        if now.0 == before.0 {
            assert(now.1 == before.1.push(last));
            assert(now.1.drop_last() =~= before.1);
            lemma_satisfies_push(now.1, row, direct, as_float);
        } else {
            let field = key_field_at(key_fields, last.column())->Some_0;
            let filter = key_filter_of(last, field)->Ok_0->Some_0;
            assert(now.0 == before.0.push(filter));
            assert(now.0.drop_last() =~= before.0);
            lemma_key_satisfies_push(now.0, key);
            lemma_key_filter_means(
                last,
                field,
                filter,
                values,
                row,
                cell(row, last.column())->Some_0,
                direct,
                as_float,
            );
        }
    }
}

/// The values of the columns that are read.
pub open spec fn picked(row: Seq<ScalarModel>, indexes: Seq<usize>) -> Seq<ScalarModel> {
    Seq::new(indexes.len(), |i: int| row[indexes[i] as int])
}

proof fn lemma_picked_cell(
    predicates: Seq<FastPredicateModel>,
    indexes: Seq<usize>,
    row: Seq<ScalarModel>,
    i: int,
)
    requires
        0 <= i < predicates.len(),
        indexes.len() <= usize::MAX,
        indexes.contains(predicates[i].column()),
        forall|k: int| 0 <= k < indexes.len() ==> (#[trigger] indexes[k]) < row.len(),
    ensures
        ({
            let moved = on_positions(predicates, indexes)[i];
            &&& moved == predicates[i].on(moved.column())
            &&& cell(picked(row, indexes), moved.column()) == cell(row, predicates[i].column())
        }),
{
    let column = predicates[i].column();
    lemma_position_of(indexes, column);
    let k = position_of(indexes, column)->Some_0;
    assert(indexes[k] == column);
    assert(on_positions(predicates, indexes)[i] == predicates[i].on(k as usize));
}

/// Filters on the positions of their columns among those that are read hold of what is read where
/// they held of the row.
pub proof fn law_moved_filters_mean_the_same(
    predicates: Seq<FastPredicateModel>,
    indexes: Seq<usize>,
    row: Seq<ScalarModel>,
    direct: spec_fn(ScalarModel, ScalarModel) -> Option<Ordering>,
    as_float: spec_fn(ScalarModel, ScalarModel) -> Option<Ordering>,
)
    requires
        indexes.len() <= usize::MAX,
        forall|c: usize| #[trigger]
            predicate_columns(predicates).contains(c) ==> indexes.contains(c),
        forall|k: int| 0 <= k < indexes.len() ==> (#[trigger] indexes[k]) < row.len(),
    ensures
        row_satisfies_all(on_positions(predicates, indexes), picked(row, indexes), direct, as_float)
            == row_satisfies_all(predicates, row, direct, as_float),
{
    let moved = on_positions(predicates, indexes);
    let read = picked(row, indexes);
    assert forall|i: int| 0 <= i < predicates.len() implies row_satisfies(
        #[trigger] moved[i],
        read,
        direct,
        as_float,
    ) == row_satisfies(predicates[i], row, direct, as_float) by {
        assert(predicate_columns(predicates)[i] == predicates[i].column());
        assert(predicate_columns(predicates).contains(predicates[i].column()));
        lemma_picked_cell(predicates, indexes, row, i);
    }
    if row_satisfies_all(moved, read, direct, as_float) {
        assert forall|i: int| 0 <= i < predicates.len() implies row_satisfies(
            #[trigger] predicates[i],
            row,
            direct,
            as_float,
        ) by {
            assert(row_satisfies(moved[i], read, direct, as_float));
        }
    }
    if row_satisfies_all(predicates, row, direct, as_float) {
        assert forall|i: int| 0 <= i < moved.len() implies row_satisfies(
            #[trigger] moved[i],
            read,
            direct,
            as_float,
        ) by {
            assert(row_satisfies(predicates[i], row, direct, as_float));
        }
    }
}

/// The filters on the key and, read by their positions, those that are left to the payload hold
/// together where the filters that they were made of hold of the row.
pub proof fn law_parts_of_a_filter_mean_the_whole(
    predicates: Seq<FastPredicateModel>,
    key_fields: Seq<Option<BtreeIndexKeyField>>,
    indexes: Seq<usize>,
    values: Seq<(ScalarModel, BtreeIndexKeyOrder)>,
    row: Seq<ScalarModel>,
    direct: spec_fn(ScalarModel, ScalarModel) -> Option<Ordering>,
    as_float: spec_fn(ScalarModel, ScalarModel) -> Option<Ordering>,
)
    requires
        parted(predicates, key_fields) is Ok,
        indexes.len() <= usize::MAX,
        forall|c: usize| #[trigger]
            predicate_columns(parted(predicates, key_fields)->Ok_0.1).contains(c)
                ==> indexes.contains(c),
        forall|k: int| 0 <= k < indexes.len() ==> (#[trigger] indexes[k]) < row.len(),
        components_fit(values),
        compares_as_keys(direct),
        forall|i: int|
            0 <= i < predicates.len() ==> is_told_by_key(
                #[trigger] predicates[i],
                key_fields,
                values,
                row,
                direct,
                as_float,
            ),
    ensures
        ({
            let parts = parted(predicates, key_fields)->Ok_0;
            (key_satisfies_all(parts.0, key_bytes(values)) && row_satisfies_all(
                on_positions(parts.1, indexes),
                picked(row, indexes),
                direct,
                as_float,
            )) == row_satisfies_all(predicates, row, direct, as_float)
        }),
{
    law_parted_filters_mean_the_same(predicates, key_fields, values, row, direct, as_float);
    let parts = parted(predicates, key_fields)->Ok_0;
    law_moved_filters_mean_the_same(parts.1, indexes, row, direct, as_float);
}

/// The columns of the payload that the equality prefix fixes, with their values.
pub open spec fn fixed_by_prefix(info: BtreeIndexInfo) -> Seq<(usize, ScalarModel)> {
    prefix_equalities(info, prefix_values(info).len() as int)->Ok_0
}

/// What the key says of the columns of the payload.
pub open spec fn key_columns_of(info: BtreeIndexInfo) -> Seq<Option<BtreeIndexKeyField>> {
    key_fields(info, info.key_columns@.len() as int)->Ok_0
}

/// A row passes a filter that is a conjunction of simple ones: its key passes the filters on the
/// key, and what is read of its payload those that are left.
pub open spec fn passes(
    filter: BtreeIndexFilter,
    values: Seq<(ScalarModel, BtreeIndexKeyOrder)>,
    row: Seq<ScalarModel>,
    direct: spec_fn(ScalarModel, ScalarModel) -> Option<Ordering>,
    as_float: spec_fn(ScalarModel, ScalarModel) -> Option<Ordering>,
) -> bool {
    &&& key_satisfies_all(key_predicates_view(filter.key_predicates@), key_bytes(values))
    &&& row_satisfies_all(
        filter.fast()->Some_0,
        picked(row, filter.payload_field_indexes@),
        direct,
        as_float,
    )
}

/// The filter that is made ready for a scan is the complete filter: of the rows that have the values
/// of the equality prefix, those pass it that the expression is true of, and no others, unless the
/// expression compares with null.
pub proof fn law_made_filter_means_the_expression(
    filter: BtreeIndexFilter,
    info: BtreeIndexInfo,
    filters: Filters,
    same: spec_fn(ScalarModel, ScalarModel) -> bool,
    expr: ExprModel,
    keys: Seq<KeyPredicateModel>,
    left: Seq<FastPredicateModel>,
    values: Seq<(ScalarModel, BtreeIndexKeyOrder)>,
    row: Seq<ScalarModel>,
    direct: spec_fn(ScalarModel, ScalarModel) -> Option<Ordering>,
    as_float: spec_fn(ScalarModel, ScalarModel) -> Option<Ordering>,
)
    requires
        filter_plan(info, filters, same) == Ok::<_, BtreeScanError>(
            (expr, keys, Some(left)),
        ),
        filter.follows(info, expr, keys, Some(left)),
        row.len() == info.payload_fields@.len(),
        components_fit(values),
        compares_as_keys(direct),
        turns_around(direct, as_float),
        ({
            let equalities = fixed_by_prefix(info);
            let fields = key_columns_of(info);
            let predicates = compiled(expr, equalities, same)->Some_0;
            &&& has_fixed_values(row, equalities, same, direct, as_float)
            &&& forall|i: int|
                0 <= i < predicates.len() ==> is_told_by_key(
                    #[trigger] predicates[i],
                    fields,
                    values,
                    row,
                    direct,
                    as_float,
                )
        }),
    ensures
        is_true(expr, row, direct, as_float) ==> passes(filter, values, row, direct, as_float),
        !mentions_null(expr) && passes(filter, values, row, direct, as_float) ==> is_true(
            expr,
            row,
            direct,
            as_float,
        ),
{
    let equalities = fixed_by_prefix(info);
    let fields = key_columns_of(info);
    let predicates = compiled(expr, equalities, same)->Some_0;
    let indexes = filter.payload_field_indexes@;
    assert(parted(predicates, fields) == Ok::<_, BtreeIndexError>((keys, left)));
    assert(filter.payload_field_indexes.len() == indexes.len());
    assert(is_index_set(indexes, predicate_columns(left)));
    law_parts_of_a_filter_mean_the_whole(
        predicates,
        fields,
        indexes,
        values,
        row,
        direct,
        as_float,
    );
    law_compiled_filter_means_the_expression(expr, equalities, same, row, direct, as_float);
}

} // verus!
