//! What a filter that is made ready says of a row, whose columns are known by their names.

use std::cmp::Ordering;

use vstd::prelude::*;

use crate::expr::{columns_of, compiled, is_fixed, projected, projected_all, ExprModel};
use crate::expr_meaning::{expr_value, holds_moved, is_row_moved, law_moved_expression_gives_the_same,
    law_moved_filter_is_true_of_the_same, law_unmoved_column_is_told, ExprHost};
use crate::fast::{cell, key_field_at, lemma_position_of, position_of, row_satisfies,
    scalar_ordering, BtreeIndexKeyField, FastPredicateModel};
use crate::filter::{filter_plan, filter_readied, key_fields, lemma_field_index, position_table,
    prefix_equalities, prefix_values, resolved, BtreeIndexFilter, BtreeIndexInfo, BtreeScanError, Filters};
use crate::filter_meaning::{compares, has_fixed_values, is_true, mentions_null, one_mentions_null,
    turns_around};
use crate::filter_parts::{compares_as_keys, fixed_by_prefix, is_told_by_key, key_can_answer,
    key_columns_of, key_holds, law_made_filter_means_the_expression, passes};
use crate::key::components_fit;
use crate::ordered_laws::has_field;
use crate::predicate::{key_predicates_view, op_for, BtreeIndexFastCompareOp};
use crate::scalar::{integer_of, NumberScalar, ScalarModel, TableDataType, TableField};
use crate::text::texts_view;
use crate::types::BtreeIndexKeyOrder;

verus! {

/// The values of a row's columns, in the order of their names.
pub open spec fn named_row(
    names: Seq<Seq<char>>,
    value_of: spec_fn(Seq<char>) -> ScalarModel,
) -> Seq<ScalarModel> {
    Seq::new(names.len(), |i: int| value_of(names[i]))
}

/// The names of the fields.
pub open spec fn field_names(fields: Seq<TableField>) -> Seq<Seq<char>> {
    Seq::new(fields.len(), |i: int| fields[i].name@)
}

/// The values are those of the key columns, each in the order of its column.
pub open spec fn is_key_of_row(
    values: Seq<(ScalarModel, BtreeIndexKeyOrder)>,
    info: BtreeIndexInfo,
    value_of: spec_fn(Seq<char>) -> ScalarModel,
) -> bool {
    &&& values.len() == info.key_columns@.len()
    &&& forall|j: int|
        0 <= j < values.len() ==> {
            &&& (#[trigger] values[j]).0 == value_of(info.key_columns@[j].field.name@)
            &&& values[j].1 is Desc <==> info.key_columns@[j].order is Desc
        }
}

/// The first key columns have the values of the equality prefix.
pub open spec fn has_prefix_values(
    info: BtreeIndexInfo,
    value_of: spec_fn(Seq<char>) -> ScalarModel,
) -> bool {
    forall|j: int|
        0 <= j < info.equality_prefix@.len() && j < info.key_columns@.len() ==> value_of(
            (#[trigger] info.key_columns@[j]).field.name@,
        ) == info.equality_prefix@[j]@
}

/// Values that the host finds equal to one that is not null compare as equal to it.
pub open spec fn finds_equal_what_compares_equal(
    same: spec_fn(ScalarModel, ScalarModel) -> bool,
    direct: spec_fn(ScalarModel, ScalarModel) -> Option<Ordering>,
    as_float: spec_fn(ScalarModel, ScalarModel) -> Option<Ordering>,
) -> bool {
    forall|a: ScalarModel, b: ScalarModel|
        !(b is Null) && #[trigger] same(a, b) ==> !(a is Null) && scalar_ordering(
            a,
            b,
            direct,
            as_float,
        ) == Some(Ordering::Equal)
}

proof fn lemma_resolved(columns: Seq<String>, fields: Seq<TableField>, c: usize)
    requires
        c < columns.len(),
        fields.len() <= usize::MAX,
        resolved(columns, fields)[c as int] is Some,
    ensures
        ({
            let k = resolved(columns, fields)[c as int]->Some_0;
            k < fields.len() && fields[k as int].name@ == columns[c as int]@
        }),
{
    lemma_field_index(fields, columns[c as int]@);
}

proof fn lemma_named_cell(
    names: Seq<Seq<char>>,
    value_of: spec_fn(Seq<char>) -> ScalarModel,
    c: usize,
)
    requires
        c < names.len(),
    ensures
        cell(named_row(names, value_of), c) == Some(value_of(names[c as int])),
{
}

proof fn lemma_row_moved(
    columns: Seq<String>,
    fields: Seq<TableField>,
    value_of: spec_fn(Seq<char>) -> ScalarModel,
)
    requires
        fields.len() <= usize::MAX,
    ensures
        is_row_moved(
            resolved(columns, fields),
            named_row(texts_view(columns), value_of),
            named_row(field_names(fields), value_of),
        ),
{
    let table = resolved(columns, fields);
    let before = named_row(texts_view(columns), value_of);
    let after = named_row(field_names(fields), value_of);
    assert forall|c: usize| c < table.len() && #[trigger] table[c as int] is Some implies cell(
        before,
        c,
    ) == cell(after, table[c as int]->Some_0) by {
        lemma_resolved(columns, fields, c);
        lemma_named_cell(texts_view(columns), value_of, c);
        lemma_named_cell(field_names(fields), value_of, table[c as int]->Some_0);
    }
}

proof fn lemma_moved_mentions_null(expr: ExprModel, columns: Seq<Option<usize>>)
    requires
        projected(expr, columns) is Ok,
    ensures
        mentions_null(projected(expr, columns)->Ok_0) == mentions_null(expr),
    decreases expr,
{
    match expr {
        ExprModel::FunctionCall { args, .. } => {
            lemma_moved_all_mention_null(args, columns);
        },
        ExprModel::Other { args, .. } => {
            lemma_moved_all_mention_null(args, columns);
        },
        _ => {},
    }
}

proof fn lemma_moved_all_mention_null(exprs: Seq<ExprModel>, columns: Seq<Option<usize>>)
    requires
        projected_all(exprs, columns) is Ok,
    ensures
        one_mentions_null(projected_all(exprs, columns)->Ok_0) == one_mentions_null(exprs),
    decreases exprs,
{
    if exprs.len() > 0 {
        lemma_moved_all_mention_null(exprs.drop_last(), columns);
        lemma_moved_mentions_null(exprs.last(), columns);
        let moved = projected_all(exprs, columns)->Ok_0;
        assert(moved.drop_last() =~= projected_all(exprs.drop_last(), columns)->Ok_0);
    }
}

/// What the key says of a column is said of a component of that column.
proof fn lemma_key_fields(info: BtreeIndexInfo, count: int, c: int)
    requires
        0 <= count <= info.key_columns@.len(),
        info.key_columns@.len() <= usize::MAX,
        key_fields(info, count) is Ok,
    ensures
        key_fields(info, count)->Ok_0.len() == info.payload_fields@.len(),
        0 <= c < info.payload_fields@.len() ==> (key_fields(info, count)->Ok_0[c] matches Some(
            field,
        ) ==> {
            let column = info.key_columns@[field.component_index as int];
            &&& field.component_index < count
            &&& column.field.name@ == info.payload_fields@[c].name@
            &&& field.data_type == column.field.data_type
            &&& field.order is Desc <==> column.order is Desc
        }),
    decreases count,
{
    if count > 0 {
        lemma_key_fields(info, count - 1, c);
        lemma_field_index(info.payload_fields@, info.key_columns@[count - 1].field.name@);
    }
}

/// The equality prefix fixes columns of the payload by their names.
proof fn lemma_prefix_fixes(info: BtreeIndexInfo, count: int, i: int)
    requires
        0 <= i < count,
        info.payload_fields@.len() <= usize::MAX,
        prefix_equalities(info, count) is Ok,
    ensures
        prefix_equalities(info, count)->Ok_0.len() == count,
        ({
            let (k, value) = prefix_equalities(info, count)->Ok_0[i];
            &&& k < info.payload_fields@.len()
            &&& info.payload_fields@[k as int].name@ == info.key_columns@[i].field.name@
            &&& value == info.equality_prefix@[i]@
        }),
    decreases count,
{
    lemma_field_index(info.payload_fields@, info.key_columns@[count - 1].field.name@);
    if i < count - 1 {
        lemma_prefix_fixes(info, count - 1, i);
    } else if count > 1 {
        lemma_prefix_fixes(info, count - 1, 0);
    }
}

proof fn lemma_fixed_cell(
    info: BtreeIndexInfo,
    same: spec_fn(ScalarModel, ScalarModel) -> bool,
    value_of: spec_fn(Seq<char>) -> ScalarModel,
    column: usize,
    constant: ScalarModel,
) -> (value: ScalarModel)
    requires
        has_prefix_values(info, value_of),
        prefix_equalities(info, prefix_values(info).len() as int) is Ok,
        is_fixed(fixed_by_prefix(info), column, constant, same),
    ensures
        cell(named_row(field_names(info.payload_fields@), value_of), column) == Some(value),
        same(value, constant),
{
    let equalities = fixed_by_prefix(info);
    let i = choose|i: int|
        0 <= i < equalities.len() && (#[trigger] equalities[i]).0 == column && same(
            equalities[i].1,
            constant,
        );
    let count = prefix_values(info).len() as int;
    assert(info.payload_fields.len() == info.payload_fields@.len());
    if count > 0 {
        lemma_prefix_fixes(info, count, 0);
    }
    lemma_prefix_fixes(info, count, i);
    let key_column = info.key_columns@[i];
    lemma_named_cell(field_names(info.payload_fields@), value_of, column);
    equalities[i].1
}

/// What the key has to be able to answer: each simple filter on a column that is a component of it.
pub open spec fn key_can_answer_all(
    predicates: Seq<FastPredicateModel>,
    info: BtreeIndexInfo,
    value_of: spec_fn(Seq<char>) -> ScalarModel,
    direct: spec_fn(ScalarModel, ScalarModel) -> Option<Ordering>,
    as_float: spec_fn(ScalarModel, ScalarModel) -> Option<Ordering>,
) -> bool {
    forall|i: int, field: BtreeIndexKeyField|
        0 <= i < predicates.len() && is_component_of(
            info,
            field,
            predicates[i].column(),
        ) ==> #[trigger] key_can_answer(
            predicates[i],
            field,
            value_of(component_name(info, field)),
            direct,
            as_float,
        )
}

/// The name of the column of a component.
pub open spec fn component_name(info: BtreeIndexInfo, field: BtreeIndexKeyField) -> Seq<char> {
    info.key_columns@[field.component_index as int].field.name@
}

/// The column of the payload is a component of the key.
pub open spec fn is_component_of(
    info: BtreeIndexInfo,
    field: BtreeIndexKeyField,
    c: usize,
) -> bool {
    let column = info.key_columns@[field.component_index as int];
    &&& c < info.payload_fields@.len()
    &&& field.component_index < info.key_columns@.len()
    &&& column.field.name@ == info.payload_fields@[c as int].name@
    &&& field.data_type == column.field.data_type
    &&& field.order is Desc <==> column.order is Desc
}

proof fn lemma_told(
    info: BtreeIndexInfo,
    column: usize,
    values: Seq<(ScalarModel, BtreeIndexKeyOrder)>,
    value_of: spec_fn(Seq<char>) -> ScalarModel,
)
    requires
        is_key_of_row(values, info, value_of),
        key_fields(info, info.key_columns@.len() as int) is Ok,
    ensures
        key_field_at(key_columns_of(info), column) matches Some(field) ==> {
            &&& is_component_of(info, field, column)
            &&& cell(named_row(field_names(info.payload_fields@), value_of), column) == Some(
                value_of(component_name(info, field)),
            )
            &&& key_holds(
                values,
                field,
                value_of(component_name(info, field)),
            )
        },
{
    let count = info.key_columns@.len() as int;
    assert(info.key_columns.len() == info.key_columns@.len());
    lemma_key_fields(info, count, column as int);
    match key_field_at(key_columns_of(info), column) {
        Some(field) => {
            lemma_named_cell(field_names(info.payload_fields@), value_of, column);
            let held = values[field.component_index as int];
        },
        None => {},
    }
}

/// The filter that is made ready for a scan lets a row pass, whose key begins with the equality
/// prefix, exactly where the expression that was asked for is true of the row's columns, each by its
/// name: it lets every row pass that the expression is true of, and no other, unless the expression
/// compares with null.
pub proof fn law_filter_passes_the_rows_asked_for(
    filter: BtreeIndexFilter,
    info: BtreeIndexInfo,
    filters: Filters,
    same: spec_fn(ScalarModel, ScalarModel) -> bool,
    values: Seq<(ScalarModel, BtreeIndexKeyOrder)>,
    value_of: spec_fn(Seq<char>) -> ScalarModel,
    direct: spec_fn(ScalarModel, ScalarModel) -> Option<Ordering>,
    as_float: spec_fn(ScalarModel, ScalarModel) -> Option<Ordering>,
)
    requires
        filter_readied(info, filters, same, Ok::<_, BtreeScanError>(Some(filter))),
        filter.fast() is Some,
        is_key_of_row(values, info, value_of),
        has_prefix_values(info, value_of),
        components_fit(values),
        compares_as_keys(direct),
        turns_around(direct, as_float),
        finds_equal_what_compares_equal(same, direct, as_float),
        key_can_answer_all(
            compiled(filter_plan(info, filters, same)->Ok_0.0, fixed_by_prefix(info), same)->Some_0,
            info,
            value_of,
            direct,
            as_float,
        ),
    ensures
        ({
            let asked = named_row(texts_view(filters.columns@), value_of);
            let row = named_row(field_names(info.payload_fields@), value_of);
            &&& is_true(filters.expr@, asked, direct, as_float) ==> passes(
                filter,
                values,
                row,
                direct,
                as_float,
            )
            &&& !mentions_null(filters.expr@) && passes(filter, values, row, direct, as_float)
                ==> is_true(filters.expr@, asked, direct, as_float)
        }),
{
    let (expr, keys, parts) = filter_plan(info, filters, same)->Ok_0;
    let left = parts->Some_0;
    assert(parts is Some);
    let asked = named_row(texts_view(filters.columns@), value_of);
    let row = named_row(field_names(info.payload_fields@), value_of);
    let equalities = fixed_by_prefix(info);
    let fields = key_columns_of(info);
    let predicates = compiled(expr, equalities, same)->Some_0;
    let table = resolved(filters.columns@, info.payload_fields@);
    assert(info.payload_fields.len() == info.payload_fields@.len());
    lemma_row_moved(filters.columns@, info.payload_fields@, value_of);
    law_moved_filter_is_true_of_the_same(filters.expr@, table, asked, row, direct, as_float);
    lemma_moved_mentions_null(filters.expr@, table);
    assert(has_fixed_values(row, equalities, same, direct, as_float)) by {
        assert forall|column: usize, constant: ScalarModel|
            !(constant is Null) && #[trigger] is_fixed(
                equalities,
                column,
                constant,
                same,
            ) implies compares(
            BtreeIndexFastCompareOp::Eq,
            cell(row, column),
            Some(constant),
            direct,
            as_float,
        ) by {
            let value = lemma_fixed_cell(info, same, value_of, column, constant);
            assert(same(value, constant));
        }
    }
    assert forall|i: int| 0 <= i < predicates.len() implies is_told_by_key(
        #[trigger] predicates[i],
        fields,
        values,
        row,
        direct,
        as_float,
    ) by {
        lemma_told(info, predicates[i].column(), values, value_of);
        match key_field_at(fields, predicates[i].column()) {
            Some(field) => {
                assert(key_can_answer(
                    predicates[i],
                    field,
                    value_of(component_name(info, field)),
                    direct,
                    as_float,
                ));
            },
            None => {},
        }
    }
    law_made_filter_means_the_expression(
        filter,
        info,
        filters,
        same,
        expr,
        keys,
        left,
        values,
        row,
        direct,
        as_float,
    );
}

/// The values of columns that are known by their names.
pub open spec fn named_columns(
    names: Seq<Seq<char>>,
    value_of: spec_fn(Seq<char>) -> ScalarModel,
) -> spec_fn(usize, TableDataType) -> ScalarModel {
    |c: usize, data_type: TableDataType| value_of(names[c as int])
}

/// A filter that is left to the host is an expression over the columns that are read, and gives of
/// them what the expression that was asked for gives of its columns, each by its name, whatever its
/// functions do; no filter on the key stands beside it.
pub proof fn law_filter_left_to_the_host_gives_what_is_asked_for(
    filter: BtreeIndexFilter,
    info: BtreeIndexInfo,
    filters: Filters,
    same: spec_fn(ScalarModel, ScalarModel) -> bool,
    host: ExprHost,
    value_of: spec_fn(Seq<char>) -> ScalarModel,
)
    requires
        filter_readied(info, filters, same, Ok::<_, BtreeScanError>(Some(filter))),
        filter.fast() is None,
    ensures
        filter.key_predicates@.len() == 0,
        filter.expr matches Some(e) && expr_value(
            e@,
            host,
            named_columns(field_names(filter.payload_fields@), value_of),
        ) == expr_value(
            filters.expr@,
            host,
            named_columns(texts_view(filters.columns@), value_of),
        ),
{
    let (expr, keys, parts) = filter_plan(info, filters, same)->Ok_0;
    assert(parts is None);
    let fields = info.payload_fields@;
    let indexes = filter.payload_field_indexes@;
    let table = resolved(filters.columns@, fields);
    let places = position_table(indexes, fields.len());
    let asked = named_columns(texts_view(filters.columns@), value_of);
    let held = named_columns(field_names(fields), value_of);
    let read = named_columns(field_names(filter.payload_fields@), value_of);
    assert(info.payload_fields.len() == fields.len());
    assert(filter.payload_field_indexes.len() == indexes.len());
    assert(filter.key_predicates@.len() == key_predicates_view(
        filter.key_predicates@,
    ).len());
    assert forall|c: usize, data_type: TableDataType|
        c < table.len() && table[c as int] is Some implies #[trigger] asked(c, data_type) == held(
        table[c as int]->Some_0,
        data_type,
    ) by {
        lemma_resolved(filters.columns@, fields, c);
    }
    assert(holds_moved(table, asked, held));
    law_moved_expression_gives_the_same(filters.expr@, table, host, asked, held);
    assert forall|c: usize, data_type: TableDataType|
        c < places.len() && places[c as int] is Some implies #[trigger] held(c, data_type) == read(
        places[c as int]->Some_0,
        data_type,
    ) by {
        lemma_position_of(indexes, c);
        let k = position_of(indexes, c)->Some_0;
        assert(indexes[k] == c);
    }
    assert(holds_moved(places, held, read));
    law_moved_expression_gives_the_same(expr, places, host, held, read);
}

proof fn lemma_key_fields_fail(info: BtreeIndexInfo, count: int)
    requires
        0 <= count <= info.key_columns@.len(),
        info.key_columns@.len() <= usize::MAX,
        key_fields(info, count) is Err,
    ensures
        key_fields(info, count)->Err_0 matches BtreeScanError::UnknownKeyColumn { component }
            && component < count && !has_field(
            info.payload_fields@,
            info.key_columns@[component as int].field.name@,
        ),
    decreases count,
{
    if key_fields(info, count - 1) is Err {
        lemma_key_fields_fail(info, count - 1);
    } else {
        crate::ordered_laws::lemma_field_index(
            info.payload_fields@,
            info.key_columns@[count - 1].field.name@,
        );
    }
}

proof fn lemma_prefix_fails(info: BtreeIndexInfo, count: int)
    requires
        0 <= count <= info.key_columns@.len(),
        info.key_columns@.len() <= usize::MAX,
        prefix_equalities(info, count) is Err,
    ensures
        prefix_equalities(info, count)->Err_0 matches BtreeScanError::UnknownKeyColumn { component }
            && component < count && !has_field(
            info.payload_fields@,
            info.key_columns@[component as int].field.name@,
        ),
    decreases count,
{
    if prefix_equalities(info, count - 1) is Err {
        lemma_prefix_fails(info, count - 1);
    } else {
        crate::ordered_laws::lemma_field_index(
            info.payload_fields@,
            info.key_columns@[count - 1].field.name@,
        );
    }
}

/// A filter cannot be made ready only where it is over a column that the rows of the index do not
/// hold, or the key is, or a part of it cannot be compared in a key.
pub proof fn law_filter_fails_for_a_missing_column(
    info: BtreeIndexInfo,
    filters: Filters,
    same: spec_fn(ScalarModel, ScalarModel) -> bool,
    e: BtreeScanError,
)
    requires
        filter_readied(info, filters, same, Err::<Option<BtreeIndexFilter>, _>(e)),
    ensures
        match e {
            BtreeScanError::UnknownFilterColumn { column } => columns_of(filters.expr@).contains(
                column,
            ) && (column < filters.columns@.len() ==> !has_field(
                info.payload_fields@,
                filters.columns@[column as int]@,
            )),
            BtreeScanError::UnknownKeyColumn { component } => component < info.key_columns@.len()
                && !has_field(
                info.payload_fields@,
                info.key_columns@[component as int].field.name@,
            ),
            BtreeScanError::MissingPayloadColumn { column, width } => column >= width,
            BtreeScanError::Index { .. } => true,
            _ => false,
        },
{
    let table = resolved(filters.columns@, info.payload_fields@);
    assert(info.key_columns.len() == info.key_columns@.len());
    if projected(filters.expr@, table) is Err {
        let column = projected(filters.expr@, table)->Err_0;
        law_unmoved_column_is_told(filters.expr@, table);
        if column < filters.columns@.len() {
            crate::ordered_laws::lemma_field_index(
                info.payload_fields@,
                filters.columns@[column as int]@,
            );
        }
    } else if prefix_equalities(info, prefix_values(info).len() as int) is Err {
        lemma_prefix_fails(info, prefix_values(info).len() as int);
    } else if key_fields(info, info.key_columns@.len() as int) is Err {
        lemma_key_fields_fail(info, info.key_columns@.len() as int);
    }
}

/// The comparison with this name, of a column with a constant on its right, or on its left, where it
/// is turned around.
pub open spec fn named_comparison(
    name: Seq<char>,
    turned: bool,
    column: usize,
    constant: ScalarModel,
) -> Option<FastPredicateModel> {
    match op_for(name, turned) {
        Some(op) => Some(FastPredicateModel::Compare { column, op, constant }),
        None => None,
    }
}

/// A comparison holds of a row as its name says.
pub open spec fn holds_by_name(
    name: Seq<char>,
    turned: bool,
    column: usize,
    constant: ScalarModel,
    row: Seq<ScalarModel>,
    direct: spec_fn(ScalarModel, ScalarModel) -> Option<Ordering>,
    as_float: spec_fn(ScalarModel, ScalarModel) -> Option<Ordering>,
) -> bool {
    named_comparison(name, turned, column, constant) matches Some(predicate) && row_satisfies(
        predicate,
        row,
        direct,
        as_float,
    )
}

proof fn lemma_names_are_apart()
    ensures
        "eq"@ != "noteq"@,
        "eq"@ != "gt"@,
        "eq"@ != "gte"@,
        "eq"@ != "lt"@,
        "eq"@ != "lte"@,
        "noteq"@ != "gt"@,
        "noteq"@ != "gte"@,
        "noteq"@ != "lt"@,
        "noteq"@ != "lte"@,
        "gt"@ != "gte"@,
        "gt"@ != "lt"@,
        "gt"@ != "lte"@,
        "gte"@ != "lt"@,
        "gte"@ != "lte"@,
        "lt"@ != "lte"@,
{
    reveal_strlit("eq");
    reveal_strlit("noteq");
    reveal_strlit("gt");
    reveal_strlit("gte");
    reveal_strlit("lt");
    reveal_strlit("lte");
    assert("eq"@[0] == 'e');
    assert("gt"@[0] == 'g');
    assert("gte"@[0] == 'g');
    assert("lt"@[0] == 'l');
    assert("lte"@[0] == 'l');
    assert("gt"@.len() != "gte"@.len());
    assert("lt"@.len() != "lte"@.len());
}

/// Integers of different types compare by their values, and a comparison means what its name says,
/// on whichever side the constant stands.
pub proof fn law_integers_compare_by_name(
    a: NumberScalar,
    b: NumberScalar,
    direct: spec_fn(ScalarModel, ScalarModel) -> Option<Ordering>,
    as_float: spec_fn(ScalarModel, ScalarModel) -> Option<Ordering>,
)
    requires
        integer_of(a) is Some,
        integer_of(b) is Some,
        direct(ScalarModel::Number(a), ScalarModel::Number(b)) is None,
    ensures
        ({
            let x = integer_of(a)->Some_0;
            let y = integer_of(b)->Some_0;
            let row = seq![ScalarModel::Number(a)];
            let constant = ScalarModel::Number(b);
            &&& holds_by_name("eq"@, false, 0, constant, row, direct, as_float) <==> x == y
            &&& holds_by_name("noteq"@, false, 0, constant, row, direct, as_float) <==> x != y
            &&& holds_by_name("gt"@, false, 0, constant, row, direct, as_float) <==> x > y
            &&& holds_by_name("gte"@, false, 0, constant, row, direct, as_float) <==> x >= y
            &&& holds_by_name("lt"@, false, 0, constant, row, direct, as_float) <==> x < y
            &&& holds_by_name("lte"@, false, 0, constant, row, direct, as_float) <==> x <= y
            &&& holds_by_name("eq"@, true, 0, constant, row, direct, as_float) <==> y == x
            &&& holds_by_name("noteq"@, true, 0, constant, row, direct, as_float) <==> y != x
            &&& holds_by_name("gt"@, true, 0, constant, row, direct, as_float) <==> y > x
            &&& holds_by_name("gte"@, true, 0, constant, row, direct, as_float) <==> y >= x
            &&& holds_by_name("lt"@, true, 0, constant, row, direct, as_float) <==> y < x
            &&& holds_by_name("lte"@, true, 0, constant, row, direct, as_float) <==> y <= x
        }),
{
    lemma_names_are_apart();
    let row = seq![ScalarModel::Number(a)];
    assert(cell(row, 0) == Some(ScalarModel::Number(a)));
}

} // verus!
