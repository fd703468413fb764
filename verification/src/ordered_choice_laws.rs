//! When an ordered index is chosen for a scan, in terms of the predicates and the order of the scan.

use vstd::prelude::*;

use crate::columns::{symbol_of_field, ColumnEntry};
use crate::expr::columns_of;
use crate::filter::{field_index, BtreeIndexInfo, FiltersModel};
use crate::ordered_index::{covers_all, extra_filtered_keys, filter_names, filtered_keys,
    is_filtered_key, keeps_order, key_symbol, names_at, sorts_by};
use crate::ordered_laws::{has_column, has_field, lemma_best, lemma_field_index, lemma_key_symbol,
    lemma_symbol_found};
use crate::ordered_scan::{candidate_of, chooses_index, column_covered,
    fixed_prefix, ordered_count, ordered_query, OrderedQuery};
use crate::scalar::{lemma_scalars_view, ScalarModel, TableField};
use crate::scalar_expr::{fixed_constant, plan_exprs_view, with_all_constants, with_constants,
    PlanExprModel};
use crate::scan::{Scan, SortItem};
use crate::table_meta::{covered_fields, field_with_id, ids_of, key_columns_of, TableIndex,
    TableIndexColumn, TableMeta};

verus! {

/// The predicate asks for the part: it is the part, or a conjunction one of whose arguments asks for
/// it.
pub open spec fn has_conjunct(expr: PlanExprModel, part: PlanExprModel) -> bool
    decreases expr,
{
    expr == part || match expr {
        PlanExprModel::Call { func_name, arguments, .. } => (func_name == "and"@ || func_name
            == "and_filters"@) && one_has_conjunct(arguments, part),
        _ => false,
    }
}

/// One of the predicates asks for the part.
pub open spec fn one_has_conjunct(exprs: Seq<PlanExprModel>, part: PlanExprModel) -> bool
    decreases exprs,
{
    exprs.len() > 0 && (one_has_conjunct(exprs.drop_last(), part) || has_conjunct(
        exprs.last(),
        part,
    ))
}

/// The predicate asks that the column equals a constant, or that it is null.
pub open spec fn tests_equality(expr: PlanExprModel, column: usize) -> bool {
    match expr {
        PlanExprModel::Call { func_name, arguments, .. } => {
            ||| func_name == "eq"@ && arguments.len() == 2 && (arguments[0]
                == PlanExprModel::Column(column) && arguments[1] is Constant || arguments[1]
                == PlanExprModel::Column(column) && arguments[0] is Constant)
            ||| func_name == "not"@ && arguments.len() == 1 && (arguments[0] matches
                PlanExprModel::Call { func_name: inner_name, arguments: inner, .. } && inner_name
                == "is_not_null"@ && inner.len() == 1 && inner[0] == PlanExprModel::Column(column))
        },
        _ => false,
    }
}

proof fn lemma_names_are_apart()
    ensures
        "and"@ != "eq"@ && "and"@ != "not"@ && "and_filters"@ != "eq"@ && "and_filters"@ != "not"@,
        "eq"@ != "not"@,
{
    reveal_strlit("and");
    reveal_strlit("and_filters");
    reveal_strlit("eq");
    reveal_strlit("not");
    assert("and"@[0] == 'a' && "and_filters"@[0] == 'a' && "eq"@[0] == 'e' && "not"@[0] == 'n');
}

proof fn lemma_equality_fixes(expr: PlanExprModel, column: usize)
    ensures
        tests_equality(expr, column) <==> (fixed_constant(expr) matches Some((c, _)) && c
            == column),
{
    lemma_names_are_apart();
}

proof fn lemma_constants_of_one(
    expr: PlanExprModel,
    known: Map<usize, ScalarModel>,
    column: usize,
)
    ensures
        with_constants(expr, known).contains_key(column) <==> known.contains_key(column) || exists|
            part: PlanExprModel,
        | #[trigger] has_conjunct(expr, part) && tests_equality(part, column),
    decreases expr, 0nat,
{
    lemma_names_are_apart();
    match expr {
        PlanExprModel::Call { func_name, arguments, .. } => {
            if func_name == "and"@ || func_name == "and_filters"@ {
                lemma_constants_of_all(arguments, known, column);
                if exists|part: PlanExprModel| #[trigger]
                    one_has_conjunct(arguments, part) && tests_equality(part, column) {
                    let part = choose|part: PlanExprModel| #[trigger]
                        one_has_conjunct(arguments, part) && tests_equality(part, column);
                    assert(has_conjunct(expr, part));
                }
                if exists|part: PlanExprModel| #[trigger]
                    has_conjunct(expr, part) && tests_equality(part, column) {
                    let part = choose|part: PlanExprModel| #[trigger]
                        has_conjunct(expr, part) && tests_equality(part, column);
                    assert(one_has_conjunct(arguments, part));
                }
            } else {
                lemma_equality_fixes(expr, column);
                assert(has_conjunct(expr, expr));
            }
        },
        _ => {
            lemma_equality_fixes(expr, column);
            assert(has_conjunct(expr, expr));
        },
    }
}

proof fn lemma_constants_of_all(
    exprs: Seq<PlanExprModel>,
    known: Map<usize, ScalarModel>,
    column: usize,
)
    ensures
        with_all_constants(exprs, known).contains_key(column) <==> known.contains_key(column)
            || exists|part: PlanExprModel| #[trigger]
            one_has_conjunct(exprs, part) && tests_equality(part, column),
    decreases exprs, 1nat,
{
    if exprs.len() > 0 {
        let head = exprs.drop_last();
        lemma_constants_of_all(head, known, column);
        lemma_constants_of_one(exprs.last(), with_all_constants(head, known), column);
        if exists|part: PlanExprModel| #[trigger]
            one_has_conjunct(head, part) && tests_equality(part, column) {
            let part = choose|part: PlanExprModel| #[trigger]
                one_has_conjunct(head, part) && tests_equality(part, column);
            assert(one_has_conjunct(exprs, part));
        }
        if exists|part: PlanExprModel| #[trigger]
            has_conjunct(exprs.last(), part) && tests_equality(part, column) {
            let part = choose|part: PlanExprModel| #[trigger]
                has_conjunct(exprs.last(), part) && tests_equality(part, column);
            assert(one_has_conjunct(exprs, part));
        }
        if exists|part: PlanExprModel| #[trigger]
            one_has_conjunct(exprs, part) && tests_equality(part, column) {
            let part = choose|part: PlanExprModel| #[trigger]
                one_has_conjunct(exprs, part) && tests_equality(part, column);
            assert(one_has_conjunct(head, part) || has_conjunct(exprs.last(), part));
        }
    } else {
        assert forall|part: PlanExprModel| !#[trigger] one_has_conjunct(exprs, part) by {}
    }
}

/// Several predicates fix exactly the columns that one of them, or an argument of a conjunction among
/// them, asks to equal a constant or to be null.
pub proof fn law_predicates_fix_what_they_equate(exprs: Seq<PlanExprModel>, column: usize)
    ensures
        with_all_constants(exprs, Map::empty()).contains_key(column) <==> exists|
            part: PlanExprModel,
        | #[trigger] one_has_conjunct(exprs, part) && tests_equality(part, column),
{
    lemma_constants_of_all(exprs, Map::empty(), column);
}

/// Each column of the table stands in the plan under one symbol.
pub open spec fn has_each_column_once(columns: Seq<ColumnEntry>, table_index: usize) -> bool {
    forall|name: Seq<char>, s: usize, t: usize|
        #[trigger] has_column(columns, table_index, name, s) && #[trigger] has_column(
            columns,
            table_index,
            name,
            t,
        ) ==> s == t
}

/// One of the scan's predicates equates the column.
pub open spec fn is_equated(scan: Scan, column: usize) -> bool {
    exists|part: PlanExprModel| #[trigger]
        one_has_conjunct(plan_exprs_view(scan.push_down_predicates->Some_0@), part)
            && tests_equality(part, column)
}

proof fn lemma_prefix_stops(query: OrderedQuery, key_columns: Seq<TableIndexColumn>)
    requires
        fixed_prefix(query, key_columns) is Some,
        fixed_prefix(query, key_columns)->Some_0.len() < key_columns.len(),
    ensures
        ({
            let p = fixed_prefix(query, key_columns)->Some_0.len();
            key_symbol(query.schema, query.columns, query.table_index, key_columns[p as int]) matches Some(
                symbol,
            ) && !query.constants.contains_key(symbol)
        }),
    decreases key_columns.len(),
{
    let symbol = key_symbol(
        query.schema,
        query.columns,
        query.table_index,
        key_columns[0],
    )->Some_0;
    if query.constants.contains_key(symbol) {
        lemma_prefix_stops(query, key_columns.skip(1));
        let p = fixed_prefix(query, key_columns)->Some_0.len();
        assert(key_columns.skip(1)[p - 1] == key_columns[p as int]);
    }
}

/// The equality prefix of a scan of an index is as long as the predicates allow: the key column
/// behind it is one that no predicate equates.
pub proof fn law_equality_prefix_is_as_long_as_it_can_be(
    info: BtreeIndexInfo,
    scan: Scan,
    table_meta: TableMeta,
    columns: Seq<ColumnEntry>,
    filters: Option<FiltersModel>,
    symbol: usize,
)
    requires
        chooses_index(Some(info), scan, table_meta, columns, filters),
        has_each_column_once(columns, scan.table_index),
        is_equated(scan, symbol),
    ensures
        info.equality_prefix@.len() < info.key_columns@.len(),
        !has_column(
            columns,
            scan.table_index,
            info.key_columns@[info.equality_prefix@.len() as int].field.name@,
            symbol,
        ),
{
    let query = ordered_query(scan, table_meta, columns, filters);
    let k = lemma_best(info, scan, table_meta, columns, filters);
    let key_columns = key_columns_of(table_meta.indexes@[k]);
    lemma_scalars_view(info.equality_prefix@);
    lemma_prefix_stops(query, key_columns);
    let p = info.equality_prefix@.len() as int;
    let found = key_symbol(query.schema, columns, scan.table_index, key_columns[p])->Some_0;
    let field = info.key_columns@[p].field;
    assert(field_with_id(query.schema, key_columns[p].column_id) == Some(field));
    lemma_key_symbol(query, key_columns[p], field, found);
    law_predicates_fix_what_they_equate(
        plan_exprs_view(scan.push_down_predicates->Some_0@),
        symbol,
    );
}

/// The name of a key column.
pub open spec fn key_name(schema: Seq<TableField>, key_column: TableIndexColumn) -> Seq<char> {
    field_with_id(schema, key_column.column_id)->Some_0.name@
}

/// The filter is over the column with this name.
pub open spec fn is_filtered(filters: Option<FiltersModel>, name: Seq<char>) -> bool {
    filters matches Some(given) && exists|c: usize| #[trigger]
        columns_of(given.expr).contains(c) && c < given.columns.len() && given.columns[c as int]
            == name
}

proof fn lemma_filter_names(filters: Option<FiltersModel>, name: Seq<char>)
    ensures
        filter_names(filters).contains(name) <==> is_filtered(filters, name),
{
    if filters is Some {
        let given = filters->Some_0;
        let places = columns_of(given.expr);
        if names_at(given.columns, places).contains(name) {
            let i = choose|i: int|
                0 <= i < places.len() && (#[trigger] places[i]) < given.columns.len()
                    && given.columns[places[i] as int] == name;
            assert(places.contains(places[i]));
        }
        if is_filtered(filters, name) {
            let c = choose|c: usize| #[trigger]
                places.contains(c) && c < given.columns.len() && given.columns[c as int] == name;
            let i = choose|i: int| 0 <= i < places.len() && places[i] == c;
            assert(given.columns[places[i] as int] == name);
        }
    }
}

proof fn lemma_filtered_keys(
    schema: Seq<TableField>,
    key_columns: Seq<TableIndexColumn>,
    names: Set<Seq<char>>,
)
    ensures
        filtered_keys(schema, key_columns, names) > 0 <==> exists|i: int|
            0 <= i < key_columns.len() && is_filtered_key(schema, #[trigger] key_columns[i], names),
    decreases key_columns.len(),
{
    if key_columns.len() > 0 {
        let head = key_columns.drop_last();
        let n = key_columns.len() - 1;
        lemma_filtered_keys(schema, head, names);
        if filtered_keys(schema, head, names) > 0 {
            let i = choose|i: int|
                0 <= i < head.len() && is_filtered_key(schema, #[trigger] head[i], names);
            assert(key_columns[i] == head[i]);
        } else if is_filtered_key(schema, key_columns[n], names) {
            assert(filtered_keys(schema, key_columns, names) > 0);
        } else {
            assert forall|i: int| 0 <= i < key_columns.len() implies !is_filtered_key(
                schema,
                #[trigger] key_columns[i],
                names,
            ) by {
                if i < n {
                    assert(head[i] == key_columns[i]);
                }
            }
        }
    }
}

/// The scan of an index that does not sort the rows as the query asks has no limit, and the filter is
/// over one of the key columns behind the equality prefix.
pub proof fn law_index_that_does_not_sort_filters_by_its_key(
    info: BtreeIndexInfo,
    scan: Scan,
    table_meta: TableMeta,
    columns: Seq<ColumnEntry>,
    filters: Option<FiltersModel>,
)
    requires
        chooses_index(Some(info), scan, table_meta, columns, filters),
        info.limit is None,
    ensures
        exists|i: int|
            info.equality_prefix@.len() <= i < info.key_columns@.len() && is_filtered(
                filters,
                (#[trigger] info.key_columns@[i]).field.name@,
            ),
{
    let query = ordered_query(scan, table_meta, columns, filters);
    let k = lemma_best(info, scan, table_meta, columns, filters);
    let key_columns = key_columns_of(table_meta.indexes@[k]);
    lemma_scalars_view(info.equality_prefix@);
    let p = info.equality_prefix@.len() as int;
    let rest = key_columns.skip(p);
    assert(extra_filtered_keys(query.schema, key_columns, p, query.names) > 0);
    lemma_filtered_keys(query.schema, rest, query.names);
    let i = choose|i: int|
        0 <= i < rest.len() && is_filtered_key(query.schema, #[trigger] rest[i], query.names);
    assert(rest[i] == key_columns[p + i]);
    let field = info.key_columns@[p + i].field;
    assert(field_with_id(query.schema, key_columns[p + i].column_id) == Some(field));
    lemma_filter_names(filters, field.name@);
}

proof fn lemma_prefix_found(
    query: OrderedQuery,
    scan: Scan,
    key_columns: Seq<TableIndexColumn>,
    p: int,
)
    requires
        0 <= p < key_columns.len(),
        query.constants == with_all_constants(
            plan_exprs_view(scan.push_down_predicates->Some_0@),
            Map::empty(),
        ),
        has_each_column_once(query.columns, query.table_index),
        forall|i: int|
            0 <= i <= p ==> field_with_id(
                query.schema,
                (#[trigger] key_columns[i]).column_id,
            ) is Some && has_column_equated(
                query.columns,
                query.table_index,
                key_name(query.schema, key_columns[i]),
                scan,
                i < p,
            ),
    ensures
        fixed_prefix(query, key_columns) matches Some(prefix) && prefix.len() == p,
    decreases p,
{
    let first = key_columns[0];
    let name = key_name(query.schema, first);
    let s = choose|s: usize| #[trigger]
        has_column(query.columns, query.table_index, name, s) && is_equated(scan, s) == (0 < p);
    lemma_symbol_found(query.columns, query.table_index, name, s);
    let symbol = symbol_of_field(query.columns, query.table_index, name)->Some_0;
    lemma_key_symbol(query, first, field_with_id(query.schema, first.column_id)->Some_0, symbol);
    assert(symbol == s);
    law_predicates_fix_what_they_equate(plan_exprs_view(scan.push_down_predicates->Some_0@), s);
    if p > 0 {
        let rest = key_columns.skip(1);
        assert forall|i: int| 0 <= i <= p - 1 implies field_with_id(
            query.schema,
            (#[trigger] rest[i]).column_id,
        ) is Some && has_column_equated(
            query.columns,
            query.table_index,
            key_name(query.schema, rest[i]),
            scan,
            i < p - 1,
        ) by {
            assert(rest[i] == key_columns[i + 1]);
        }
        lemma_prefix_found(query, scan, rest, p - 1);
    }
}

/// The plan has the column of the table, and the predicates equate it, or not.
pub open spec fn has_column_equated(
    columns: Seq<ColumnEntry>,
    table_index: usize,
    name: Seq<char>,
    scan: Scan,
    equated: bool,
) -> bool {
    exists|s: usize| #[trigger]
        has_column(columns, table_index, name, s) && is_equated(scan, s) == equated
}

/// The key column is that of a sort item, in its direction, and nulls are asked for last.
pub open spec fn sorts_by_key(
    schema: Seq<TableField>,
    columns: Seq<ColumnEntry>,
    table_index: usize,
    key_column: TableIndexColumn,
    item: SortItem,
) -> bool {
    &&& has_column(columns, table_index, key_name(schema, key_column), item.index)
    &&& key_column.order is Asc <==> item.asc
    &&& !item.nulls_first
}

/// An index can answer a scan: it is an ordered one, the predicates equate its first `p` key columns
/// and not the next, and its rows hold all that is read and filtered by.
pub open spec fn can_answer(
    index: TableIndex,
    p: int,
    payload: Seq<TableField>,
    scan: Scan,
    table_meta: TableMeta,
    columns: Seq<ColumnEntry>,
    filters: Option<FiltersModel>,
) -> bool {
    let key_columns = key_columns_of(index);
    let schema = table_meta.schema@;
    &&& index.index_type is Ordered
    &&& 0 < p < key_columns.len()
    &&& forall|i: int|
        0 <= i < key_columns.len() ==> field_with_id(
            schema,
            (#[trigger] key_columns[i]).column_id,
        ) is Some
    &&& forall|i: int|
        0 <= i <= p ==> has_column_equated(
            columns,
            scan.table_index,
            key_name(schema, #[trigger] key_columns[i]),
            scan,
            i < p,
        )
    &&& covered_fields(
        schema,
        ids_of(key_columns),
        index.include_column_ids@,
        covers_all(index.options@),
    ) == Some(payload)
    &&& forall|i: int|
        0 <= i < scan.columns.items@.len() ==> (columns[#[trigger] scan.columns.items@[i] as int] matches
            ColumnEntry::BaseTableColumn(column) ==> has_field(payload, column.column_name@))
    &&& forall|name: Seq<char>| #[trigger] is_filtered(filters, name) ==> has_field(payload, name)
}

/// An ordered index is chosen for a scan with a limit, predicates and an order, and without row
/// access policies, where the table has one that can answer it, and whose key columns behind the
/// equated ones sort the rows as the scan asks or are filtered by.
pub proof fn law_index_that_answers_is_chosen(
    r: Option<BtreeIndexInfo>,
    scan: Scan,
    table_meta: TableMeta,
    columns: Seq<ColumnEntry>,
    filters: Option<FiltersModel>,
    j: int,
    p: int,
    payload: Seq<TableField>,
)
    requires
        chooses_index(r, scan, table_meta, columns, filters),
        has_each_column_once(columns, scan.table_index),
        scan.limit is Some,
        scan.secure_predicates matches Some(predicates) ==> predicates@.len() == 0,
        scan.push_down_predicates matches Some(predicates) && predicates@.len() > 0,
        scan.order_by matches Some(items) && items@.len() > 0,
        0 <= j < table_meta.indexes@.len(),
        can_answer(table_meta.indexes@[j], p, payload, scan, table_meta, columns, filters),
        ({
            let key_columns = key_columns_of(table_meta.indexes@[j]);
            let items = scan.order_by->Some_0@;
            let schema = table_meta.schema@;
            ||| p + items.len() <= key_columns.len() && forall|i: int|
                0 <= i < items.len() ==> sorts_by_key(
                    schema,
                    columns,
                    scan.table_index,
                    key_columns[p + i],
                    #[trigger] items[i],
                )
            ||| exists|q: int|
                p <= q < key_columns.len() && is_filtered(
                    filters,
                    key_name(schema, #[trigger] key_columns[q]),
                )
        }),
    ensures
        r is Some,
{
    let query = ordered_query(scan, table_meta, columns, filters);
    let index = table_meta.indexes@[j];
    let key_columns = key_columns_of(index);
    let items = scan.order_by->Some_0@;
    lemma_prefix_found(query, scan, key_columns, p);
    assert forall|i: int| 0 <= i < query.symbols.len() implies column_covered(
        columns[#[trigger] query.symbols[i] as int],
        payload,
    ) by {
        let symbol = scan.columns.items@[i];
        match columns[symbol as int] {
            ColumnEntry::BaseTableColumn(column) => {
                lemma_field_index(payload, column.column_name@);
            },
            _ => {},
        }
    }
    assert forall|name: Seq<char>| #[trigger]
        query.names.contains(name) implies field_index(payload, name) is Some by {
        lemma_filter_names(filters, name);
        assert(is_filtered(filters, name));
        lemma_field_index(payload, name);
    }
    let sorts = p + items.len() <= key_columns.len() && forall|i: int|
        0 <= i < items.len() ==> sorts_by_key(
            query.schema,
            columns,
            scan.table_index,
            key_columns[p + i],
            #[trigger] items[i],
        );
    if sorts {
        assert forall|i: int| 0 <= i < items.len() implies sorts_by(
            query.schema,
            columns,
            scan.table_index,
            key_columns[p + i],
            #[trigger] items[i],
        ) by {
            let name = key_name(query.schema, key_columns[p + i]);
            let field = field_with_id(query.schema, key_columns[p + i].column_id)->Some_0;
            lemma_symbol_found(columns, scan.table_index, name, items[i].index);
            let symbol = symbol_of_field(columns, scan.table_index, name)->Some_0;
            lemma_key_symbol(query, key_columns[p + i], field, symbol);
        }
        assert(keeps_order(
            query.schema,
            columns,
            scan.table_index,
            key_columns,
            p,
            items,
        ));
    } else {
        let q = choose|q: int|
            p <= q < key_columns.len() && is_filtered(
                filters,
                key_name(query.schema, #[trigger] key_columns[q]),
            );
        let rest = key_columns.skip(p);
        assert(rest[q - p] == key_columns[q]);
        lemma_filter_names(filters, key_name(query.schema, key_columns[q]));
        assert(is_filtered_key(query.schema, rest[q - p], query.names));
        lemma_filtered_keys(query.schema, rest, query.names);
    }
    assert(candidate_of(query, index) is Some);
}

proof fn lemma_ordered_count(indexes: Seq<TableIndex>)
    ensures
        ordered_count(indexes) > 0 <==> exists|i: int|
            0 <= i < indexes.len() && (#[trigger] indexes[i]).index_type is Ordered,
        ordered_count(indexes) > 1 <==> exists|i: int, k: int|
            0 <= i < k < indexes.len() && (#[trigger] indexes[i]).index_type is Ordered && (
            #[trigger] indexes[k]).index_type is Ordered,
    decreases indexes.len(),
{
    if indexes.len() > 0 {
        let head = indexes.drop_last();
        let n = indexes.len() - 1;
        lemma_ordered_count(head);
        assert forall|i: int| 0 <= i < n implies #[trigger] head[i] == indexes[i] by {}
        if ordered_count(head) > 0 {
            let i = choose|i: int|
                0 <= i < head.len() && (#[trigger] head[i]).index_type is Ordered;
            assert(indexes[i].index_type is Ordered);
            assert(indexes[n].index_type is Ordered ==> 0 <= i < n);
        }
        if ordered_count(head) > 1 {
            let (i, k) = choose|i: int, k: int|
                0 <= i < k < head.len() && (#[trigger] head[i]).index_type is Ordered && (
                #[trigger] head[k]).index_type is Ordered;
            assert(indexes[i].index_type is Ordered && indexes[k].index_type is Ordered);
        }
        if indexes[n].index_type is Ordered {
            assert(ordered_count(indexes) == ordered_count(head) + 1);
        }
        if exists|i: int, k: int|
            0 <= i < k < indexes.len() && (#[trigger] indexes[i]).index_type is Ordered && (
            #[trigger] indexes[k]).index_type is Ordered {
            let (i, k) = choose|i: int, k: int|
                0 <= i < k < indexes.len() && (#[trigger] indexes[i]).index_type is Ordered && (
                #[trigger] indexes[k]).index_type is Ordered;
            assert(head[i].index_type is Ordered);
            if k < n {
                assert(head[k].index_type is Ordered);
            }
        }
        if exists|i: int| 0 <= i < indexes.len() && (#[trigger] indexes[i]).index_type is Ordered {
            let i = choose|i: int|
                0 <= i < indexes.len() && (#[trigger] indexes[i]).index_type is Ordered;
            if i < n {
                assert(head[i].index_type is Ordered);
            }
        }
    }
}

/// The length that a block tells for its index files is believed exactly where the table has no other
/// ordered index than the one that is chosen.
pub proof fn law_size_is_believed_of_the_only_index(
    info: BtreeIndexInfo,
    scan: Scan,
    table_meta: TableMeta,
    columns: Seq<ColumnEntry>,
    filters: Option<FiltersModel>,
)
    requires
        chooses_index(Some(info), scan, table_meta, columns, filters),
    ensures
        info.use_block_btree_index_size_hint <==> !(exists|i: int, k: int|
            0 <= i < k < table_meta.indexes@.len() && (#[trigger] table_meta.indexes@[i]).index_type
                is Ordered && (#[trigger] table_meta.indexes@[k]).index_type is Ordered),
{
    let k = lemma_best(info, scan, table_meta, columns, filters);
    assert(table_meta.indexes@[k].index_type is Ordered);
    lemma_ordered_count(table_meta.indexes@);
}

} // verus!
