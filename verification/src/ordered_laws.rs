//! What an ordered index that is chosen for a scan gives the scan.

use vstd::prelude::*;

use crate::columns::{is_field_column, symbol_of_field, ColumnEntry};
use crate::expr::columns_of;
use crate::filter::{field_index, opt_filters_view, BtreeIndexColumnOrder, BtreeIndexInfo,
    FiltersModel};
use crate::key::{component_bytes, key_bytes};
use crate::key_laws::{agree_before, fixed_value, law_keys_order_by_first_difference,
    lemma_component_injective, lemma_fixed_order};
use crate::lex::lex_lt;
use crate::ordered_index::{better_candidate, filter_names, key_symbol, names_at, sorts_by,
    OrderedIndexCandidateScore};
use crate::ordered_scan::{chooses_index, column_covered, is_best_index,
    is_index_scan, ordered_query, OrderedQuery};
use crate::plan_laws::lemma_symbol_of_field;
use crate::scalar::{lemma_scalars_view, ScalarModel, TableField};
use crate::scan::{Scan, SortItem};
use crate::table_meta::{field_with_id, key_columns_of, TableIndexColumn,
    TableMeta};
use crate::text::text_lt;
use crate::types::BtreeIndexKeyOrder;

verus! {

/// One of the fields has this name.
pub open spec fn has_field(fields: Seq<TableField>, name: Seq<char>) -> bool {
    exists|i: int| 0 <= i < fields.len() && (#[trigger] fields[i]).name@ == name
}

/// A field is found where there is one.
pub proof fn lemma_field_index(fields: Seq<TableField>, name: Seq<char>)
    ensures
        field_index(fields, name) is Some <==> has_field(fields, name),
        field_index(fields, name) matches Some(i) ==> 0 <= i < fields.len() && fields[i].name@
            == name,
    decreases fields.len(),
{
    if fields.len() > 0 {
        let rest = fields.skip(1);
        lemma_field_index(rest, name);
        if fields[0].name@ == name {
            assert(has_field(fields, name));
        } else {
            if has_field(rest, name) {
                let i = choose|i: int| 0 <= i < rest.len() && (#[trigger] rest[i]).name@ == name;
                assert(fields[i + 1].name@ == name);
            }
            if has_field(fields, name) {
                let i = choose|i: int| 0 <= i < fields.len() && (#[trigger] fields[i]).name@
                    == name;
                assert(rest[i - 1].name@ == name);
            }
        }
    }
}

/// The column of the plan is this one of the table, whole, under this symbol.
pub open spec fn is_column_of(
    entry: ColumnEntry,
    table_index: usize,
    name: Seq<char>,
    symbol: usize,
) -> bool {
    entry matches ColumnEntry::BaseTableColumn(column) && column.table_index == table_index
        && column.path_indices is None && column.column_name@ == name && column.column_index
        == symbol
}

/// One of the columns of the plan is this one of the table, whole, under this symbol.
pub open spec fn has_column(
    columns: Seq<ColumnEntry>,
    table_index: usize,
    name: Seq<char>,
    symbol: usize,
) -> bool {
    exists|k: int|
        0 <= k < columns.len() && is_column_of(#[trigger] columns[k], table_index, name, symbol)
}

/// The symbol of a key column is that of a column of the plan.
pub proof fn lemma_key_symbol(
    query: OrderedQuery,
    key_column: TableIndexColumn,
    field: TableField,
    symbol: usize,
)
    requires
        field_with_id(query.schema, key_column.column_id) == Some(field),
        key_symbol(query.schema, query.columns, query.table_index, key_column) == Some(symbol),
    ensures
        has_column(query.columns, query.table_index, field.name@, symbol),
{
    let k = lemma_symbol_of_field(query.columns, query.table_index, field.name@);
    assert(is_column_of(query.columns[k], query.table_index, field.name@, symbol));
}

/// A key column of the scan of an index sorts the rows as a sort item asks: it is the item's column,
/// in its direction, and nulls are asked for last.
pub open spec fn sorts_as_asked(
    info: BtreeIndexInfo,
    i: int,
    item: SortItem,
    columns: Seq<ColumnEntry>,
    table_index: usize,
) -> bool {
    &&& 0 <= i < info.key_columns@.len()
    &&& has_column(columns, table_index, info.key_columns@[i].field.name@, item.index)
    &&& (info.key_columns@[i].order is Asc) == item.asc
    &&& (info.key_columns@[i].order is Desc) == !item.asc
    &&& !item.nulls_first
}

/// The index that is chosen.
pub proof fn lemma_best(
    info: BtreeIndexInfo,
    scan: Scan,
    table_meta: TableMeta,
    columns: Seq<ColumnEntry>,
    filters: Option<FiltersModel>,
) -> (best: int)
    requires
        chooses_index(Some(info), scan, table_meta, columns, filters),
    ensures
        ({
            let query = ordered_query(scan, table_meta, columns, filters);
            &&& is_best_index(query, table_meta.indexes@, best)
            &&& is_index_scan(
                info,
                query,
                table_meta.indexes@,
                best,
                scan.limit,
                filters,
            )
        }),
{
    let query = ordered_query(scan, table_meta, columns, filters);
    choose|k: int| #[trigger]
        is_best_index(query, table_meta.indexes@, k) && is_index_scan(
            info,
            query,
            table_meta.indexes@,
            k,
            scan.limit,
            filters,
        )
}

/// An index is chosen only for a scan with a limit, predicates and an order, and with no row access
/// policy. It is an ordered index of the table; the scan of it looks for values of some of its
/// leading key columns, but not of all key columns, with the filter of the query; and its rows hold
/// every column of the table that is read, and every column that the filter is over.
pub proof fn law_chosen_index_answers_the_scan(
    info: BtreeIndexInfo,
    scan: Scan,
    table_meta: TableMeta,
    columns: Seq<ColumnEntry>,
    filters: Option<FiltersModel>,
)
    requires
        chooses_index(Some(info), scan, table_meta, columns, filters),
    ensures
        scan.limit is Some,
        scan.secure_predicates matches Some(predicates) ==> predicates@.len() == 0,
        scan.push_down_predicates matches Some(predicates) && predicates@.len() > 0,
        scan.order_by matches Some(items) && items@.len() > 0,
        exists|k: int|
            0 <= k < table_meta.indexes@.len() && (#[trigger] table_meta.indexes@[k]).index_type
                is Ordered && table_meta.indexes@[k].name@ == info.index_name@
                && table_meta.indexes@[k].version@ == info.index_version@,
        0 < info.equality_prefix@.len() < info.key_columns@.len(),
        opt_filters_view(info.filters) == filters,
        forall|i: int|
            0 <= i < scan.columns.items@.len() ==> (columns[#[trigger] scan.columns.items@[i] as int] matches
                ColumnEntry::BaseTableColumn(column) ==> has_field(
                info.payload_fields@,
                column.column_name@,
            )),
        filters matches Some(given) ==> forall|c: usize| #[trigger]
            columns_of(given.expr).contains(c) && c < given.columns.len() ==> has_field(
                info.payload_fields@,
                given.columns[c as int],
            ),
{
    let query = ordered_query(scan, table_meta, columns, filters);
    let k = lemma_best(info, scan, table_meta, columns, filters);
    let index = table_meta.indexes@[k];
    lemma_scalars_view(info.equality_prefix@);
    assert(index.index_type is Ordered);
    assert forall|i: int| 0 <= i < scan.columns.items@.len() implies (
    columns[#[trigger] scan.columns.items@[i] as int] matches ColumnEntry::BaseTableColumn(column)
        ==> has_field(info.payload_fields@, column.column_name@)) by {
        assert(query.symbols[i] == scan.columns.items@[i]);
        assert(column_covered(query.columns[query.symbols[i] as int], info.payload_fields@));
        match columns[scan.columns.items@[i] as int] {
            ColumnEntry::BaseTableColumn(column) => {
                lemma_field_index(info.payload_fields@, column.column_name@);
            },
            _ => {},
        }
    }
    if filters is Some {
        let given = filters->Some_0;
        assert forall|c: usize| #[trigger]
            columns_of(given.expr).contains(c) && c < given.columns.len() implies has_field(
            info.payload_fields@,
            given.columns[c as int],
        ) by {
            let places = columns_of(given.expr);
            let i = choose|i: int| 0 <= i < places.len() && places[i] == c;
            assert(names_at(given.columns, places).contains(given.columns[c as int]));
            assert(filter_names(filters).contains(given.columns[c as int]));
            lemma_field_index(info.payload_fields@, given.columns[c as int]);
        }
    }
}

/// The scan of an index stops at the limit of the query only where the key columns behind the
/// equality prefix sort the rows as the query asks.
pub proof fn law_index_scan_is_limited_where_it_sorts(
    info: BtreeIndexInfo,
    scan: Scan,
    table_meta: TableMeta,
    columns: Seq<ColumnEntry>,
    filters: Option<FiltersModel>,
)
    requires
        chooses_index(Some(info), scan, table_meta, columns, filters),
    ensures
        info.limit is Some ==> info.limit == scan.limit,
        info.limit is Some ==> forall|i: int|
            0 <= i < scan.order_by->Some_0@.len() ==> sorts_as_asked(
                info,
                info.equality_prefix@.len() + i,
                #[trigger] scan.order_by->Some_0@[i],
                columns,
                scan.table_index,
            ),
{
    let query = ordered_query(scan, table_meta, columns, filters);
    let k = lemma_best(info, scan, table_meta, columns, filters);
    let index = table_meta.indexes@[k];
    let key_columns = key_columns_of(index);
    let n = info.equality_prefix@.len();
    lemma_scalars_view(info.equality_prefix@);
    if info.limit is Some {
        assert forall|i: int| 0 <= i < scan.order_by->Some_0@.len() implies sorts_as_asked(
            info,
            n + i,
            #[trigger] scan.order_by->Some_0@[i],
            columns,
            scan.table_index,
        ) by {
            let item = query.order_by[i];
            let field = info.key_columns@[n + i].field;
            assert(field_with_id(query.schema, key_columns[n + i].column_id) == Some(field));
            lemma_key_symbol(query, key_columns[n + i], field, item.index);
        }
    }
}

/// A column of the plan is found.
pub proof fn lemma_symbol_found(columns: Seq<ColumnEntry>, table_index: usize, name: Seq<char>, s: usize)
    requires
        has_column(columns, table_index, name, s),
    ensures
        symbol_of_field(columns, table_index, name) is Some,
    decreases columns.len(),
{
    let k = choose|k: int|
        0 <= k < columns.len() && is_column_of(#[trigger] columns[k], table_index, name, s);
    if !is_field_column(columns[0], table_index, name) {
        let rest = columns.skip(1);
        assert(is_column_of(rest[k - 1], table_index, name, s));
        lemma_symbol_found(rest, table_index, name, s);
    }
}

/// The scan of an index stops at the limit of the query where the key columns behind the equality
/// prefix sort the rows as the query asks, and the plan has each of these columns once.
pub proof fn law_sorting_index_scan_is_limited(
    info: BtreeIndexInfo,
    scan: Scan,
    table_meta: TableMeta,
    columns: Seq<ColumnEntry>,
    filters: Option<FiltersModel>,
)
    requires
        chooses_index(Some(info), scan, table_meta, columns, filters),
        forall|i: int|
            0 <= i < scan.order_by->Some_0@.len() ==> sorts_as_asked(
                info,
                info.equality_prefix@.len() + i,
                #[trigger] scan.order_by->Some_0@[i],
                columns,
                scan.table_index,
            ),
        forall|name: Seq<char>, s: usize, t: usize|
            #[trigger] has_column(columns, scan.table_index, name, s) && #[trigger] has_column(
                columns,
                scan.table_index,
                name,
                t,
            ) ==> s == t,
    ensures
        info.limit == scan.limit,
{
    let query = ordered_query(scan, table_meta, columns, filters);
    let k = lemma_best(info, scan, table_meta, columns, filters);
    let key_columns = key_columns_of(table_meta.indexes@[k]);
    let n = info.equality_prefix@.len();
    let items = scan.order_by->Some_0@;
    lemma_scalars_view(info.equality_prefix@);
    assert(sorts_as_asked(info, n + (items.len() - 1), items[items.len() - 1], columns, scan.table_index));
    assert forall|i: int| 0 <= i < items.len() implies sorts_by(
        query.schema,
        columns,
        scan.table_index,
        key_columns[n + i],
        #[trigger] items[i],
    ) by {
        assert(sorts_as_asked(info, n + i, items[i], columns, scan.table_index));
        let field = info.key_columns@[n + i].field;
        assert(field_with_id(query.schema, key_columns[n + i].column_id) == Some(field));
        lemma_symbol_found(columns, scan.table_index, field.name@, items[i].index);
        let symbol = symbol_of_field(columns, scan.table_index, field.name@)->Some_0;
        lemma_key_symbol(query, key_columns[n + i], field, symbol);
    }
}

/// The components of the key of a row: its values of the key columns, in their directions.
pub open spec fn is_key_of(
    values: Seq<(ScalarModel, BtreeIndexKeyOrder)>,
    info: BtreeIndexInfo,
    columns: Seq<ColumnEntry>,
    table_index: usize,
    row: spec_fn(usize) -> ScalarModel,
) -> bool {
    &&& values.len() == info.key_columns@.len()
    &&& forall|i: int|
        0 <= i < values.len() ==> (#[trigger] values[i]).1 == match info.key_columns@[i].order {
            BtreeIndexColumnOrder::Asc => BtreeIndexKeyOrder::Asc,
            BtreeIndexColumnOrder::Desc => BtreeIndexKeyOrder::Desc,
        }
    &&& forall|i: int, symbol: usize|
        0 <= i < values.len() && #[trigger] has_column(
            columns,
            table_index,
            info.key_columns@[i].field.name@,
            symbol,
        ) ==> values[i].0 == row(symbol)
}

/// The rows have, in every column that is sorted by, values of one type of numbers, dates or the
/// like.
pub open spec fn are_comparable(
    items: Seq<SortItem>,
    a: spec_fn(usize) -> ScalarModel,
    b: spec_fn(usize) -> ScalarModel,
) -> bool {
    forall|i: int|
        0 <= i < items.len() ==> fixed_value(a((#[trigger] items[i]).index)) is Some && fixed_value(
            b(items[i].index),
        ) is Some && fixed_value(a(items[i].index))->Some_0.0 == fixed_value(
            b(items[i].index),
        )->Some_0.0
}

/// What orders the value of a row in the column of a sort item.
pub open spec fn rank_in(row: spec_fn(usize) -> ScalarModel, item: SortItem) -> int {
    fixed_value(row(item.index))->Some_0.1
}

/// One row is to come before another: the first item in which they differ says so.
pub open spec fn comes_first(
    items: Seq<SortItem>,
    a: spec_fn(usize) -> ScalarModel,
    b: spec_fn(usize) -> ScalarModel,
    n: int,
) -> bool {
    &&& 0 <= n < items.len()
    &&& forall|i: int| 0 <= i < n ==> rank_in(a, #[trigger] items[i]) == rank_in(b, items[i])
    &&& if items[n].asc {
        rank_in(a, items[n]) < rank_in(b, items[n])
    } else {
        rank_in(a, items[n]) > rank_in(b, items[n])
    }
}

/// Where the scan of an index stops at the limit, the rows with its equality prefix come in the
/// order that the query asks for: of two of them, the one that is to come first has the first key.
pub proof fn law_limited_index_scan_is_in_order(
    info: BtreeIndexInfo,
    scan: Scan,
    table_meta: TableMeta,
    columns: Seq<ColumnEntry>,
    filters: Option<FiltersModel>,
    a: spec_fn(usize) -> ScalarModel,
    b: spec_fn(usize) -> ScalarModel,
    x: Seq<(ScalarModel, BtreeIndexKeyOrder)>,
    y: Seq<(ScalarModel, BtreeIndexKeyOrder)>,
    n: int,
)
    requires
        chooses_index(Some(info), scan, table_meta, columns, filters),
        info.limit is Some,
        is_key_of(x, info, columns, scan.table_index, a),
        is_key_of(y, info, columns, scan.table_index, b),
        forall|i: int| 0 <= i < info.equality_prefix@.len() ==> #[trigger] x[i] == y[i],
        are_comparable(scan.order_by->Some_0@, a, b),
        comes_first(scan.order_by->Some_0@, a, b, n),
    ensures
        lex_lt(key_bytes(x), key_bytes(y)),
{
    let items = scan.order_by->Some_0@;
    let p = info.equality_prefix@.len();
    law_index_scan_is_limited_where_it_sorts(info, scan, table_meta, columns, filters);
    assert forall|i: int| 0 <= i < items.len() implies x[p + i].0 == a(items[i].index) && y[p + i].0
        == b(items[i].index) && p + i < x.len() && x[p + i].1 == y[p + i].1 by {
        assert(sorts_as_asked(info, p + i, items[i], columns, scan.table_index));
    }
    assert(agree_before(x, y, p + n)) by {
        assert(sorts_as_asked(info, p + n, items[n], columns, scan.table_index));
        assert forall|i: int| 0 <= i < p + n implies component_bytes((#[trigger] x[i]).0, x[i].1)
            == component_bytes(y[i].0, y[i].1) by {
            if i >= p {
                let item = items[i - p];
                assert(sorts_as_asked(info, p + (i - p), item, columns, scan.table_index));
                assert(rank_in(a, item) == rank_in(b, item));
                lemma_fixed_order(x[i].0, y[i].0);
                lemma_component_injective(x[i].0, y[i].0, x[i].1);
            }
        }
    }
    assert(sorts_as_asked(info, p + n, items[n], columns, scan.table_index));
    law_keys_order_by_first_difference(x, y, p + n);
}

/// A candidate with a longer equality prefix is better; of those with equally long ones, one that
/// keeps the order; then one with more key columns that the filter is over; then one with fewer
/// columns in its rows; then one with fewer key columns; and at last the one with the first name.
pub proof fn law_better_candidates(
    a: OrderedIndexCandidateScore,
    a_name: Seq<char>,
    b: OrderedIndexCandidateScore,
    b_name: Seq<char>,
)
    ensures
        a.prefix_len > b.prefix_len ==> better_candidate(a, a_name, b, b_name),
        a.prefix_len == b.prefix_len ==> {
            &&& a.preserves_order && !b.preserves_order ==> better_candidate(a, a_name, b, b_name)
            &&& a.preserves_order == b.preserves_order ==> {
                let x = a.extra_filter_key_columns;
                let y = b.extra_filter_key_columns;
                &&& x > y ==> better_candidate(a, a_name, b, b_name)
                &&& x == y && a.payload_width < b.payload_width ==> better_candidate(
                    a,
                    a_name,
                    b,
                    b_name,
                )
                &&& x == y && a.payload_width == b.payload_width ==> {
                    &&& a.key_width < b.key_width ==> better_candidate(a, a_name, b, b_name)
                    &&& a.key_width == b.key_width && text_lt(a_name, b_name)
                        ==> better_candidate(a, a_name, b, b_name)
                }
            }
        },
{
}

} // verus!
