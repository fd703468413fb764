//! What a scan reads, sorts and limits by itself, in terms of what it was asked for.

use vstd::prelude::*;

use crate::columns::{columns_known, direct_places, inner_paths, path_of, place_of, places_apart,
    plain_name, projection_of, reads_virtual_columns, source_ids, virtual_places, ColumnEntry,
    ProjectionModel, VirtualColumn, VirtualColumnInfo};
use crate::filter::field_index;
use crate::index_def::lemma_first_places_hold;
use crate::index_laws::lemma_first_places_of;
use crate::ordered_laws::lemma_field_index;
use crate::push_down::{is_prewhere, is_pushed_down, is_remainder, orders_view, pushed_order,
    sortable_column, PrewhereInfo, PushDownInfo, PushDownOrder};
use crate::scalar::{TableDataType, TableField};
use crate::scan::{Prewhere, Scan, SortItem};
use crate::sort::{lemma_stable_sort_exists, lemma_stable_sort_items,
    lemma_stable_sort_sorted, stable_sort, Ranked};
use crate::column_set::ColumnSet;
use crate::table_meta::TableMeta;

verus! {

/// The name of the field that a column of the plan is read from, where it is read from the storage.
pub open spec fn field_read(entry: ColumnEntry, with_virtual: bool) -> Option<Seq<char>> {
    match entry {
        ColumnEntry::BaseTableColumn(column) => Some(column.column_name@),
        ColumnEntry::DerivedColumn(column) => Some(column.alias@),
        ColumnEntry::InternalColumn(_) => None,
        ColumnEntry::VirtualColumn(column) => if with_virtual {
            Some(column.source_column_name@)
        } else {
            None
        },
    }
}

/// One of the places is that of a field with this name.
pub open spec fn reads_field(places: Seq<usize>, schema: Seq<TableField>, name: Seq<char>) -> bool {
    exists|i: int|
        0 <= i < places.len() && (#[trigger] places[i]) < schema.len() && schema[places[i] as int].name@
            == name
}

/// One of the columns is read from a field with this name.
pub open spec fn is_asked_for(
    columns: Seq<ColumnEntry>,
    symbols: Seq<usize>,
    with_virtual: bool,
    name: Seq<char>,
) -> bool {
    exists|i: int|
        0 <= i < symbols.len() && field_read(
            columns[#[trigger] symbols[i] as int],
            with_virtual,
        ) == Some(name)
}

/// All the places are of fields that one of the columns is read from.
pub open spec fn all_asked_for(
    places: Seq<usize>,
    columns: Seq<ColumnEntry>,
    schema: Seq<TableField>,
    symbols: Seq<usize>,
    with_virtual: bool,
) -> bool {
    forall|i: int|
        0 <= i < places.len() ==> (#[trigger] places[i]) < schema.len() && is_asked_for(
            columns,
            symbols,
            with_virtual,
            schema[places[i] as int].name@,
        )
}

proof fn lemma_asked_more(
    columns: Seq<ColumnEntry>,
    symbols: Seq<usize>,
    with_virtual: bool,
    name: Seq<char>,
)
    requires
        symbols.len() > 0,
        is_asked_for(columns, symbols.drop_last(), with_virtual, name),
    ensures
        is_asked_for(columns, symbols, with_virtual, name),
{
    let head = symbols.drop_last();
    let i = choose|i: int|
        0 <= i < head.len() && field_read(columns[#[trigger] head[i] as int], with_virtual) == Some(
            name,
        );
    assert(symbols[i] == head[i]);
}

proof fn lemma_place_read(schema: Seq<TableField>, name: Seq<char>)
    requires
        field_index(schema, name) is Some,
        schema.len() <= usize::MAX,
    ensures
        place_of(schema, name) < schema.len(),
        schema[place_of(schema, name) as int].name@ == name,
{
    lemma_field_index(schema, name);
}

proof fn lemma_direct_places(
    columns: Seq<ColumnEntry>,
    schema: Seq<TableField>,
    symbols: Seq<usize>,
)
    requires
        columns_known(columns, schema, symbols, false, true, false),
        schema.len() <= usize::MAX,
    ensures
        all_asked_for(
            direct_places(columns, schema, symbols, true),
            columns,
            schema,
            symbols,
            false,
        ),
        forall|name: Seq<char>| #[trigger]
            is_asked_for(columns, symbols, false, name) ==> reads_field(
                direct_places(columns, schema, symbols, true),
                schema,
                name,
            ),
    decreases symbols.len(),
{
    if symbols.len() > 0 {
        let head = symbols.drop_last();
        assert forall|i: int| 0 <= i < head.len() implies #[trigger] head[i] == symbols[i] by {}
        assert(columns_known(columns, schema, head, false, true, false));
        lemma_direct_places(columns, schema, head);
        let before = direct_places(columns, schema, head, true);
        let now = direct_places(columns, schema, symbols, true);
        let n = symbols.len() - 1;
        let entry = columns[symbols[n] as int];
        let added = plain_name(entry, true);
        if added is Some {
            lemma_place_read(schema, added->Some_0);
        }
        assert forall|i: int| 0 <= i < now.len() implies (#[trigger] now[i]) < schema.len()
            && is_asked_for(columns, symbols, false, schema[now[i] as int].name@) by {
            if i < before.len() {
                assert(now[i] == before[i]);
                lemma_asked_more(columns, symbols, false, schema[before[i] as int].name@);
            } else {
                assert(field_read(columns[symbols[n] as int], false) == added);
            }
        }
        assert forall|name: Seq<char>| #[trigger]
            is_asked_for(columns, symbols, false, name) implies reads_field(
            now,
            schema,
            name,
        ) by {
            let i = choose|i: int|
                0 <= i < symbols.len() && field_read(columns[#[trigger] symbols[i] as int], false)
                    == Some(name);
            if i < n {
                assert(head[i] == symbols[i]);
                assert(is_asked_for(columns, head, false, name));
                let k = choose|k: int|
                    0 <= k < before.len() && (#[trigger] before[k]) < schema.len()
                        && schema[before[k] as int].name@ == name;
                assert(now[k] == before[k]);
            } else {
                assert(now[before.len() as int] == place_of(schema, name));
            }
        }
    }
}

proof fn lemma_virtual_places(
    columns: Seq<ColumnEntry>,
    schema: Seq<TableField>,
    symbols: Seq<usize>,
)
    requires
        columns_known(columns, schema, symbols, false, true, true),
        schema.len() <= usize::MAX,
    ensures
        all_asked_for(virtual_places(columns, schema, symbols), columns, schema, symbols, true),
        forall|i: int|
            0 <= i < symbols.len() ==> (columns[#[trigger] symbols[i] as int] matches
                ColumnEntry::VirtualColumn(column) ==> reads_field(
                virtual_places(columns, schema, symbols),
                schema,
                column.source_column_name@,
            )),
    decreases symbols.len(),
{
    if symbols.len() > 0 {
        let head = symbols.drop_last();
        assert forall|i: int| 0 <= i < head.len() implies #[trigger] head[i] == symbols[i] by {}
        assert(columns_known(columns, schema, head, false, true, true));
        lemma_virtual_places(columns, schema, head);
        let before = virtual_places(columns, schema, head);
        let now = virtual_places(columns, schema, symbols);
        let n = symbols.len() - 1;
        let entry = columns[symbols[n] as int];
        assert forall|i: int| 0 <= i < before.len() implies #[trigger] now[i] == before[i] by {}
        match entry {
            ColumnEntry::VirtualColumn(column) => {
                lemma_place_read(schema, column.source_column_name@);
                let place = place_of(schema, column.source_column_name@);
                if before.contains(place) {
                    let k = choose|k: int| 0 <= k < before.len() && before[k] == place;
                    assert(now[k] == place);
                } else {
                    assert(now[before.len() as int] == place);
                }
                assert(reads_field(now, schema, column.source_column_name@));
                assert(field_read(columns[symbols[n] as int], true) == Some(
                    column.source_column_name@,
                ));
                assert(is_asked_for(columns, symbols, true, column.source_column_name@));
            },
            _ => {},
        }
        assert forall|i: int| 0 <= i < now.len() implies (#[trigger] now[i]) < schema.len()
            && is_asked_for(columns, symbols, true, schema[now[i] as int].name@) by {
            if i < before.len() {
                assert(now[i] == before[i]);
                lemma_asked_more(columns, symbols, true, schema[before[i] as int].name@);
            }
        }
        assert forall|i: int| 0 <= i < symbols.len() implies (
        columns[#[trigger] symbols[i] as int] matches ColumnEntry::VirtualColumn(column)
            ==> reads_field(now, schema, column.source_column_name@)) by {
            if i < n && columns[symbols[i] as int] is VirtualColumn {
                assert(head[i] == symbols[i]);
                let name = columns[symbols[i] as int]->VirtualColumn_0.source_column_name@;
                assert(reads_field(before, schema, name));
                let k = choose|k: int|
                    0 <= k < before.len() && (#[trigger] before[k]) < schema.len()
                        && schema[before[k] as int].name@ == name;
                assert(now[k] == before[k]);
            }
        }
    }
}

proof fn lemma_reads_sorted(a: Seq<usize>, schema: Seq<TableField>, name: Seq<char>)
    ensures
        reads_field(stable_sort(a), schema, name) == reads_field(a, schema, name),
{
    let b = stable_sort(a);
    lemma_stable_sort_exists(a);
    if reads_field(a, schema, name) {
        let i = choose|i: int|
            0 <= i < a.len() && (#[trigger] a[i]) < schema.len() && schema[a[i] as int].name@
                == name;
        lemma_stable_sort_items(a, b, a[i]);
        assert(a.contains(a[i]));
        let k = choose|k: int| 0 <= k < b.len() && b[k] == a[i];
        assert(b[k] < schema.len());
    }
    if reads_field(b, schema, name) {
        let i = choose|i: int|
            0 <= i < b.len() && (#[trigger] b[i]) < schema.len() && schema[b[i] as int].name@
                == name;
        lemma_stable_sort_items(a, b, b[i]);
        assert(b.contains(b[i]));
        let k = choose|k: int| 0 <= k < a.len() && a[k] == b[i];
        assert(a[k] < schema.len());
    }
}

/// A projection without inner columns reads, in ascending order, exactly the fields that its columns
/// are read from: a column of the table by its name, a derived one by its alias, and, where these
/// are read too, a virtual one by the name of its source.
pub proof fn law_projection_reads_the_fields_of_its_columns(
    columns: Seq<ColumnEntry>,
    schema: Seq<TableField>,
    symbols: Seq<usize>,
    with_virtual: bool,
    name: Seq<char>,
)
    requires
        columns_known(columns, schema, symbols, false, true, with_virtual),
        schema.len() <= usize::MAX,
    ensures
        projection_of(columns, schema, symbols, false, true, with_virtual) matches
            ProjectionModel::Columns(places) && {
            &&& forall|i: int, j: int|
                0 <= i < j < places.len() ==> #[trigger] places[i] <= #[trigger] places[j]
            &&& forall|i: int| 0 <= i < places.len() ==> (#[trigger] places[i]) < schema.len()
            &&& reads_field(places, schema, name) <==> is_asked_for(
                columns,
                symbols,
                with_virtual,
                name,
            )
        },
{
    let direct = direct_places(columns, schema, symbols, true);
    assert(columns_known(columns, schema, symbols, false, true, false));
    lemma_direct_places(columns, schema, symbols);
    let apart = if with_virtual {
        places_apart(virtual_places(columns, schema, symbols), direct)
    } else {
        Seq::empty()
    };
    let all = direct + apart;
    let places = stable_sort(all);
    assert(!with_virtual ==> all =~= direct);
    lemma_stable_sort_exists(all);
    lemma_stable_sort_sorted(all, places);
    assert forall|i: int, j: int| 0 <= i < j < places.len() implies #[trigger] places[i]
        <= #[trigger] places[j] by {
        assert(!places[j].ranks_before(places[i]));
    }
    lemma_reads_sorted(all, schema, name);
    if with_virtual {
        lemma_virtual_places(columns, schema, symbols);
    }
    assert forall|k: int| 0 <= k < all.len() implies (#[trigger] all[k]) < schema.len()
        && is_asked_for(columns, symbols, with_virtual, schema[all[k] as int].name@) by {
        if k < direct.len() {
            assert(all[k] == direct[k]);
            let i = choose|i: int|
                0 <= i < symbols.len() && field_read(columns[#[trigger] symbols[i] as int], false)
                    == Some(schema[direct[k] as int].name@);
            assert(field_read(columns[symbols[i] as int], with_virtual) == Some(
                schema[direct[k] as int].name@,
            ));
        } else {
            let v = virtual_places(columns, schema, symbols);
            assert(all[k] == apart[k - direct.len()]);
            v.lemma_filter_contains_rev(|place: usize| !direct.contains(place), all[k]);
            let i = choose|i: int| 0 <= i < v.len() && v[i] == all[k];
            assert(v[i] < schema.len());
        }
    }
    assert forall|i: int| 0 <= i < places.len() implies (#[trigger] places[i]) < schema.len() by {
        lemma_stable_sort_items(all, places, places[i]);
        assert(places.contains(places[i]));
        let k = choose|k: int| 0 <= k < all.len() && all[k] == places[i];
        assert(all[k] < schema.len());
    }
    if is_asked_for(columns, symbols, with_virtual, name) {
        let i = choose|i: int|
            0 <= i < symbols.len() && field_read(
                columns[#[trigger] symbols[i] as int],
                with_virtual,
            ) == Some(name);
        if columns[symbols[i] as int] is VirtualColumn {
            let v = virtual_places(columns, schema, symbols);
            assert(reads_field(v, schema, name));
            let k = choose|k: int|
                0 <= k < v.len() && (#[trigger] v[k]) < schema.len() && schema[v[k] as int].name@
                    == name;
            if direct.contains(v[k]) {
                let m = choose|m: int| 0 <= m < direct.len() && direct[m] == v[k];
                assert(all[m] == v[k]);
            } else {
                v.lemma_filter_contains(|place: usize| !direct.contains(place), k);
                let m = choose|m: int| 0 <= m < apart.len() && apart[m] == v[k];
                assert(all[direct.len() + m] == v[k]);
            }
        } else {
            assert(field_read(columns[symbols[i] as int], false) == Some(name));
            assert(is_asked_for(columns, symbols, false, name));
            let k = choose|k: int|
                0 <= k < direct.len() && (#[trigger] direct[k]) < schema.len()
                    && schema[direct[k] as int].name@ == name;
            assert(all[k] == direct[k]);
        }
    }
    if reads_field(all, schema, name) {
        let k = choose|k: int|
            0 <= k < all.len() && (#[trigger] all[k]) < schema.len() && schema[all[k] as int].name@
                == name;
        assert(is_asked_for(columns, symbols, with_virtual, schema[all[k] as int].name@));
    }
}

/// A projection with inner columns reads, under the symbol of each column of the table, the path of
/// the column: that of the part of a field that it is, or the place of its field. The columns have
/// different symbols, and none is virtual.
pub proof fn law_inner_projection_reads_the_paths_of_its_columns(
    columns: Seq<ColumnEntry>,
    schema: Seq<TableField>,
    symbols: Seq<usize>,
    with_virtual: bool,
    i: int,
)
    requires
        columns_known(columns, schema, symbols, true, true, with_virtual),
        schema.len() <= usize::MAX,
        0 <= i < symbols.len(),
        forall|k: int|
            0 <= k < symbols.len() ==> !(columns[#[trigger] symbols[k] as int] is VirtualColumn),
        forall|j: int, k: int|
            0 <= j < k < symbols.len() ==> columns[#[trigger] symbols[j] as int].symbol()
                != columns[#[trigger] symbols[k] as int].symbol(),
    ensures
        projection_of(columns, schema, symbols, true, true, with_virtual) matches
            ProjectionModel::InnerColumns(paths) && match columns[symbols[i] as int] {
            ColumnEntry::BaseTableColumn(column) => {
                &&& paths.contains_key(column.column_index)
                &&& match column.path_indices {
                    Some(path) => paths[column.column_index] == path@,
                    None => {
                        let path = paths[column.column_index];
                        &&& path.len() == 1
                        &&& path[0] < schema.len()
                        &&& schema[path[0] as int].name@ == column.column_name@
                    },
                }
            },
            ColumnEntry::DerivedColumn(column) => {
                let path = paths[column.column_index];
                &&& paths.contains_key(column.column_index)
                &&& path.len() == 1
                &&& path[0] < schema.len()
                &&& schema[path[0] as int].name@ == column.alias@
            },
            _ => true,
        },
{
    lemma_inner_path(columns, schema, symbols, with_virtual, i);
    match columns[symbols[i] as int] {
        ColumnEntry::BaseTableColumn(column) => {
            if column.path_indices is None {
                lemma_place_read(schema, column.column_name@);
            }
        },
        ColumnEntry::DerivedColumn(column) => {
            lemma_place_read(schema, column.alias@);
        },
        _ => {},
    }
}

proof fn lemma_inner_path(
    columns: Seq<ColumnEntry>,
    schema: Seq<TableField>,
    symbols: Seq<usize>,
    with_virtual: bool,
    i: int,
)
    requires
        0 <= i < symbols.len(),
        forall|k: int|
            0 <= k < symbols.len() ==> !(columns[#[trigger] symbols[k] as int] is VirtualColumn),
        forall|j: int, k: int|
            0 <= j < k < symbols.len() ==> columns[#[trigger] symbols[j] as int].symbol()
                != columns[#[trigger] symbols[k] as int].symbol(),
    ensures
        path_of(columns[symbols[i] as int], schema, true, with_virtual) matches Some((under, path))
            ==> {
            let paths = inner_paths(columns, schema, symbols, true, with_virtual);
            paths.contains_key(under) && paths[under] == path
        },
    decreases symbols.len(),
{
    let n = symbols.len() - 1;
    if i < n {
        let head = symbols.drop_last();
        assert forall|k: int| 0 <= k < head.len() implies #[trigger] head[k] == symbols[k] by {}
        lemma_inner_path(columns, schema, head, with_virtual, i);
        assert(head[i] == symbols[i]);
        assert(columns[symbols[i] as int].symbol() != columns[symbols[n] as int].symbol());
    }
}

/// The storage sorts by this item: by its column's name and type, in its direction, with nulls where
/// it has them.
pub open spec fn sorts_by_item(
    order: PushDownOrder,
    item: SortItem,
    columns: Seq<ColumnEntry>,
) -> bool {
    &&& order.asc == item.asc
    &&& order.nulls_first == item.nulls_first
    &&& match columns[item.index as int] {
        ColumnEntry::BaseTableColumn(column) => order.column_name@ == column.column_name@
            && order.data_type == column.data_type,
        ColumnEntry::InternalColumn(column) => order.column_name@
            == column.internal_column.column_name@ && order.data_type
            == column.internal_column.data_type,
        _ => false,
    }
}

/// The storage can sort by the item.
pub open spec fn can_sort_by(item: SortItem, columns: Seq<ColumnEntry>) -> bool {
    columns[item.index as int] is BaseTableColumn || columns[item.index as int] is InternalColumn
}

proof fn lemma_pushed_order(columns: Seq<ColumnEntry>, items: Seq<SortItem>)
    ensures
        pushed_order(columns, items).len() <= items.len(),
        pushed_order(columns, items).len() == items.len() <==> forall|i: int|
            0 <= i < items.len() ==> can_sort_by(#[trigger] items[i], columns),
        pushed_order(columns, items).len() == items.len() ==> forall|i: int|
            0 <= i < items.len() ==> sortable_column(columns[(#[trigger] items[i]).index as int])
                is Some && pushed_order(columns, items)[i] == (
                sortable_column(columns[items[i].index as int])->Some_0.0,
                sortable_column(columns[items[i].index as int])->Some_0.1,
                items[i].asc,
                items[i].nulls_first,
            ),
    decreases items.len(),
{
    if items.len() > 0 {
        let head = items.drop_last();
        let n = items.len() - 1;
        lemma_pushed_order(columns, head);
        assert forall|i: int| 0 <= i < head.len() implies #[trigger] head[i] == items[i] by {}
        let now = pushed_order(columns, items);
        if now.len() == items.len() {
            assert forall|i: int| 0 <= i < items.len() implies sortable_column(
                columns[(#[trigger] items[i]).index as int],
            ) is Some && now[i] == (
                sortable_column(columns[items[i].index as int])->Some_0.0,
                sortable_column(columns[items[i].index as int])->Some_0.1,
                items[i].asc,
                items[i].nulls_first,
            ) by {
                if i < n {
                    assert(head[i] == items[i]);
                }
            }
            assert forall|i: int| 0 <= i < items.len() implies can_sort_by(
                #[trigger] items[i],
                columns,
            ) by {
                assert(sortable_column(columns[items[i].index as int]) is Some);
            }
        }
        if forall|i: int| 0 <= i < items.len() ==> can_sort_by(#[trigger] items[i], columns) {
            assert(can_sort_by(items[n], columns));
            assert forall|i: int| 0 <= i < head.len() implies can_sort_by(
                #[trigger] head[i],
                columns,
            ) by {
                assert(head[i] == items[i]);
            }
        }
    }
}

/// A scan stops at a limit only where it is the limit of the query and the storage sorts by all that
/// the query sorts by, in its order; where an ordered index answers the scan, only where the scan of
/// the index stops there too. Otherwise the limit of the query is that of the scan.
pub proof fn law_limit_is_pushed_where_the_order_is(
    r: PushDownInfo,
    scan: Scan,
    table_meta: TableMeta,
    columns: Seq<ColumnEntry>,
    schema: Seq<TableField>,
    has_inner_column: bool,
    has_lazy_columns: bool,
)
    requires
        is_pushed_down(
            r,
            scan,
            table_meta,
            columns,
            schema,
            has_inner_column,
            has_lazy_columns,
        ),
    ensures
        r.limit is Some ==> r.limit == scan.limit,
        r.limit is Some ==> (scan.order_by matches Some(items) ==> r.order_by@.len() == items@.len()
            && forall|i: int|
            0 <= i < items@.len() ==> sorts_by_item(
                #[trigger] r.order_by@[i],
                items@[i],
                columns,
            )),
        r.limit is Some ==> (r.ordered_index matches Some(info) ==> info.limit is Some),
        (scan.order_by matches Some(items) ==> forall|i: int|
            0 <= i < items@.len() ==> can_sort_by(#[trigger] items@[i], columns)) && (
        r.ordered_index matches Some(info) ==> info.limit is Some) ==> r.limit == scan.limit,
        scan.order_by is None ==> r.order_by@.len() == 0,
        r.lazy_materialization == has_lazy_columns,
        r.ordered_index is Some ==> r.prewhere is None,
        r.ordered_index is None ==> (r.prewhere is Some <==> scan.prewhere is Some),
{
    assert(orders_view(r.order_by@).len() == r.order_by@.len());
    match scan.order_by {
        Some(items) => {
            lemma_pushed_order(columns, items@);
            if r.limit is Some {
                assert forall|i: int| 0 <= i < items@.len() implies sorts_by_item(
                    #[trigger] r.order_by@[i],
                    items@[i],
                    columns,
                ) by {
                    assert(orders_view(r.order_by@)[i] == pushed_order(columns, items@)[i]);
                    assert(sortable_column(columns[items@[i].index as int]) is Some);
                }
            }
        },
        None => {},
    }
}

/// An early filter reads the fields of its columns first; every field that a column of the scan is
/// read from is read either by it or after it; and what is left once it was tried are the fields of
/// the columns that the scan is to give.
pub proof fn law_early_filter_and_the_rest_read_the_scan(
    info: PrewhereInfo,
    scan: Scan,
    prewhere: Prewhere,
    columns: Seq<ColumnEntry>,
    schema: Seq<TableField>,
    name: Seq<char>,
)
    requires
        is_prewhere(info, scan, prewhere, columns, schema, false),
        columns_known(columns, schema, scan.columns.items@, false, true, true),
        columns_known(columns, schema, prewhere.prewhere_columns.items@, false, true, true),
        columns_known(columns, schema, prewhere.output_columns.items@, false, true, false),
        schema.len() <= usize::MAX,
    ensures
        info.prewhere_columns@ is Columns,
        info.remain_columns@ is Columns,
        info.output_columns@ is Columns,
        reads_field(info.prewhere_columns@->Columns_0, schema, name) <==> is_asked_for(
            columns,
            prewhere.prewhere_columns.items@,
            true,
            name,
        ),
        reads_field(info.output_columns@->Columns_0, schema, name) <==> is_asked_for(
            columns,
            prewhere.output_columns.items@,
            false,
            name,
        ),
        is_asked_for(columns, scan.columns.items@, true, name) ==> reads_field(
            info.prewhere_columns@->Columns_0,
            schema,
            name,
        ) || reads_field(info.remain_columns@->Columns_0, schema, name),
        reads_field(info.remain_columns@->Columns_0, schema, name) ==> is_asked_for(
            columns,
            scan.columns.items@,
            true,
            name,
        ),
{
    let remain = choose|remain: ColumnSet| #[trigger]
        is_remainder(remain, scan, prewhere) && info.remain_columns@ == projection_of(
            columns,
            schema,
            remain.items@,
            false,
            true,
            true,
        );
    assert forall|i: int| 0 <= i < remain.items@.len() implies scan.columns.items@.contains(
        #[trigger] remain.items@[i],
    ) by {
        assert(remain@.contains(remain.items@[i]));
    }
    assert(columns_known(columns, schema, remain.items@, false, true, true)) by {
        assert forall|i: int| 0 <= i < remain.items@.len() implies (#[trigger] remain.items@[i])
            < columns.len() && crate::columns::column_known(
            columns[remain.items@[i] as int],
            schema,
            false,
            true,
            true,
        ) by {
            assert(scan.columns.items@.contains(remain.items@[i]));
            let k = choose|k: int|
                0 <= k < scan.columns.items@.len() && scan.columns.items@[k] == remain.items@[i];
            assert(scan.columns.items@[k] < columns.len());
        }
    }
    law_projection_reads_the_fields_of_its_columns(
        columns,
        schema,
        prewhere.prewhere_columns.items@,
        true,
        name,
    );
    law_projection_reads_the_fields_of_its_columns(
        columns,
        schema,
        prewhere.output_columns.items@,
        false,
        name,
    );
    law_projection_reads_the_fields_of_its_columns(columns, schema, remain.items@, true, name);
    if is_asked_for(columns, scan.columns.items@, true, name) {
        let symbols = scan.columns.items@;
        let i = choose|i: int|
            0 <= i < symbols.len() && field_read(columns[#[trigger] symbols[i] as int], true)
                == Some(name);
        let symbol = symbols[i];
        assert(scan.columns@.contains(symbol));
        if prewhere.prewhere_columns@.contains(symbol) {
            let early = prewhere.prewhere_columns.items@;
            assert(early.contains(symbol));
            let k = choose|k: int| 0 <= k < early.len() && early[k] == symbol;
            assert(field_read(columns[early[k] as int], true) == Some(name));
        } else {
            assert(remain@.contains(symbol));
            assert(remain.items@.contains(symbol));
            let k = choose|k: int| 0 <= k < remain.items@.len() && remain.items@[k] == symbol;
            assert(field_read(columns[remain.items@[k] as int], true) == Some(name));
        }
    }
    if is_asked_for(columns, remain.items@, true, name) {
        let i = choose|i: int|
            0 <= i < remain.items@.len() && field_read(
                columns[#[trigger] remain.items@[i] as int],
                true,
            ) == Some(name);
        let symbols = scan.columns.items@;
        assert(symbols.contains(remain.items@[i]));
        let k = choose|k: int| 0 <= k < symbols.len() && symbols[k] == remain.items@[i];
        assert(field_read(columns[symbols[k] as int], true) == Some(name));
    }
}

/// Virtual columns are read each as it is defined, out of its source and by its path, cast to its type
/// unless that is a variant; and each of the columns that they are read out of is read once.
pub proof fn law_virtual_columns_are_read_out_of_their_sources<N: Fn(TableDataType) -> String>(
    r: Option<VirtualColumnInfo>,
    virtual_columns: Seq<(usize, VirtualColumn)>,
    spell: N,
    i: int,
    id: u32,
)
    requires
        reads_virtual_columns(r, virtual_columns, spell),
    ensures
        r is Some <==> virtual_columns.len() > 0,
        r matches Some(info) ==> {
            &&& info.virtual_column_fields@.len() == virtual_columns.len()
            &&& 0 <= i < virtual_columns.len() ==> {
                let field = info.virtual_column_fields@[i];
                let column = virtual_columns[i].1;
                &&& field.name@ == column.column_name@
                &&& field.column_id == column.column_id
                &&& field.source_column_id == column.source_column_id
                &&& field.source_name@ == column.source_column_name@
                &&& field.key_paths@ == column.key_paths@
                &&& field.data_type == column.data_type
                &&& field.cast_func_name is None <==> column.data_type.kind is Variant
                &&& field.cast_func_name matches Some(name) ==> exists|t: TableDataType, text: String|
                    t.kind == column.data_type.kind && !t.nullable && #[trigger] call_ensures(
                        spell,
                        (t,),
                        text,
                    ) && name@ == "to_"@ + text@
            }
            &&& info.source_column_ids@.contains(id) <==> exists|k: int|
                0 <= k < virtual_columns.len() && (#[trigger] virtual_columns[k]).1.source_column_id
                    == id
            &&& info.source_column_ids@.no_duplicates()
        },
{
    if r is Some {
        let info = r->Some_0;
        let ids = source_ids(virtual_columns);
        let once = info.source_column_ids@;
        if 0 <= i < virtual_columns.len() {
            let field = info.virtual_column_fields@[i];
            let column = virtual_columns[i].1;
            if field.cast_func_name is Some {
                let plain = TableDataType { kind: column.data_type.kind, nullable: false };
                let text = choose|text: String| #[trigger]
                    call_ensures(spell, (plain,), text) && field.cast_func_name->Some_0@ == "to_"@
                        + text@;
                assert(call_ensures(spell, (plain,), text));
            }
        }
        if once.contains(id) {
            let k = choose|k: int| 0 <= k < once.len() && once[k] == id;
            lemma_first_places_of(ids, k);
            let m = choose|m: int| 0 <= m < ids.len() && ids[m] == id;
            assert(virtual_columns[m].1.source_column_id == id);
        }
        if exists|k: int|
            0 <= k < virtual_columns.len() && (#[trigger] virtual_columns[k]).1.source_column_id
                == id {
            let k = choose|k: int|
                0 <= k < virtual_columns.len() && (#[trigger] virtual_columns[k]).1.source_column_id
                    == id;
            assert(ids[k] == id);
            lemma_first_places_hold(ids, k);
        }
        assert forall|a: int, b: int|
            0 <= a < once.len() && 0 <= b < once.len() && a != b implies once[a] != once[b] by {
            lemma_first_places_of(ids, a);
            lemma_first_places_of(ids, b);
        }
    }
}

/// The storage reads, for a scan without inner columns, exactly the fields that the columns of the
/// scan are read from; where virtual columns are read, it gives the fields of the others. What the
/// scan says of changes, of other indexes and of sampling goes along.
pub proof fn law_scan_reads_the_fields_of_its_columns(
    r: PushDownInfo,
    scan: Scan,
    table_meta: TableMeta,
    columns: Seq<ColumnEntry>,
    schema: Seq<TableField>,
    has_lazy_columns: bool,
    name: Seq<char>,
)
    requires
        is_pushed_down(r, scan, table_meta, columns, schema, false, has_lazy_columns),
        columns_known(columns, schema, scan.columns.items@, false, true, true),
        schema.len() <= usize::MAX,
    ensures
        r.projection@ matches ProjectionModel::Columns(places) && (reads_field(places, schema, name)
            <==> is_asked_for(columns, scan.columns.items@, true, name)),
        r.output_columns is Some <==> r.virtual_column is Some,
        r.output_columns matches Some(output) ==> (output@ matches ProjectionModel::Columns(places)
            && (reads_field(places, schema, name) <==> is_asked_for(
            columns,
            scan.columns.items@,
            false,
            name,
        ))),
        r.change_type == scan.change_type,
        r.inverted_index == scan.inverted_index,
        r.vector_index == scan.vector_index,
        r.sample == scan.sample,
{
    assert(columns_known(columns, schema, scan.columns.items@, false, true, false));
    law_projection_reads_the_fields_of_its_columns(
        columns,
        schema,
        scan.columns.items@,
        true,
        name,
    );
    law_projection_reads_the_fields_of_its_columns(
        columns,
        schema,
        scan.columns.items@,
        false,
        name,
    );
}

} // verus!
