//! Choosing the ordered index that answers a scan.

use vstd::prelude::*;
use vstd::utf8::encode_utf8;

use crate::columns::{symbol_of_field, table_symbol_for_field, ColumnEntry};
use crate::expr::{collect_columns, columns_of};
use crate::filter::{field_index, index_of, opt_filters_view, BtreeIndexColumnOrder, Filters,
    FiltersModel};
use crate::lex::{lemma_lex_irreflexive, lemma_lex_total, lemma_lex_transitive};
use crate::scalar::TableField;
use crate::scan::SortItem;
use crate::table_meta::{covered_fields, covered_payload_fields, field_of_column_id, field_with_id,
    ids_of, TableIndexColumn, TableIndexColumnOrder, TableMeta};
use crate::text::{find_property, lemma_utf8_injective, property, same_ignoring_case, text_eq,
    text_eq_ignoring_case, text_is_before, text_lt};

verus! {

/// The property of an index that says what its rows cover.
pub const ORDERED_INDEX_OPTION_COVERED_TYPE: &'static str = "index_covered_type";

/// The value of that property for an index whose rows hold every column.
pub const ORDERED_INDEX_COVERED_ALL_COLUMNS: &'static str = "covered_all_columns_in_schema";

/// What an index is worth to a scan.
#[derive(Clone, Copy, Debug, PartialEq, Eq, Structural)]
pub struct OrderedIndexCandidateScore {
    pub prefix_len: usize,
    pub extra_filter_key_columns: usize,
    pub preserves_order: bool,
    pub payload_width: usize,
    pub key_width: usize,
}

/// Whether a candidate is better than another: a longer equality prefix decides first, then
/// keeping the order, then more filtered key columns, a narrower payload, a narrower key, and at
/// last the name.
pub open spec fn better_candidate(
    a: OrderedIndexCandidateScore,
    a_name: Seq<char>,
    b: OrderedIndexCandidateScore,
    b_name: Seq<char>,
) -> bool {
    ||| a.prefix_len > b.prefix_len
    ||| a.prefix_len == b.prefix_len && {
        ||| a.preserves_order && !b.preserves_order
        ||| a.preserves_order == b.preserves_order && {
            ||| a.extra_filter_key_columns > b.extra_filter_key_columns
            ||| a.extra_filter_key_columns == b.extra_filter_key_columns && {
                ||| a.payload_width < b.payload_width
                ||| a.payload_width == b.payload_width && {
                    ||| a.key_width < b.key_width
                    ||| a.key_width == b.key_width && text_lt(a_name, b_name)
                }
            }
        }
    }
}

/// Whether the candidate is better than the best one so far.
pub fn ordered_candidate_score_is_better(
    candidate: &OrderedIndexCandidateScore,
    candidate_name: &str,
    best: &OrderedIndexCandidateScore,
    best_name: &str,
) -> (r: bool)
    ensures
        r == better_candidate(*candidate, candidate_name@, *best, best_name@),
{
    if candidate.prefix_len != best.prefix_len {
        return candidate.prefix_len > best.prefix_len;
    }
    if candidate.preserves_order != best.preserves_order {
        return candidate.preserves_order;
    }
    if candidate.extra_filter_key_columns != best.extra_filter_key_columns {
        return candidate.extra_filter_key_columns > best.extra_filter_key_columns;
    }
    if candidate.payload_width != best.payload_width {
        return candidate.payload_width < best.payload_width;
    }
    if candidate.key_width != best.key_width {
        return candidate.key_width < best.key_width;
    }
    text_is_before(candidate_name, best_name)
}

/// The rows of an index with these options hold every column.
pub open spec fn covers_all(options: Seq<(String, String)>) -> bool {
    match property(options, ORDERED_INDEX_OPTION_COVERED_TYPE@) {
        Some(value) => same_ignoring_case(value, ORDERED_INDEX_COVERED_ALL_COLUMNS@),
        None => false,
    }
}

/// Whether the rows of an index with these options hold every column.
pub fn is_ordered_covered_all_columns(options: &Vec<(String, String)>) -> (r: bool)
    ensures
        r == covers_all(options@),
{
    match find_property(options, ORDERED_INDEX_OPTION_COVERED_TYPE) {
        Some(value) => text_eq_ignoring_case(value, ORDERED_INDEX_COVERED_ALL_COLUMNS),
        None => false,
    }
}

/// Of two candidates at most one is better than the other, and none than itself.
pub proof fn law_better_is_asymmetric(
    a: OrderedIndexCandidateScore,
    a_name: Seq<char>,
    b: OrderedIndexCandidateScore,
    b_name: Seq<char>,
)
    ensures
        !(better_candidate(a, a_name, b, b_name) && better_candidate(b, b_name, a, a_name)),
{
    let x = encode_utf8(a_name);
    let y = encode_utf8(b_name);
    if text_lt(a_name, b_name) && text_lt(b_name, a_name) {
        lemma_lex_transitive(x, y, x);
        lemma_lex_irreflexive(x);
    }
}

/// A candidate that is better than a second, which is better than a third, is better than the
/// third.
pub proof fn law_better_is_transitive(
    a: OrderedIndexCandidateScore,
    a_name: Seq<char>,
    b: OrderedIndexCandidateScore,
    b_name: Seq<char>,
    c: OrderedIndexCandidateScore,
    c_name: Seq<char>,
)
    requires
        better_candidate(a, a_name, b, b_name),
        better_candidate(b, b_name, c, c_name),
    ensures
        better_candidate(a, a_name, c, c_name),
{
    if text_lt(a_name, b_name) && text_lt(b_name, c_name) {
        lemma_lex_transitive(encode_utf8(a_name), encode_utf8(b_name), encode_utf8(c_name));
    }
}

/// Of two candidates that differ in score or in name one is better.
pub proof fn law_better_is_total(
    a: OrderedIndexCandidateScore,
    a_name: Seq<char>,
    b: OrderedIndexCandidateScore,
    b_name: Seq<char>,
)
    ensures
        better_candidate(a, a_name, b, b_name) || better_candidate(b, b_name, a, a_name) || (a == b
            && a_name == b_name),
{
    lemma_lex_total(encode_utf8(a_name), encode_utf8(b_name));
    if encode_utf8(a_name) == encode_utf8(b_name) {
        lemma_utf8_injective(a_name, b_name);
    }
}

/// Whether a key column is ascending.
pub fn key_order_is_asc(order: TableIndexColumnOrder) -> (r: bool)
    ensures
        r == (order is Asc),
{
    match order {
        TableIndexColumnOrder::Asc => true,
        TableIndexColumnOrder::Desc => false,
    }
}

/// The direction of a key column in a scan of the index.
pub open spec fn pushdown_order(order: TableIndexColumnOrder) -> BtreeIndexColumnOrder {
    match order {
        TableIndexColumnOrder::Asc => BtreeIndexColumnOrder::Asc,
        TableIndexColumnOrder::Desc => BtreeIndexColumnOrder::Desc,
    }
}

/// The direction of a key column in a scan of the index.
pub fn to_ordered_pushdown_order(order: TableIndexColumnOrder) -> (r: BtreeIndexColumnOrder)
    ensures
        r == pushdown_order(order),
{
    match order {
        TableIndexColumnOrder::Asc => BtreeIndexColumnOrder::Asc,
        TableIndexColumnOrder::Desc => BtreeIndexColumnOrder::Desc,
    }
}

/// The fields that the rows of an ordered index hold.
pub fn ordered_payload_fields(
    table_meta: &TableMeta,
    key_columns: &Vec<TableIndexColumn>,
    include_column_ids: &Vec<u32>,
    covered_all_columns: bool,
) -> (r: Option<Vec<TableField>>)
    ensures
        match r {
            Some(fields) => covered_fields(
                table_meta.schema@,
                ids_of(key_columns@),
                include_column_ids@,
                covered_all_columns,
            ) == Some(fields@),
            None => covered_fields(
                table_meta.schema@,
                ids_of(key_columns@),
                include_column_ids@,
                covered_all_columns,
            ) is None,
        },
{
    covered_payload_fields(
        &table_meta.schema,
        key_columns,
        include_column_ids,
        covered_all_columns,
    )
}

/// The texts among several strings.
pub open spec fn texts_of(names: Seq<String>) -> Set<Seq<char>> {
    Set::new(|name: Seq<char>| exists|i: int| 0 <= i < names.len() && (#[trigger] names[i])@ == name)
}

/// The names of the columns that a filter is over.
pub open spec fn filter_names(filters: Option<FiltersModel>) -> Set<Seq<char>> {
    match filters {
        None => Set::empty(),
        Some(filters) => names_at(filters.columns, columns_of(filters.expr)),
    }
}

/// The names at some places among others.
pub open spec fn names_at(names: Seq<Seq<char>>, places: Seq<usize>) -> Set<Seq<char>> {
    Set::new(
        |name: Seq<char>|
            exists|i: int|
                0 <= i < places.len() && (#[trigger] places[i]) < names.len()
                    && names[places[i] as int] == name,
    )
}

/// The names of the columns that a filter is over.
pub fn ordered_filter_column_names(filters: &Option<Filters>) -> (r: Vec<String>)
    ensures
        texts_of(r@) == filter_names(opt_filters_view(*filters)),
{
    let mut names: Vec<String> = Vec::new();
    match filters {
        None => {
            assert(texts_of(names@) =~= Set::<Seq<char>>::empty());
            names
        },
        Some(given) => {
            let mut places: Vec<usize> = Vec::new();
            collect_columns(&given.expr, &mut places);
            assert(places@ =~= columns_of(given.expr@));
            let mut i: usize = 0;
            assert(texts_of(names@) =~= names_at(given@.columns, places@.take(0)));
            while i < places.len()
                invariant
                    i <= places@.len(),
                    texts_of(names@) == names_at(given@.columns, places@.take(i as int)),
                decreases places@.len() - i,
            {
                let ghost before = names@;
                let ghost was = places@.take(i as int);
                let ghost now = places@.take(i + 1);
                if places[i] < given.columns.len() {
                    names.push(given.columns[places[i]].clone());
                }
                proof {
                    let added = names@;
                    assert forall|name: Seq<char>| texts_of(added).contains(name) implies names_at(
                        given@.columns,
                        now,
                    ).contains(name) by {
                        let k = choose|k: int|
                            0 <= k < added.len() && (#[trigger] added[k])@ == name;
                        if k < before.len() {
                            assert(before[k]@ == name);
                            assert(names_at(given@.columns, was).contains(name));
                            let m = choose|m: int|
                                0 <= m < was.len() && (#[trigger] was[m]) < given@.columns.len()
                                    && given@.columns[was[m] as int] == name;
                            assert(now[m] == was[m]);
                        } else {
                            assert(now[i as int] == places@[i as int]);
                        }
                    }
                    assert forall|name: Seq<char>| names_at(given@.columns, now).contains(
                        name,
                    ) implies texts_of(added).contains(name) by {
                        let m = choose|m: int|
                            0 <= m < now.len() && (#[trigger] now[m]) < given@.columns.len()
                                && given@.columns[now[m] as int] == name;
                        if m < i {
                            assert(was[m] == now[m]);
                            assert(texts_of(before).contains(name));
                            let k = choose|k: int|
                                0 <= k < before.len() && (#[trigger] before[k])@ == name;
                            assert(added[k]@ == name);
                        } else {
                            assert(added[before.len() as int]@ == name);
                        }
                    }
                    assert(texts_of(added) =~= names_at(given@.columns, now));
                }
                i = i + 1;
            }
            assert(places@.take(places@.len() as int) =~= places@);
            names
        },
    }
}

fn holds_text(names: &Vec<String>, name: &str) -> (r: bool)
    ensures
        r == texts_of(names@).contains(name@),
{
    let mut i: usize = 0;
    while i < names.len()
        invariant
            i <= names@.len(),
            forall|k: int| 0 <= k < i ==> (#[trigger] names@[k])@ != name@,
        decreases names@.len() - i,
    {
        if text_eq(names[i].as_str(), name) {
            assert(names@[i as int]@ == name@);
            return true;
        }
        i = i + 1;
    }
    false
}

/// The fields hold every column that a filter is over.
pub open spec fn filters_covered(names: Set<Seq<char>>, fields: Seq<TableField>) -> bool {
    forall|name: Seq<char>| #[trigger]
        names.contains(name) ==> field_index(fields, name) is Some
}

/// Whether the fields hold every column that a filter is over.
pub fn ordered_filters_are_covered(filters: &Option<Filters>, payload_fields: &Vec<TableField>) -> (r:
    bool)
    ensures
        r == filters_covered(filter_names(opt_filters_view(*filters)), payload_fields@),
{
    let names = ordered_filter_column_names(filters);
    let mut i: usize = 0;
    while i < names.len()
        invariant
            i <= names@.len(),
            texts_of(names@) == filter_names(opt_filters_view(*filters)),
            forall|k: int|
                0 <= k < i ==> field_index(payload_fields@, (#[trigger] names@[k])@) is Some,
        decreases names@.len() - i,
    {
        if index_of(payload_fields, names[i].as_str()).is_none() {
            assert(texts_of(names@).contains(names@[i as int]@));
            return false;
        }
        i = i + 1;
    }
    proof {
        assert forall|name: Seq<char>| #[trigger]
            filter_names(opt_filters_view(*filters)).contains(name) implies field_index(
            payload_fields@,
            name,
        ) is Some by {
            assert(texts_of(names@).contains(name));
        }
    }
    true
}

/// A key column is one that a filter is over.
pub open spec fn is_filtered_key(
    schema: Seq<TableField>,
    key_column: TableIndexColumn,
    names: Set<Seq<char>>,
) -> bool {
    field_with_id(schema, key_column.column_id) matches Some(field) && names.contains(field.name@)
}

/// How many key columns a filter is over.
pub open spec fn filtered_keys(
    schema: Seq<TableField>,
    key_columns: Seq<TableIndexColumn>,
    names: Set<Seq<char>>,
) -> nat
    decreases key_columns.len(),
{
    if key_columns.len() == 0 {
        0
    } else {
        filtered_keys(schema, key_columns.drop_last(), names) + if is_filtered_key(
            schema,
            key_columns.last(),
            names,
        ) {
            1nat
        } else {
            0nat
        }
    }
}

/// How many key columns from one on a filter is over.
pub open spec fn extra_filtered_keys(
    schema: Seq<TableField>,
    key_columns: Seq<TableIndexColumn>,
    first: int,
    names: Set<Seq<char>>,
) -> nat {
    if first >= key_columns.len() {
        0
    } else {
        filtered_keys(schema, key_columns.skip(first), names)
    }
}

/// How many key columns from one on a filter is over.
pub fn ordered_extra_filter_key_column_count(
    table_meta: &TableMeta,
    key_columns: &Vec<TableIndexColumn>,
    first_extra_key_index: usize,
    filter_column_names: &Vec<String>,
) -> (r: usize)
    ensures
        r == extra_filtered_keys(
            table_meta.schema@,
            key_columns@,
            first_extra_key_index as int,
            texts_of(filter_column_names@),
        ),
{
    if first_extra_key_index >= key_columns.len() {
        return 0;
    }
    let ghost rest = key_columns@.skip(first_extra_key_index as int);
    let mut count: usize = 0;
    let mut i: usize = first_extra_key_index;
    assert(rest.take(0) =~= Seq::<TableIndexColumn>::empty());
    while i < key_columns.len()
        invariant
            first_extra_key_index <= i <= key_columns@.len(),
            rest == key_columns@.skip(first_extra_key_index as int),
            count <= i - first_extra_key_index,
            count == filtered_keys(
                table_meta.schema@,
                rest.take(i - first_extra_key_index),
                texts_of(filter_column_names@),
            ),
        decreases key_columns@.len() - i,
    {
        proof {
            let t = rest.take(i + 1 - first_extra_key_index);
            assert(t.drop_last() =~= rest.take(i - first_extra_key_index));
            assert(t.last() == key_columns@[i as int]);
        }
        match field_of_column_id(&table_meta.schema, key_columns[i].column_id) {
            Some(field) => {
                if holds_text(filter_column_names, field.name.as_str()) {
                    count = count + 1;
                }
            },
            None => {},
        }
        i = i + 1;
    }
    assert(rest.take(rest.len() as int) =~= rest);
    count
}

/// The symbol of a key column.
pub open spec fn key_symbol(
    schema: Seq<TableField>,
    columns: Seq<ColumnEntry>,
    table_index: usize,
    key_column: TableIndexColumn,
) -> Option<usize> {
    match field_with_id(schema, key_column.column_id) {
        Some(field) => symbol_of_field(columns, table_index, field.name@),
        None => None,
    }
}

/// Finds the symbol of a key column.
pub fn find_key_symbol(
    table_meta: &TableMeta,
    columns: &Vec<ColumnEntry>,
    table_index: usize,
    key_column: &TableIndexColumn,
) -> (r: Option<usize>)
    ensures
        r == key_symbol(table_meta.schema@, columns@, table_index, *key_column),
{
    match field_of_column_id(&table_meta.schema, key_column.column_id) {
        Some(field) => table_symbol_for_field(columns, table_index, field.name.as_str()),
        None => None,
    }
}

/// The key columns after the first `prefix_len` are those that the rows are to be sorted by, in
/// the same directions, with nulls last.
pub open spec fn keeps_order(
    schema: Seq<TableField>,
    columns: Seq<ColumnEntry>,
    table_index: usize,
    key_columns: Seq<TableIndexColumn>,
    prefix_len: int,
    order_by: Seq<SortItem>,
) -> bool {
    &&& prefix_len + order_by.len() <= key_columns.len()
    &&& forall|i: int|
        0 <= i < order_by.len() ==> sorts_by(
            schema,
            columns,
            table_index,
            key_columns[prefix_len + i],
            #[trigger] order_by[i],
        )
}

/// A key column is the one of a sort item, in its direction, with nulls last.
pub open spec fn sorts_by(
    schema: Seq<TableField>,
    columns: Seq<ColumnEntry>,
    table_index: usize,
    key_column: TableIndexColumn,
    item: SortItem,
) -> bool {
    &&& key_symbol(schema, columns, table_index, key_column) == Some(item.index)
    &&& (key_column.order is Asc) == item.asc
    &&& !item.nulls_first
}

/// Whether the key columns after the first `prefix_len` sort the rows as the scan asks.
pub fn ordered_index_matches_scan_order(
    table_meta: &TableMeta,
    columns: &Vec<ColumnEntry>,
    table_index: usize,
    key_columns: &Vec<TableIndexColumn>,
    prefix_len: usize,
    order_by: &Vec<SortItem>,
) -> (r: bool)
    ensures
        r == keeps_order(
            table_meta.schema@,
            columns@,
            table_index,
            key_columns@,
            prefix_len as int,
            order_by@,
        ),
{
    if prefix_len > key_columns.len() || order_by.len() > key_columns.len() - prefix_len {
        return false;
    }
    let mut offset: usize = 0;
    while offset < order_by.len()
        invariant
            offset <= order_by@.len(),
            prefix_len + order_by@.len() <= key_columns@.len(),
            forall|i: int|
                0 <= i < offset ==> sorts_by(
                    table_meta.schema@,
                    columns@,
                    table_index,
                    key_columns@[prefix_len + i],
                    #[trigger] order_by@[i],
                ),
        decreases order_by@.len() - offset,
    {
        assert(prefix_len + offset < key_columns.len());
        let key_column = &key_columns[prefix_len + offset];
        let item = &order_by[offset];
        assert(key_columns@[prefix_len + offset] == *key_column);
        match find_key_symbol(table_meta, columns, table_index, key_column) {
            None => {
                assert(!sorts_by(
                    table_meta.schema@,
                    columns@,
                    table_index,
                    key_columns@[prefix_len + offset],
                    order_by@[offset as int],
                ));
                return false;
            },
            Some(symbol) => {
                if symbol != item.index || key_order_is_asc(key_column.order) != item.asc
                    || item.nulls_first {
                    assert(!sorts_by(
                        table_meta.schema@,
                        columns@,
                        table_index,
                        key_columns@[prefix_len + offset],
                        order_by@[offset as int],
                    ));
                    return false;
                }
            },
        }
        offset = offset + 1;
    }
    true
}

} // verus!
