//! The scan of an ordered index that answers a scan of its table.

use std::collections::HashMap;

use vstd::prelude::*;

use crate::columns::ColumnEntry;
use crate::filter::{clone_opt_filters, field_index, index_of, opt_filters_view, BtreeIndexInfo,
    BtreeIndexKeyColumn, Filters, FiltersModel};
use crate::ordered_index::{better_candidate, covers_all, extra_filtered_keys, filter_names,
    filters_covered, find_key_symbol, is_ordered_covered_all_columns, keeps_order, key_symbol,
    law_better_is_asymmetric, law_better_is_total, law_better_is_transitive,
    ordered_candidate_score_is_better, ordered_extra_filter_key_column_count,
    ordered_filter_column_names, ordered_filters_are_covered, ordered_index_matches_scan_order,
    ordered_payload_fields, pushdown_order, texts_of, to_ordered_pushdown_order,
    OrderedIndexCandidateScore};
use crate::scalar::{clone_scalar, lemma_scalars_view, scalars_view, Scalar, ScalarModel,
    TableField};
use crate::scalar_expr::{collect_all_prefix_constants, constants_view, plan_exprs_view,
    with_all_constants};
use crate::scan::{Scan, SortItem};
use crate::table_meta::{covered_fields, field_of_column_id, field_with_id, ids_of, key_columns_of,
    TableIndex, TableIndexColumn, TableIndexType, TableMeta};

verus! {

/// What is asked of an ordered index.
pub struct OrderedQuery {
    pub schema: Seq<TableField>,
    pub columns: Seq<ColumnEntry>,
    pub table_index: usize,
    /// The columns that are read.
    pub symbols: Seq<usize>,
    /// The columns that the predicates fix, with their values.
    pub constants: Map<usize, ScalarModel>,
    pub order_by: Seq<SortItem>,
    /// The columns that the filter is over.
    pub names: Set<Seq<char>>,
}

/// What an index offers to a query.
pub struct OrderedCandidate {
    pub score: OrderedIndexCandidateScore,
    pub prefix: Seq<ScalarModel>,
    pub payload: Seq<TableField>,
}

/// What a scan asks of an ordered index.
pub open spec fn ordered_query(
    scan: Scan,
    table_meta: TableMeta,
    columns: Seq<ColumnEntry>,
    filters: Option<FiltersModel>,
) -> OrderedQuery {
    OrderedQuery {
        schema: table_meta.schema@,
        columns,
        table_index: scan.table_index,
        symbols: scan.columns.items@,
        constants: with_all_constants(
            plan_exprs_view(scan.push_down_predicates->Some_0@),
            Map::empty(),
        ),
        order_by: scan.order_by->Some_0@,
        names: filter_names(filters),
    }
}

/// Whether a scan can be answered by an ordered index at all: it has a limit, predicates and an
/// order, and no row access policy.
pub open spec fn asks_for_order(scan: Scan) -> bool {
    &&& !(scan.secure_predicates matches Some(predicates) && predicates@.len() > 0)
    &&& scan.limit is Some
    &&& scan.push_down_predicates matches Some(predicates) && predicates@.len() > 0
    &&& scan.order_by matches Some(items) && items@.len() > 0
}

/// The values of the leading key columns, as far as the predicates fix them. There are none where
/// one of these columns, or the one after them, is not a column of the plan.
pub open spec fn fixed_prefix(query: OrderedQuery, key_columns: Seq<TableIndexColumn>) -> Option<
    Seq<ScalarModel>,
>
    decreases key_columns.len(),
{
    if key_columns.len() == 0 {
        Some(Seq::empty())
    } else {
        match key_symbol(query.schema, query.columns, query.table_index, key_columns[0]) {
            None => None,
            Some(symbol) => if query.constants.contains_key(symbol) {
                match fixed_prefix(query, key_columns.skip(1)) {
                    None => None,
                    Some(rest) => Some(seq![query.constants[symbol]] + rest),
                }
            } else {
                Some(Seq::empty())
            },
        }
    }
}

/// The fields hold every column of the table that is read.
pub open spec fn reads_covered(query: OrderedQuery, payload: Seq<TableField>) -> bool {
    forall|i: int|
        0 <= i < query.symbols.len() ==> column_covered(
            query.columns[#[trigger] query.symbols[i] as int],
            payload,
        )
}

/// The fields hold the column, if it is one of the table.
pub open spec fn column_covered(entry: ColumnEntry, payload: Seq<TableField>) -> bool {
    entry matches ColumnEntry::BaseTableColumn(column) ==> field_index(
        payload,
        column.column_name@,
    ) is Some
}

/// Every key column is a column of the table.
pub open spec fn keys_known(schema: Seq<TableField>, key_columns: Seq<TableIndexColumn>) -> bool {
    forall|i: int|
        0 <= i < key_columns.len() ==> field_with_id(
            schema,
            (#[trigger] key_columns[i]).column_id,
        ) is Some
}

/// What an index offers to a query. It must fix a part of the key, but not all of it, and then
/// either sort the rows as they are asked for or filter on a later key column; and its rows must
/// hold all that is read.
pub open spec fn candidate_of(query: OrderedQuery, index: TableIndex) -> Option<OrderedCandidate> {
    let key_columns = key_columns_of(index);
    let payload = covered_fields(
        query.schema,
        ids_of(key_columns),
        index.include_column_ids@,
        covers_all(index.options@),
    );
    let prefix = fixed_prefix(query, key_columns);
    let prefix_len = prefix->Some_0.len();
    let preserves_order = keeps_order(
        query.schema,
        query.columns,
        query.table_index,
        key_columns,
        prefix_len as int,
        query.order_by,
    );
    let extra = extra_filtered_keys(
        query.schema,
        key_columns,
        if preserves_order {
            prefix_len + query.order_by.len()
        } else {
            prefix_len
        } as int,
        query.names,
    );
    if index.index_type is Ordered && payload is Some && prefix is Some && 0 < prefix_len
        < key_columns.len() && (preserves_order || extra > 0) && reads_covered(
        query,
        payload->Some_0,
    ) && filters_covered(query.names, payload->Some_0) && keys_known(query.schema, key_columns) {
        Some(
            OrderedCandidate {
                score: OrderedIndexCandidateScore {
                    prefix_len: prefix_len as usize,
                    extra_filter_key_columns: extra as usize,
                    preserves_order,
                    payload_width: payload->Some_0.len() as usize,
                    key_width: key_columns.len() as usize,
                },
                prefix: prefix->Some_0,
                payload: payload->Some_0,
            },
        )
    } else {
        None
    }
}

/// The candidate at `a` is better than the one at `b`.
pub open spec fn better_index(
    query: OrderedQuery,
    indexes: Seq<TableIndex>,
    a: int,
    b: int,
) -> bool {
    better_candidate(
        candidate_of(query, indexes[a])->Some_0.score,
        indexes[a].name@,
        candidate_of(query, indexes[b])->Some_0.score,
        indexes[b].name@,
    )
}

/// The index at `k` is the best of those that offer something: better than every one before it,
/// and no worse than any after it.
pub open spec fn is_best_index(query: OrderedQuery, indexes: Seq<TableIndex>, k: int) -> bool {
    &&& 0 <= k < indexes.len()
    &&& candidate_of(query, indexes[k]) is Some
    &&& forall|j: int|
        0 <= j < k && candidate_of(query, #[trigger] indexes[j]) is Some ==> better_index(
            query,
            indexes,
            k,
            j,
        )
    &&& forall|j: int|
        k < j < indexes.len() && candidate_of(query, #[trigger] indexes[j]) is Some
            ==> !better_index(query, indexes, j, k)
}

/// The key columns of a scan of an index.
pub open spec fn are_key_columns(
    keys: Seq<BtreeIndexKeyColumn>,
    schema: Seq<TableField>,
    key_columns: Seq<TableIndexColumn>,
) -> bool {
    &&& keys.len() == key_columns.len()
    &&& forall|i: int|
        0 <= i < keys.len() ==> field_with_id(schema, key_columns[i].column_id) == Some(
            (#[trigger] keys[i]).field,
        ) && keys[i].order == pushdown_order(key_columns[i].order)
}

/// How many of the indexes are ordered ones.
pub open spec fn ordered_count(indexes: Seq<TableIndex>) -> nat
    decreases indexes.len(),
{
    if indexes.len() == 0 {
        0
    } else {
        ordered_count(indexes.drop_last()) + if indexes.last().index_type is Ordered {
            1nat
        } else {
            0nat
        }
    }
}

/// A scan of an index does what the index offers to the query.
pub open spec fn is_index_scan(
    info: BtreeIndexInfo,
    query: OrderedQuery,
    indexes: Seq<TableIndex>,
    k: int,
    limit: Option<usize>,
    filters: Option<FiltersModel>,
) -> bool {
    let candidate = candidate_of(query, indexes[k])->Some_0;
    &&& info.index_name@ == indexes[k].name@
    &&& info.index_version@ == indexes[k].version@
    &&& are_key_columns(info.key_columns@, query.schema, key_columns_of(indexes[k]))
    &&& info.payload_fields@ == candidate.payload
    &&& scalars_view(info.equality_prefix@) == candidate.prefix
    &&& info.limit == if candidate.score.preserves_order {
        limit
    } else {
        None
    }
    &&& opt_filters_view(info.filters) == filters
    &&& info.use_block_btree_index_size_hint == (ordered_count(indexes) == 1)
}

/// The parts of a scan of an index.
struct Offer {
    score: OrderedIndexCandidateScore,
    key_columns: Vec<BtreeIndexKeyColumn>,
    payload_fields: Vec<TableField>,
    prefix_values: Vec<Scalar>,
}

impl Offer {
    spec fn is_from(self, query: OrderedQuery, index: TableIndex) -> bool {
        &&& candidate_of(query, index) matches Some(candidate)
        &&& candidate.score == self.score
        &&& candidate.payload == self.payload_fields@
        &&& candidate.prefix == scalars_view(self.prefix_values@)
        &&& are_key_columns(self.key_columns@, query.schema, key_columns_of(index))
    }
}

/// The values of the leading key columns, as far as the predicates fix them.
fn fix_prefix(
    table_meta: &TableMeta,
    columns: &Vec<ColumnEntry>,
    table_index: usize,
    key_columns: &Vec<TableIndexColumn>,
    constants: &HashMap<usize, Scalar>,
    Ghost(query): Ghost<OrderedQuery>,
) -> (r: Option<Vec<Scalar>>)
    requires
        query.schema == table_meta.schema@,
        query.columns == columns@,
        query.table_index == table_index,
        query.constants == constants_view(constants@),
    ensures
        match r {
            Some(values) => fixed_prefix(query, key_columns@) == Some(scalars_view(values@)),
            None => fixed_prefix(query, key_columns@) is None,
        },
{
    broadcast use vstd::std_specs::hash::group_hash_axioms;

    let mut values: Vec<Scalar> = Vec::new();
    let mut i: usize = 0;
    assert(key_columns@.skip(0) =~= key_columns@);
    while i < key_columns.len()
        invariant
            i <= key_columns@.len(),
            query.schema == table_meta.schema@,
            query.columns == columns@,
            query.table_index == table_index,
            query.constants == constants_view(constants@),
            fixed_prefix(query, key_columns@) == (match fixed_prefix(
                query,
                key_columns@.skip(i as int),
            ) {
                Some(rest) => Some(scalars_view(values@) + rest),
                None => None,
            }),
        decreases key_columns@.len() - i,
    {
        broadcast use vstd::std_specs::hash::group_hash_axioms;

        let ghost rest = key_columns@.skip(i as int);
        assert(rest[0] == key_columns@[i as int]);
        assert(rest.skip(1) =~= key_columns@.skip(i + 1));
        match find_key_symbol(table_meta, columns, table_index, &key_columns[i]) {
            None => {
                return None;
            },
            Some(symbol) => match constants.get(&symbol) {
                None => {
                    assert(scalars_view(values@) + Seq::<ScalarModel>::empty() =~= scalars_view(
                        values@,
                    ));
                    return Some(values);
                },
                Some(value) => {
                    let ghost before = values@;
                    values.push(clone_scalar(value));
                    proof {
                        assert(values@.drop_last() =~= before);
                        assert(query.constants[symbol] == value@);
                        let after = fixed_prefix(query, key_columns@.skip(i + 1));
                        if after is Some {
                            assert(scalars_view(before) + (seq![value@] + after->Some_0)
                                =~= scalars_view(values@) + after->Some_0);
                        }
                    }
                },
            },
        }
        i = i + 1;
    }
    assert(key_columns@.skip(i as int) =~= Seq::<TableIndexColumn>::empty());
    assert(scalars_view(values@) + Seq::<ScalarModel>::empty() =~= scalars_view(values@));
    Some(values)
}

fn read_columns_are_covered(
    columns: &Vec<ColumnEntry>,
    symbols: &Vec<usize>,
    payload_fields: &Vec<TableField>,
    Ghost(query): Ghost<OrderedQuery>,
) -> (r: bool)
    requires
        query.columns == columns@,
        query.symbols == symbols@,
        forall|i: int| 0 <= i < symbols@.len() ==> (#[trigger] symbols@[i]) < columns@.len(),
    ensures
        r == reads_covered(query, payload_fields@),
{
    let mut i: usize = 0;
    while i < symbols.len()
        invariant
            i <= symbols@.len(),
            query.columns == columns@,
            query.symbols == symbols@,
            forall|i: int| 0 <= i < symbols@.len() ==> (#[trigger] symbols@[i]) < columns@.len(),
            forall|k: int|
                0 <= k < i ==> column_covered(
                    query.columns[#[trigger] query.symbols[k] as int],
                    payload_fields@,
                ),
        decreases symbols@.len() - i,
    {
        assert(query.symbols[i as int] == symbols@[i as int]);
        match &columns[symbols[i]] {
            ColumnEntry::BaseTableColumn(column) => {
                if index_of(payload_fields, column.column_name.as_str()).is_none() {
                    assert(!column_covered(
                        query.columns[query.symbols[i as int] as int],
                        payload_fields@,
                    ));
                    return false;
                }
            },
            _ => {},
        }
        i = i + 1;
    }
    true
}

fn key_columns_for_scan(table_meta: &TableMeta, key_columns: &Vec<TableIndexColumn>) -> (r: Option<
    Vec<BtreeIndexKeyColumn>,
>)
    ensures
        match r {
            Some(keys) => keys_known(table_meta.schema@, key_columns@) && are_key_columns(
                keys@,
                table_meta.schema@,
                key_columns@,
            ),
            None => !keys_known(table_meta.schema@, key_columns@),
        },
{
    let mut keys: Vec<BtreeIndexKeyColumn> = Vec::new();
    let mut i: usize = 0;
    while i < key_columns.len()
        invariant
            i <= key_columns@.len(),
            keys@.len() == i,
            forall|k: int|
                0 <= k < i ==> field_with_id(table_meta.schema@, key_columns@[k].column_id) == Some(
                    (#[trigger] keys@[k]).field,
                ) && keys@[k].order == pushdown_order(key_columns@[k].order),
        decreases key_columns@.len() - i,
    {
        match field_of_column_id(&table_meta.schema, key_columns[i].column_id) {
            None => {
                assert(field_with_id(
                    table_meta.schema@,
                    (key_columns@[i as int]).column_id,
                ) is None);
                return None;
            },
            Some(field) => {
                keys.push(
                    BtreeIndexKeyColumn {
                        field: field.clone(),
                        order: to_ordered_pushdown_order(key_columns[i].order),
                    },
                );
            },
        }
        i = i + 1;
    }
    proof {
        assert forall|k: int| 0 <= k < key_columns@.len() implies field_with_id(
            table_meta.schema@,
            (#[trigger] key_columns@[k]).column_id,
        ) is Some by {
            assert(field_with_id(table_meta.schema@, key_columns@[k].column_id) == Some(
                keys@[k].field,
            ));
        }
    }
    Some(keys)
}

/// What an index offers to a scan.
fn offer_of(
    scan: &Scan,
    table_meta: &TableMeta,
    columns: &Vec<ColumnEntry>,
    filters: &Option<Filters>,
    filter_column_names: &Vec<String>,
    constants: &HashMap<usize, Scalar>,
    index: &TableIndex,
    Ghost(query): Ghost<OrderedQuery>,
) -> (r: Option<Offer>)
    requires
        asks_for_order(*scan),
        query == ordered_query(*scan, *table_meta, columns@, opt_filters_view(*filters)),
        query.constants == constants_view(constants@),
        query.names == texts_of(filter_column_names@),
        forall|i: int|
            0 <= i < scan.columns.items@.len() ==> (#[trigger] scan.columns.items@[i])
                < columns@.len(),
    ensures
        match r {
            Some(offer) => offer.is_from(query, *index),
            None => candidate_of(query, *index) is None,
        },
{
    match index.index_type {
        TableIndexType::Ordered => {},
        _ => {
            return None;
        },
    }
    let key_columns = index.effective_key_columns();
    if key_columns.len() == 0 {
        return None;
    }
    let payload_fields = match ordered_payload_fields(
        table_meta,
        &key_columns,
        &index.include_column_ids,
        is_ordered_covered_all_columns(&index.options),
    ) {
        Some(fields) => fields,
        None => {
            return None;
        },
    };
    let prefix_values = match fix_prefix(
        table_meta,
        columns,
        scan.table_index,
        &key_columns,
        constants,
        Ghost(query),
    ) {
        Some(values) => values,
        None => {
            return None;
        },
    };
    proof {
        lemma_scalars_view(prefix_values@);
    }
    let prefix_len: usize = prefix_values.len();
    if prefix_len == 0 || prefix_len >= key_columns.len() {
        return None;
    }
    let order_by = scan.order_by.as_ref().unwrap();
    let preserves_order = ordered_index_matches_scan_order(
        table_meta,
        columns,
        scan.table_index,
        &key_columns,
        prefix_len,
        order_by,
    );
    assert(key_columns@.len() == key_columns.len());
    let first_extra_key_index: usize = if preserves_order {
        prefix_len + order_by.len()
    } else {
        prefix_len
    };
    let extra_filter_key_columns: usize = ordered_extra_filter_key_column_count(
        table_meta,
        &key_columns,
        first_extra_key_index,
        filter_column_names,
    );
    if !preserves_order && extra_filter_key_columns == 0 {
        return None;
    }
    if !read_columns_are_covered(columns, &scan.columns.items, &payload_fields, Ghost(query)) {
        return None;
    }
    if !ordered_filters_are_covered(filters, &payload_fields) {
        return None;
    }
    match key_columns_for_scan(table_meta, &key_columns) {
        None => None,
        Some(keys) => {
            let score = OrderedIndexCandidateScore {
                prefix_len,
                extra_filter_key_columns,
                preserves_order,
                payload_width: payload_fields.len(),
                key_width: keys.len(),
            };
            Some(Offer { score, key_columns: keys, payload_fields, prefix_values })
        },
    }
}

proof fn lemma_better_replaces(query: OrderedQuery, indexes: Seq<TableIndex>, k: int, i: int)
    requires
        0 <= k < i < indexes.len(),
        is_best_index(query, indexes.take(i), k),
        candidate_of(query, indexes[i]) is Some,
        better_index(query, indexes, i, k),
    ensures
        is_best_index(query, indexes.take(i + 1), i),
{
    let before = indexes.take(i);
    let now = indexes.take(i + 1);
    assert(before[k] == indexes[k] && now[k] == indexes[k] && now[i] == indexes[i]);
    assert forall|j: int| 0 <= j < i && candidate_of(query, #[trigger] now[j])
        is Some implies better_index(query, now, i, j) by {
        assert(before[j] == now[j]);
        if j != k {
            let a = candidate_of(query, indexes[i])->Some_0.score;
            let b = candidate_of(query, indexes[k])->Some_0.score;
            let c = candidate_of(query, indexes[j])->Some_0.score;
            if j < k {
                assert(better_index(query, before, k, j));
                law_better_is_transitive(
                    a,
                    indexes[i].name@,
                    b,
                    indexes[k].name@,
                    c,
                    indexes[j].name@,
                );
            } else {
                assert(!better_index(query, before, j, k));
                law_better_is_total(c, indexes[j].name@, b, indexes[k].name@);
                if better_candidate(b, indexes[k].name@, c, indexes[j].name@) {
                    law_better_is_transitive(
                        a,
                        indexes[i].name@,
                        b,
                        indexes[k].name@,
                        c,
                        indexes[j].name@,
                    );
                }
            }
        }
    }
}

proof fn lemma_best_stays(query: OrderedQuery, indexes: Seq<TableIndex>, k: int, i: int)
    requires
        0 <= k < i < indexes.len(),
        is_best_index(query, indexes.take(i), k),
        candidate_of(query, indexes[i]) is Some ==> !better_index(query, indexes, i, k),
    ensures
        is_best_index(query, indexes.take(i + 1), k),
{
    let before = indexes.take(i);
    let now = indexes.take(i + 1);
    assert(before[k] == indexes[k] && now[k] == indexes[k] && now[i] == indexes[i]);
    assert forall|j: int| 0 <= j < k && candidate_of(query, #[trigger] now[j])
        is Some implies better_index(query, now, k, j) by {
        assert(before[j] == now[j]);
        assert(better_index(query, before, k, j));
    }
    assert forall|j: int| k < j < now.len() && candidate_of(query, #[trigger] now[j])
        is Some implies !better_index(query, now, j, k) by {
        if j < i {
            assert(before[j] == now[j]);
            assert(!better_index(query, before, j, k));
        }
    }
}

/// There is at most one best index.
pub proof fn law_best_index_is_unique(
    query: OrderedQuery,
    indexes: Seq<TableIndex>,
    j: int,
    k: int,
)
    requires
        is_best_index(query, indexes, j),
        is_best_index(query, indexes, k),
    ensures
        j == k,
{
    if j < k {
        assert(candidate_of(query, indexes[j]) is Some);
        assert(better_index(query, indexes, k, j));
        assert(!better_index(query, indexes, k, j));
    } else if k < j {
        assert(candidate_of(query, indexes[k]) is Some);
        assert(better_index(query, indexes, j, k));
        assert(!better_index(query, indexes, j, k));
    }
}

/// No index offers more than the best one.
pub proof fn law_best_index_is_unbeaten(
    query: OrderedQuery,
    indexes: Seq<TableIndex>,
    k: int,
    j: int,
)
    requires
        is_best_index(query, indexes, k),
        0 <= j < indexes.len(),
        candidate_of(query, indexes[j]) is Some,
    ensures
        !better_index(query, indexes, j, k),
{
    law_better_is_asymmetric(
        candidate_of(query, indexes[j])->Some_0.score,
        indexes[j].name@,
        candidate_of(query, indexes[k])->Some_0.score,
        indexes[k].name@,
    );
    if j < k {
        assert(better_index(query, indexes, k, j));
    }
}

fn count_ordered(indexes: &Vec<TableIndex>) -> (r: usize)
    ensures
        r == ordered_count(indexes@),
{
    let mut count: usize = 0;
    let mut i: usize = 0;
    assert(indexes@.take(0) =~= Seq::<TableIndex>::empty());
    while i < indexes.len()
        invariant
            i <= indexes@.len(),
            count <= i,
            count == ordered_count(indexes@.take(i as int)),
        decreases indexes@.len() - i,
    {
        proof {
            let t = indexes@.take(i + 1);
            assert(t.drop_last() =~= indexes@.take(i as int));
            assert(t.last() == indexes@[i as int]);
        }
        match indexes[i].index_type {
            TableIndexType::Ordered => {
                count = count + 1;
            },
            _ => {},
        }
        i = i + 1;
    }
    assert(indexes@.take(indexes@.len() as int) =~= indexes@);
    count
}

/// The scan of an index is that of the best one for a scan of its table; there is none where the
/// scan does not ask for order or no index offers anything.
pub open spec fn chooses_index(
    r: Option<BtreeIndexInfo>,
    scan: Scan,
    table_meta: TableMeta,
    columns: Seq<ColumnEntry>,
    filters: Option<FiltersModel>,
) -> bool {
    let query = ordered_query(scan, table_meta, columns, filters);
    let indexes = table_meta.indexes@;
    match r {
        Some(info) => asks_for_order(scan) && exists|k: int| #[trigger]
            is_best_index(query, indexes, k) && is_index_scan(
                info,
                query,
                indexes,
                k,
                scan.limit,
                filters,
            ),
        None => !asks_for_order(scan) || forall|j: int|
            0 <= j < indexes.len() ==> candidate_of(query, #[trigger] indexes[j]) is None,
    }
}

/// The scan of the best ordered index for a scan of its table, where there is one.
pub fn try_build_ordered_index_info(
    scan: &Scan,
    table_meta: &TableMeta,
    columns: &Vec<ColumnEntry>,
    filters: &Option<Filters>,
) -> (r: Option<BtreeIndexInfo>)
    requires
        asks_for_order(*scan) ==> forall|i: int|
            0 <= i < scan.columns.items@.len() ==> (#[trigger] scan.columns.items@[i])
                < columns@.len(),
    ensures
        chooses_index(r, *scan, *table_meta, columns@, opt_filters_view(*filters)),
{
    match &scan.secure_predicates {
        Some(predicates) => {
            if predicates.len() > 0 {
                return None;
            }
        },
        None => {},
    }
    if scan.limit.is_none() {
        return None;
    }
    let predicates = match &scan.push_down_predicates {
        Some(predicates) => predicates,
        None => {
            return None;
        },
    };
    let order_by = match &scan.order_by {
        Some(items) => items,
        None => {
            return None;
        },
    };
    if predicates.len() == 0 || order_by.len() == 0 {
        return None;
    }
    let constants = collect_all_prefix_constants(predicates);
    let filter_column_names = ordered_filter_column_names(filters);
    let ordered_index_count: usize = count_ordered(&table_meta.indexes);
    let ghost query = ordered_query(*scan, *table_meta, columns@, opt_filters_view(*filters));
    let ghost indexes = table_meta.indexes@;
    let mut best: Option<(usize, Offer)> = None;
    let mut i: usize = 0;
    while i < table_meta.indexes.len()
        invariant
            i <= indexes.len(),
            indexes == table_meta.indexes@,
            asks_for_order(*scan),
            query == ordered_query(*scan, *table_meta, columns@, opt_filters_view(*filters)),
            query.constants == constants_view(constants@),
            query.names == texts_of(filter_column_names@),
            forall|i: int|
                0 <= i < scan.columns.items@.len() ==> (#[trigger] scan.columns.items@[i])
                    < columns@.len(),
            match best {
                Some((k, offer)) => k < i && is_best_index(query, indexes.take(i as int), k as int)
                    && offer.is_from(query, indexes[k as int]),
                None => forall|j: int|
                    0 <= j < i ==> candidate_of(query, #[trigger] indexes[j]) is None,
            },
        decreases indexes.len() - i,
    {
        let index = &table_meta.indexes[i];
        let ghost now = indexes.take(i + 1);
        let offered = offer_of(
            scan,
            table_meta,
            columns,
            filters,
            &filter_column_names,
            &constants,
            index,
            Ghost(query),
        );
        match offered {
            None => {
                proof {
                    if best is Some {
                        lemma_best_stays(query, indexes, best->Some_0.0 as int, i as int);
                    }
                }
            },
            Some(offer) => {
                let replaces: bool = match &best {
                    None => true,
                    Some((k, kept)) => ordered_candidate_score_is_better(
                        &offer.score,
                        index.name.as_str(),
                        &kept.score,
                        table_meta.indexes[*k].name.as_str(),
                    ),
                };
                proof {
                    if best is None {
                        assert forall|j: int|
                            0 <= j < i implies candidate_of(query, #[trigger] now[j]) is None by {
                            assert(now[j] == indexes[j]);
                        }
                        assert(now[i as int] == indexes[i as int]);
                        assert(is_best_index(query, now, i as int));
                    } else if replaces {
                        lemma_better_replaces(query, indexes, best->Some_0.0 as int, i as int);
                    } else {
                        lemma_best_stays(query, indexes, best->Some_0.0 as int, i as int);
                    }
                }
                if replaces {
                    best = Some((i, offer));
                }
            },
        }
        i = i + 1;
    }
    assert(indexes.take(indexes.len() as int) =~= indexes);
    match best {
        None => None,
        Some((k, offer)) => {
            let index = &table_meta.indexes[k];
            let limit: Option<usize> = if offer.score.preserves_order {
                scan.limit
            } else {
                None
            };
            let info = BtreeIndexInfo {
                index_name: index.name.clone(),
                index_version: index.version.clone(),
                key_columns: offer.key_columns,
                payload_fields: offer.payload_fields,
                equality_prefix: offer.prefix_values,
                limit,
                filters: clone_opt_filters(filters),
                use_block_btree_index_size_hint: ordered_index_count == 1,
            };
            assert(is_best_index(query, indexes, k as int) && is_index_scan(
                info,
                query,
                indexes,
                k as int,
                scan.limit,
                opt_filters_view(*filters),
            ));
            Some(info)
        },
    }
}

} // verus!
