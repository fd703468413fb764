//! Planning a table scan: the columns that are read, what the storage does itself, the source, and
//! the filter of the row access policies on top.

use vstd::prelude::*;

use crate::agg_index::{agg_planned, build_agg_index, AggIndexError, AggIndexInfo};
use crate::assoc::{keys_ascend, lemma_entries_unique, map_of};
use crate::column_set::{symbols_ascend, ColumnSet};
use crate::columns::{columns_are_known, reads_virtual_columns, ColumnEntry, InternalColumn};
use crate::expr::{Expr, ExprModel};
use crate::filter::{clone_filters, BtreeIndexInfo, Filters, FiltersModel};
use crate::ordered_scan::{asks_for_order, candidate_of, chooses_index, is_best_index,
    ordered_query, try_build_ordered_index_info};
use crate::push_down::{create_scan_push_down_filters, filter_of, filters_made, is_pushed_down,
    predicates_of, push_downs, pushes_down, scan_known, AggIndexPlan, PushDownFilters,
    PushDownInfo};
use crate::scalar::{Scalar, ScalarModel, TableDataType, TableField};
use crate::scalar_expr::ScalarExpr;
use crate::scan::Scan;
use crate::scan_plan::{data_fields_view, find_data_field, output_fields, output_fields_of,
    place_named, plan_name, DataField, DataSourcePlan, TableScan, TableScanError};
use crate::table_meta::TableMeta;
use crate::table_scan::{internal_fields, output_of, project_scan_columns, prune_scan_columns,
    prunes_to, scan_columns_of, schema_with_internal_columns, secure_cache_key, secure_key,
    with_row_id, PrunedScan, ScanColumns, ScanColumnsModel};
use crate::text::{decimal, decimal_text, texts_view};

verus! {

/// What the planner knows of a table.
#[derive(Debug)]
pub struct TableFacts {
    pub meta: TableMeta,
    /// The fields of the table, with those of its streams.
    pub schema: Vec<TableField>,
    /// The virtual columns of the table.
    pub virtual_columns: ColumnSet,
    pub supported_lazy_materialize: bool,
    /// The column of row ids, where it is in the plan.
    pub row_id: Option<(usize, InternalColumn)>,
}

/// Columns of the scan may be read later, by row id.
pub open spec fn may_read_later(scan: Scan, table: TableFacts) -> bool {
    &&& scan.columns@ != Set::<usize>::empty()
    &&& scan.is_lazy_table
    &&& table.supported_lazy_materialize
}

/// An ordered index answers the scan.
pub open spec fn offers_index(
    scan: Scan,
    table_meta: TableMeta,
    columns: Seq<ColumnEntry>,
    filters: Option<FiltersModel>,
) -> bool {
    &&& asks_for_order(scan)
    &&& exists|j: int|
        0 <= j < table_meta.indexes@.len() && candidate_of(
            ordered_query(scan, table_meta, columns, filters),
            #[trigger] table_meta.indexes@[j],
        ) is Some
}

/// An index is chosen exactly where one is offered.
pub proof fn lemma_chosen_is_offered(
    r: Option<BtreeIndexInfo>,
    scan: Scan,
    table_meta: TableMeta,
    columns: Seq<ColumnEntry>,
    filters: Option<FiltersModel>,
)
    requires
        chooses_index(r, scan, table_meta, columns, filters),
    ensures
        r is Some <==> offers_index(scan, table_meta, columns, filters),
{
    let query = ordered_query(scan, table_meta, columns, filters);
    let indexes = table_meta.indexes@;
    if r is Some {
        let k = choose|k: int| #[trigger] is_best_index(query, indexes, k);
        assert(candidate_of(query, indexes[k]) is Some);
    }
}

/// Whether an ordered index answers the scan, once the host has prepared the predicates of the
/// query; where no column may be read later nobody asks.
pub open spec fn index_found<
    H,
    P: Fn(&ScalarExpr) -> Result<Filters, H>,
    D: Fn(&Filters) -> bool,
    N: Fn(&Filters) -> Result<Expr, H>,
>(
    prepare: P,
    deterministic: D,
    negate: N,
    scan: Scan,
    table: TableFacts,
    columns: Seq<ColumnEntry>,
    has_index: bool,
) -> bool {
    if may_read_later(scan, table) {
        exists|filters: Option<PushDownFilters>, is_deterministic: bool| #[trigger]
            filters_made(
                prepare,
                deterministic,
                negate,
                predicates_of(scan.push_down_predicates),
                Ok::<_, H>((filters, is_deterministic)),
            ) && has_index == offers_index(scan, table.meta, columns, filter_of(filters))
    } else {
        !has_index
    }
}

/// The scan is left with the columns that are used. Where columns may be read later, the host
/// prepares the predicates first, for an ordered index answers the scan without.
pub open spec fn scan_pruned<
    H,
    P: Fn(&ScalarExpr) -> Result<Filters, H>,
    D: Fn(&Filters) -> bool,
    N: Fn(&Filters) -> Result<Expr, H>,
>(
    prepare: P,
    deterministic: D,
    negate: N,
    scan: Scan,
    required: Set<usize>,
    secure_columns: Set<usize>,
    table: TableFacts,
    columns: Seq<ColumnEntry>,
    r: Result<PrunedScan, H>,
) -> bool {
    match r {
        Ok(pruned) => pruned_for(
            prepare,
            deterministic,
            negate,
            scan,
            required,
            secure_columns,
            table,
            columns,
            pruned,
        ),
        Err(e) => may_read_later(scan, table) && filters_made(
            prepare,
            deterministic,
            negate,
            predicates_of(scan.push_down_predicates),
            Err::<(Option<PushDownFilters>, bool), H>(e),
        ),
    }
}

/// The scan is left with the columns that are used.
pub open spec fn pruned_for<
    H,
    P: Fn(&ScalarExpr) -> Result<Filters, H>,
    D: Fn(&Filters) -> bool,
    N: Fn(&Filters) -> Result<Expr, H>,
>(
    prepare: P,
    deterministic: D,
    negate: N,
    scan: Scan,
    required: Set<usize>,
    secure_columns: Set<usize>,
    table: TableFacts,
    columns: Seq<ColumnEntry>,
    pruned: PrunedScan,
) -> bool {
    exists|has_index: bool| #[trigger]
        index_found(prepare, deterministic, negate, scan, table, columns, has_index) && prunes_to(
            pruned,
            scan,
            required,
            table.virtual_columns@,
            secure_columns,
            table.supported_lazy_materialize,
            has_index,
        )
}

/// Drops the columns of a scan that nobody uses.
///
/// `secure_columns` are those that the row access policies read.
pub fn prune_table_scan<
    H,
    P: Fn(&ScalarExpr) -> Result<Filters, H>,
    D: Fn(&Filters) -> bool,
    N: Fn(&Filters) -> Result<Expr, H>,
>(
    scan: Scan,
    required: &ColumnSet,
    secure_columns: &ColumnSet,
    table: &TableFacts,
    columns: &Vec<ColumnEntry>,
    prepare: &P,
    deterministic: &D,
    negate: &N,
) -> (r: Result<PrunedScan, H>)
    requires
        scan.columns.wf(),
        required.wf(),
        may_read_later(scan, *table) ==> forall|i: int|
            0 <= i < scan.columns.items@.len() ==> (#[trigger] scan.columns.items@[i])
                < columns@.len(),
        forall|e: &ScalarExpr| #[trigger] call_requires(*prepare, (e,)),
        forall|f: &Filters| #[trigger] call_requires(*deterministic, (f,)),
        forall|f: &Filters| #[trigger] call_requires(*negate, (f,)),
    ensures
        scan_pruned(
            *prepare,
            *deterministic,
            *negate,
            scan,
            required@,
            secure_columns@,
            *table,
            columns@,
            r,
        ),
{
    let mut has_index: bool = false;
    if !scan.columns.is_empty() && scan.is_lazy_table && table.supported_lazy_materialize {
        let made: Result<(Option<PushDownFilters>, bool), H> = match &scan.push_down_predicates {
            Some(predicates) => create_scan_push_down_filters(
                predicates,
                prepare,
                deterministic,
                negate,
            ),
            None => Ok((None, true)),
        };
        let ghost shown = made;
        let filters = match made {
            Ok((filters, _)) => filters,
            Err(e) => {
                return Err(e);
            },
        };
        let filter: Option<Filters> = match &filters {
            Some(filters) => Some(clone_filters(&filters.filter)),
            None => None,
        };
        let index = try_build_ordered_index_info(&scan, &table.meta, columns, &filter);
        has_index = index.is_some();
        proof {
            lemma_chosen_is_offered(index, scan, table.meta, columns@, filter_of(filters));
            let is_deterministic = shown->Ok_0.1;
            assert(filters_made(
                *prepare,
                *deterministic,
                *negate,
                predicates_of(scan.push_down_predicates),
                Ok::<_, H>((filters, is_deterministic)),
            ));
            assert(has_index == offers_index(scan, table.meta, columns@, filter_of(filters)));
        }
    }
    assert(index_found(*prepare, *deterministic, *negate, scan, *table, columns@, has_index));
    let ghost given = scan;
    let pruned = prune_scan_columns(
        scan,
        required,
        &table.virtual_columns,
        secure_columns,
        table.supported_lazy_materialize,
        has_index,
    );
    assert(pruned_for(
        *prepare,
        *deterministic,
        *negate,
        given,
        required@,
        secure_columns@,
        *table,
        columns@,
        pruned,
    ));
    Ok(pruned)
}

/// A table scan that is planned up to its source.
#[derive(Debug)]
pub struct PlannedScan {
    pub columns: ScanColumns,
    /// The fields of the table, with the internal columns that are read.
    pub schema: Vec<TableField>,
    pub push_downs: PushDownInfo,
    /// What is added to the cache key of the result, where there are row access policies.
    pub cache_key_extra: Option<String>,
}

/// What the columns of the scan are read as. The column of row ids is added where columns of the
/// table are read later.
pub open spec fn columns_read(
    scan: Scan,
    table: TableFacts,
    columns: Seq<ColumnEntry>,
    lazy_columns: Set<usize>,
    reads_rows_later: bool,
) -> ScanColumnsModel {
    with_row_id(
        scan_columns_of(columns, scan.columns.items@, lazy_columns, output_of(scan.prewhere)),
        if reads_rows_later {
            table.row_id
        } else {
            None
        },
    )
}

/// The scan has row access policies.
pub open spec fn has_policies(scan: Scan) -> bool {
    scan.secure_predicates matches Some(predicates) && predicates@.len() > 0
}

/// The host spells every predicate.
pub open spec fn all_spelled<H, J: Fn(&ScalarExpr) -> Result<String, H>>(
    serialize: J,
    predicates: Seq<ScalarExpr>,
    texts: Seq<String>,
) -> bool {
    &&& texts.len() == predicates.len()
    &&& forall|i: int|
        0 <= i < predicates.len() ==> call_ensures(
            serialize,
            (&#[trigger] predicates[i],),
            Ok::<String, H>(texts[i]),
        )
}

/// What is added to the cache key is made of the spelled predicates.
pub open spec fn is_policy_key<H, J: Fn(&ScalarExpr) -> Result<String, H>>(
    serialize: J,
    table_index: usize,
    predicates: Seq<ScalarExpr>,
    key: Seq<char>,
) -> bool {
    exists|texts: Seq<String>| #[trigger]
        all_spelled(serialize, predicates, texts) && key == secure_key(
            table_index,
            texts_view(texts),
        )
}

/// The host spells the predicates before this one, and cannot spell this one.
pub open spec fn unspelled_at<H, J: Fn(&ScalarExpr) -> Result<String, H>>(
    serialize: J,
    predicates: Seq<ScalarExpr>,
    i: int,
    e: H,
) -> bool {
    &&& 0 <= i < predicates.len()
    &&& exists|texts: Seq<String>| #[trigger] all_spelled(serialize, predicates.take(i), texts)
    &&& call_ensures(serialize, (&predicates[i],), Err::<String, H>(e))
}

/// The host cannot spell one of the predicates; the error is that of the first.
pub open spec fn one_unspelled<H, J: Fn(&ScalarExpr) -> Result<String, H>>(
    serialize: J,
    predicates: Seq<ScalarExpr>,
    e: H,
) -> bool {
    exists|i: int| #[trigger] unspelled_at(serialize, predicates, i, e)
}

/// What is added to the cache key of the result, where there are row access policies.
pub open spec fn key_extra<H, J: Fn(&ScalarExpr) -> Result<String, H>>(
    serialize: J,
    scan: Scan,
    r: Result<Option<String>, H>,
) -> bool {
    match r {
        Ok(None) => !has_policies(scan),
        Ok(Some(key)) => has_policies(scan) && is_policy_key(
            serialize,
            scan.table_index,
            scan.secure_predicates->Some_0@,
            key@,
        ),
        Err(e) => has_policies(scan) && one_unspelled(
            serialize,
            scan.secure_predicates->Some_0@,
            e,
        ),
    }
}

fn policy_key<H, J: Fn(&ScalarExpr) -> Result<String, H>>(scan: &Scan, serialize: &J) -> (r: Result<
    Option<String>,
    H,
>)
    requires
        forall|e: &ScalarExpr| #[trigger] call_requires(*serialize, (e,)),
    ensures
        key_extra(*serialize, *scan, r),
{
    let predicates = match &scan.secure_predicates {
        Some(predicates) => predicates,
        None => {
            return Ok(None);
        },
    };
    if predicates.len() == 0 {
        return Ok(None);
    }
    let mut texts: Vec<String> = Vec::new();
    let mut i: usize = 0;
    while i < predicates.len()
        invariant
            i <= predicates@.len(),
            has_policies(*scan),
            *predicates == scan.secure_predicates->Some_0,
            forall|e: &ScalarExpr| #[trigger] call_requires(*serialize, (e,)),
            texts@.len() == i,
            forall|k: int|
                0 <= k < i ==> call_ensures(
                    *serialize,
                    (&#[trigger] predicates@[k],),
                    Ok::<String, H>(texts@[k]),
                ),
        decreases predicates@.len() - i,
    {
        let spelled = serialize(&predicates[i]);
        match spelled {
            Ok(text) => {
                texts.push(text);
            },
            Err(e) => {
                proof {
                    let spelled = predicates@.take(i as int);
                    assert forall|k: int| 0 <= k < spelled.len() implies call_ensures(
                        *serialize,
                        (&#[trigger] spelled[k],),
                        Ok::<String, H>(texts@[k]),
                    ) by {
                        assert(spelled[k] == predicates@[k]);
                    }
                    assert(all_spelled(*serialize, spelled, texts@));
                    assert(unspelled_at(*serialize, predicates@, i as int, e));
                }
                return Err(e);
            },
        }
        i = i + 1;
    }
    assert(all_spelled(*serialize, predicates@, texts@));
    Ok(Some(secure_cache_key(scan.table_index, texts)))
}

/// The host prepares all that is pushed down to the scan.
pub open spec fn push_accepted<
    H,
    P: Fn(&ScalarExpr) -> Result<Filters, H>,
    D: Fn(&Filters) -> bool,
    N: Fn(&Filters) -> Result<Expr, H>,
>(prepare: P, deterministic: D, negate: N, scan: Scan) -> bool {
    exists|info: PushDownInfo| #[trigger]
        pushes_down(prepare, deterministic, negate, scan, Ok::<_, H>(info))
}

/// The scan is planned up to its source. The host prepares the predicates, and then spells those of
/// the row access policies; the first that it refuses ends the planning.
pub open spec fn scan_planned<
    H,
    P: Fn(&ScalarExpr) -> Result<Filters, H>,
    D: Fn(&Filters) -> bool,
    N: Fn(&Filters) -> Result<Expr, H>,
    S: Fn(TableDataType) -> String,
    J: Fn(&ScalarExpr) -> Result<String, H>,
>(
    prepare: P,
    deterministic: D,
    negate: N,
    spell: S,
    serialize: J,
    scan: Scan,
    table: TableFacts,
    columns: Seq<ColumnEntry>,
    lazy_columns: Set<usize>,
    reads_rows_later: bool,
    r: Result<PlannedScan, H>,
) -> bool {
    match r {
        Ok(planned) => {
            &&& planned.columns.wf()
            &&& planned.columns@ == columns_read(
                scan,
                table,
                columns,
                lazy_columns,
                reads_rows_later,
            )
            &&& planned.schema@ == table.schema@ + internal_fields(
                planned.columns.internal_columns@,
            )
            &&& pushes_down(
                prepare,
                deterministic,
                negate,
                scan,
                Ok::<_, H>(planned.push_downs),
            )
            &&& is_pushed_down(
                planned.push_downs,
                scan,
                table.meta,
                columns,
                planned.schema@,
                planned.columns.has_inner_column,
                lazy_columns != Set::<usize>::empty(),
            )
            &&& reads_virtual_columns(
                planned.push_downs.virtual_column,
                planned.columns.virtual_columns@,
                spell,
            )
            &&& key_extra(serialize, scan, Ok::<_, H>(planned.cache_key_extra))
        },
        Err(e) => {
            ||| pushes_down(prepare, deterministic, negate, scan, Err::<PushDownInfo, H>(e))
            ||| push_accepted(prepare, deterministic, negate, scan) && key_extra(
                serialize,
                scan,
                Err::<Option<String>, H>(e),
            )
        },
    }
}

/// The columns of the scan are known in the schema with these internal columns, in ascending order.
pub open spec fn known_with(
    scan: Scan,
    table: TableFacts,
    columns: Seq<ColumnEntry>,
    read: ScanColumnsModel,
    internal: Seq<(usize, InternalColumn)>,
) -> bool {
    &&& keys_ascend(internal)
    &&& map_of(internal) == read.internal_columns
    &&& scan_known(
        scan,
        columns,
        table.schema@ + internal_fields(internal),
        read.has_inner_column,
    )
}

/// The scan can be planned up to its source: its columns are known in the schema with the internal
/// columns that are read, and its early filter has predicates.
pub open spec fn is_plannable(
    scan: Scan,
    table: TableFacts,
    columns: Seq<ColumnEntry>,
    lazy_columns: Set<usize>,
    reads_rows_later: bool,
) -> bool {
    &&& exists|internal: Seq<(usize, InternalColumn)>| #[trigger]
        known_with(
            scan,
            table,
            columns,
            columns_read(scan, table, columns, lazy_columns, reads_rows_later),
            internal,
        )
    &&& scan.prewhere matches Some(prewhere) ==> prewhere.predicates@.len() > 0
}

/// Whether the scan can be planned up to its source.
pub fn can_plan_table_scan(
    scan: &Scan,
    table: &TableFacts,
    columns: &Vec<ColumnEntry>,
    lazy_columns: &ColumnSet,
    reads_rows_later: bool,
) -> (r: bool)
    ensures
        r == is_plannable(*scan, *table, columns@, lazy_columns@, reads_rows_later),
{
    let mut i: usize = 0;
    while i < scan.columns.items.len()
        invariant
            i <= scan.columns.items@.len(),
            forall|k: int| 0 <= k < i ==> (#[trigger] scan.columns.items@[k]) < columns@.len(),
        decreases scan.columns.items@.len() - i,
    {
        if scan.columns.items[i] >= columns.len() {
            assert(scan.columns.items@[i as int] >= columns@.len());
            return false;
        }
        i = i + 1;
    }
    match &scan.order_by {
        None => {},
        Some(items) => {
            let mut k: usize = 0;
            while k < items.len()
                invariant
                    k <= items@.len(),
                    *items == scan.order_by->Some_0,
                    scan.order_by is Some,
                    forall|j: int| 0 <= j < k ==> (#[trigger] items@[j]).index < columns@.len(),
                decreases items@.len() - k,
            {
                if items[k].index >= columns.len() {
                    assert(items@[k as int].index >= columns@.len());
                    return false;
                }
                k = k + 1;
            }
        },
    }
    let read = read_columns(scan, table, columns, lazy_columns, reads_rows_later);
    let schema = schema_with_internal_columns(&table.schema, &read.internal_columns);
    let inner: bool = read.has_inner_column;
    proof {
        assert forall|internal: Seq<(usize, InternalColumn)>| #[trigger]
            known_with(*scan, *table, columns@, read@, internal) implies internal
            == read.internal_columns@ by {
            lemma_entries_unique(internal, read.internal_columns@);
            assert(internal =~= read.internal_columns@);
        }
    }
    let known: bool = columns_are_known(columns, &schema, &scan.columns.items, inner, true)
        && match &scan.prewhere {
        None => true,
        Some(prewhere) => columns_are_known(
            columns,
            &schema,
            &prewhere.output_columns.items,
            inner,
            false,
        ) && columns_are_known(
            columns,
            &schema,
            &prewhere.prewhere_columns.items,
            inner,
            true,
        ),
    };
    assert(known == known_with(*scan, *table, columns@, read@, read.internal_columns@));
    known && match &scan.prewhere {
        None => true,
        Some(prewhere) => prewhere.predicates.len() > 0,
    }
}

fn read_columns(
    scan: &Scan,
    table: &TableFacts,
    columns: &Vec<ColumnEntry>,
    lazy_columns: &ColumnSet,
    reads_rows_later: bool,
) -> (r: ScanColumns)
    requires
        forall|i: int|
            0 <= i < scan.columns.items@.len() ==> (#[trigger] scan.columns.items@[i])
                < columns@.len(),
    ensures
        r.wf(),
        r@ == columns_read(*scan, *table, columns@, lazy_columns@, reads_rows_later),
{
    let output_columns: Option<&ColumnSet> = match &scan.prewhere {
        Some(prewhere) => Some(&prewhere.output_columns),
        None => None,
    };
    let row_id: Option<(usize, InternalColumn)> = if reads_rows_later {
        match &table.row_id {
            Some((index, column)) => Some((*index, column.clone())),
            None => None,
        }
    } else {
        None
    };
    project_scan_columns(columns, &scan.columns.items, lazy_columns, output_columns, row_id)
}

/// Plans a scan up to its source.
///
/// `lazy_columns` are all the columns of the plan that are read later, and `reads_rows_later` says
/// whether some of them are of this table.
pub fn plan_table_scan<
    H,
    P: Fn(&ScalarExpr) -> Result<Filters, H>,
    D: Fn(&Filters) -> bool,
    N: Fn(&Filters) -> Result<Expr, H>,
    S: Fn(TableDataType) -> String,
    J: Fn(&ScalarExpr) -> Result<String, H>,
>(
    scan: &Scan,
    table: &TableFacts,
    columns: &Vec<ColumnEntry>,
    lazy_columns: &ColumnSet,
    reads_rows_later: bool,
    prepare: &P,
    deterministic: &D,
    negate: &N,
    spell: &S,
    serialize: &J,
) -> (r: Result<PlannedScan, H>)
    requires
        scan.columns.wf(),
        is_plannable(*scan, *table, columns@, lazy_columns@, reads_rows_later),
        forall|e: &ScalarExpr| #[trigger] call_requires(*prepare, (e,)),
        forall|f: &Filters| #[trigger] call_requires(*deterministic, (f,)),
        forall|f: &Filters| #[trigger] call_requires(*negate, (f,)),
        forall|data_type: TableDataType| #[trigger] call_requires(*spell, (data_type,)),
        forall|e: &ScalarExpr| #[trigger] call_requires(*serialize, (e,)),
    ensures
        scan_planned(
            *prepare,
            *deterministic,
            *negate,
            *spell,
            *serialize,
            *scan,
            *table,
            columns@,
            lazy_columns@,
            reads_rows_later,
            r,
        ),
{
    let read = read_columns(scan, table, columns, lazy_columns, reads_rows_later);
    let schema = schema_with_internal_columns(&table.schema, &read.internal_columns);
    proof {
        let internal = choose|internal: Seq<(usize, InternalColumn)>| #[trigger]
            known_with(*scan, *table, columns@, read@, internal);
        lemma_entries_unique(internal, read.internal_columns@);
        assert(internal =~= read.internal_columns@);
    }
    let has_lazy_columns: bool = !lazy_columns.is_empty();
    let pushed = push_downs(
        scan,
        &table.meta,
        columns,
        &schema,
        &read.virtual_columns,
        read.has_inner_column,
        has_lazy_columns,
        prepare,
        deterministic,
        negate,
        spell,
    );
    let push_downs = match pushed {
        Ok(info) => info,
        Err(e) => {
            return Err(e);
        },
    };
    assert(push_accepted(*prepare, *deterministic, *negate, *scan));
    let cache_key_extra = match policy_key(scan, serialize) {
        Ok(extra) => extra,
        Err(e) => {
            return Err(e);
        },
    };
    Ok(PlannedScan { columns: read, schema, push_downs, cache_key_extra })
}

/// An error of planning the source of a scan.
#[derive(Debug)]
pub enum ScanSourceError<H> {
    /// The scan is to give a column that its source does not have.
    Output(TableScanError),
    /// The aggregating index cannot be read.
    AggIndex(AggIndexError<H>),
}

/// The two agree but for the aggregating index.
pub open spec fn pushes_the_same(a: PushDownInfo, b: PushDownInfo) -> bool {
    &&& a.projection == b.projection
    &&& a.output_columns == b.output_columns
    &&& a.filters == b.filters
    &&& a.is_deterministic == b.is_deterministic
    &&& a.prewhere == b.prewhere
    &&& a.limit == b.limit
    &&& a.order_by == b.order_by
    &&& a.virtual_column == b.virtual_column
    &&& a.lazy_materialization == b.lazy_materialization
    &&& a.ordered_index == b.ordered_index
    &&& a.secure_filters == b.secure_filters
    &&& a.change_type == b.change_type
    &&& a.inverted_index == b.inverted_index
    &&& a.vector_index == b.vector_index
    &&& a.sample == b.sample
}

/// The source of a scan once it is planned: it knows its scan, and how its aggregating index is
/// read.
pub open spec fn source_planned(
    now: DataSourcePlan,
    given: DataSourcePlan,
    scan: Scan,
    reserve_block_index: bool,
    agg_index: Option<AggIndexPlan>,
) -> bool {
    &&& now.source_info == given.source_info
    &&& now.catalog_name == given.catalog_name
    &&& now.desc == given.desc
    &&& now.table_schema == given.table_schema
    &&& now.output_schema == given.output_schema
    &&& now.parts_kind == given.parts_kind
    &&& now.partitions_total == given.partitions_total
    &&& now.table_index == scan.table_index
    &&& now.scan_id == scan.scan_id
    &&& now.reserve_block_index == reserve_block_index
    &&& match (now.push_downs, given.push_downs) {
        (Some(a), Some(b)) => pushes_the_same(a, b) && a.agg_index == if agg_index is Some {
            agg_index
        } else {
            b.agg_index
        },
        (None, None) => true,
        _ => false,
    }
}

fn plan_source(
    scan: &Scan,
    source: DataSourcePlan,
    reserve_block_index: bool,
    agg_index: Option<AggIndexPlan>,
) -> (r: DataSourcePlan)
    requires
        agg_index is Some ==> source.push_downs is Some,
    ensures
        source_planned(r, source, *scan, reserve_block_index, agg_index),
{
    let push_downs: Option<PushDownInfo> = match (source.push_downs, agg_index) {
        (Some(push_downs), Some(agg_index)) => Some(
            PushDownInfo {
                projection: push_downs.projection,
                output_columns: push_downs.output_columns,
                filters: push_downs.filters,
                is_deterministic: push_downs.is_deterministic,
                prewhere: push_downs.prewhere,
                limit: push_downs.limit,
                order_by: push_downs.order_by,
                virtual_column: push_downs.virtual_column,
                lazy_materialization: push_downs.lazy_materialization,
                agg_index: Some(agg_index),
                ordered_index: push_downs.ordered_index,
                secure_filters: push_downs.secure_filters,
                change_type: push_downs.change_type,
                inverted_index: push_downs.inverted_index,
                vector_index: push_downs.vector_index,
                sample: push_downs.sample,
            },
        ),
        (push_downs, _) => push_downs,
    };
    DataSourcePlan {
        source_info: source.source_info,
        catalog_name: source.catalog_name,
        desc: source.desc,
        table_schema: source.table_schema,
        output_schema: source.output_schema,
        parts_kind: source.parts_kind,
        partitions_total: source.partitions_total,
        push_downs,
        reserve_block_index,
        table_index: scan.table_index,
        scan_id: scan.scan_id,
    }
}

/// The plan is that of the scan over its source.
pub open spec fn is_scan_of(
    plan: TableScan,
    scan: Scan,
    columns: ScanColumns,
    source: DataSourcePlan,
    reserve_block_index: bool,
    agg_index: Option<AggIndexPlan>,
) -> bool {
    &&& plan.name@ == plan_name(source.source_info)
    &&& plan.scan_id == scan.scan_id
    &&& plan.table_index == Some(scan.table_index)
    &&& plan.name_mapping == columns.name_mapping
    &&& plan.internal_column == if columns.internal_columns@.len() == 0 {
        None
    } else {
        Some(columns.internal_columns)
    }
    &&& source_planned(plan.source, source, scan, reserve_block_index, agg_index)
}

/// The plan of the scan reads its aggregating index as planned for the fields that it gives.
pub open spec fn reads_agg_index<
    H,
    P: Fn(&ScalarExpr) -> Result<Filters, H>,
    C: Fn(Expr) -> Result<Expr, H>,
>(
    check: P,
    cast: C,
    agg: AggIndexInfo,
    fields: Seq<(Seq<char>, TableDataType)>,
    plan: TableScan,
    scan: Scan,
    columns: ScanColumns,
    source: DataSourcePlan,
    reserve_block_index: bool,
) -> bool {
    exists|agg_index: AggIndexPlan| #[trigger]
        agg_planned(agg, fields, check, cast, Ok::<AggIndexPlan, AggIndexError<H>>(agg_index))
            && is_scan_of(plan, scan, columns, source, reserve_block_index, Some(agg_index))
}

/// The scan of a source is planned, with its aggregating index where it has one: the fields that the
/// scan gives are looked for first, and only where there is one.
pub open spec fn source_scan_planned<
    H,
    P: Fn(&ScalarExpr) -> Result<Filters, H>,
    C: Fn(Expr) -> Result<Expr, H>,
>(
    check: P,
    cast: C,
    scan: Scan,
    columns: ScanColumns,
    source: DataSourcePlan,
    reserve_block_index: bool,
    agg: Option<AggIndexInfo>,
    r: Result<TableScan, ScanSourceError<H>>,
) -> bool {
    let fields = output_fields_of(source.output_schema@, columns.name_mapping@);
    match r {
        Ok(plan) => match agg {
            None => is_scan_of(plan, scan, columns, source, reserve_block_index, None),
            Some(agg) => fields is Ok && reads_agg_index(
                check,
                cast,
                agg,
                fields->Ok_0,
                plan,
                scan,
                columns,
                source,
                reserve_block_index,
            ),
        },
        Err(ScanSourceError::Output(e)) => agg is Some && fields == Err::<
            Seq<(Seq<char>, TableDataType)>,
            _,
        >(e),
        Err(ScanSourceError::AggIndex(e)) => agg is Some && fields is Ok && agg_planned(
            agg->Some_0,
            fields->Ok_0,
            check,
            cast,
            Err::<AggIndexPlan, AggIndexError<H>>(e),
        ),
    }
}

/// Plans a scan of its source, and how its aggregating index is read, where it has one.
pub fn plan_scan_source<
    H,
    P: Fn(&ScalarExpr) -> Result<Filters, H>,
    C: Fn(Expr) -> Result<Expr, H>,
>(
    scan: &Scan,
    columns: ScanColumns,
    source: DataSourcePlan,
    reserve_block_index: bool,
    agg: Option<&AggIndexInfo>,
    check: &P,
    cast: &C,
) -> (r: Result<TableScan, ScanSourceError<H>>)
    requires
        agg is Some ==> source.push_downs is Some,
        forall|e: &ScalarExpr| #[trigger] call_requires(*check, (e,)),
        forall|e: Expr| #[trigger] call_requires(*cast, (e,)),
    ensures
        source_scan_planned(
            *check,
            *cast,
            *scan,
            columns,
            source,
            reserve_block_index,
            match agg {
                Some(agg) => Some(*agg),
                None => None,
            },
            r,
        ),
{
    let agg_index: Option<AggIndexPlan> = match agg {
        None => None,
        Some(agg) => {
            let fields = match output_fields(&source.output_schema, &columns.name_mapping) {
                Ok(fields) => fields,
                Err(e) => {
                    return Err(ScanSourceError::Output(e));
                },
            };
            match build_agg_index(agg, &fields, check, cast) {
                Ok(planned) => Some(planned),
                Err(e) => {
                    return Err(ScanSourceError::AggIndex(e));
                },
            }
        },
    };
    let ghost shown = agg_index;
    let ghost given = source;
    let ghost read = columns;
    let planned = plan_source(scan, source, reserve_block_index, agg_index);
    let internal_column: Option<Vec<(usize, InternalColumn)>> = if columns.internal_columns.len()
        == 0 {
        None
    } else {
        Some(columns.internal_columns)
    };
    let plan = TableScan::create(
        scan.scan_id,
        columns.name_mapping,
        planned,
        Some(scan.table_index),
        internal_column,
    );
    proof {
        assert(is_scan_of(plan, *scan, read, given, reserve_block_index, shown));
    }
    Ok(plan)
}

/// The filter of the row access policies, over a scan.
#[derive(Debug)]
pub struct SecureFilter {
    /// The places of the fields that are kept.
    pub projections: Vec<usize>,
    pub predicates: Vec<Expr>,
}

/// The predicate is always true.
pub open spec fn is_always_true(expr: ExprModel) -> bool {
    expr matches ExprModel::Constant(value, _) && value == ScalarModel::Boolean(true)
}

/// Every predicate is always true.
pub open spec fn all_always_true(predicates: Seq<Expr>) -> bool {
    forall|i: int| 0 <= i < predicates.len() ==> is_always_true((#[trigger] predicates[i])@)
}

fn predicates_are_true(predicates: &Vec<Expr>) -> (r: bool)
    ensures
        r == all_always_true(predicates@),
{
    let mut i: usize = 0;
    while i < predicates.len()
        invariant
            i <= predicates@.len(),
            forall|k: int| 0 <= k < i ==> is_always_true((#[trigger] predicates@[k])@),
        decreases predicates@.len() - i,
    {
        let holds: bool = match &predicates[i] {
            Expr::Constant(Scalar::Boolean(value), _) => *value,
            _ => false,
        };
        if !holds {
            assert(!is_always_true(predicates@[i as int]@));
            return false;
        }
        i = i + 1;
    }
    true
}

/// The places of the columns that a scan gives.
pub open spec fn places_given(
    fields: Seq<(Seq<char>, TableDataType)>,
    columns: Set<usize>,
) -> Set<usize> {
    Set::new(
        |place: usize|
            exists|column: usize| #[trigger]
                columns.contains(column) && place_named(fields, decimal(column as nat)) == Some(
                    place as int,
                ),
    )
}

fn secure_projections(fields: &Vec<DataField>, columns: &ColumnSet) -> (r: ColumnSet)
    ensures
        r.wf(),
        r@ == places_given(data_fields_view(fields@), columns@),
{
    let ghost models = data_fields_view(fields@);
    let mut r = ColumnSet::empty();
    let mut i: usize = 0;
    assert(r@ =~= places_given(models, columns.items@.take(0).to_set()));
    while i < columns.items.len()
        invariant
            i <= columns.items@.len(),
            models == data_fields_view(fields@),
            r.wf(),
            r@ == places_given(models, columns.items@.take(i as int).to_set()),
        decreases columns.items@.len() - i,
    {
        let column: usize = columns.items[i];
        let text = decimal_text(column as u64);
        let found = find_data_field(fields, text.as_str());
        let ghost before = r@;
        let ghost was = columns.items@.take(i as int);
        let ghost now = columns.items@.take(i + 1);
        match found {
            Some(place) => {
                r.insert(place);
            },
            None => {},
        }
        proof {
            assert forall|place: usize| r@.contains(place) <==> places_given(
                models,
                now.to_set(),
            ).contains(place) by {
                if r@.contains(place) {
                    if before.contains(place) {
                        let c = choose|c: usize| #[trigger]
                            was.to_set().contains(c) && place_named(models, decimal(c as nat))
                                == Some(place as int);
                        let k = choose|k: int| 0 <= k < was.len() && was[k] == c;
                        assert(now[k] == c);
                        assert(now.to_set().contains(c));
                    } else {
                        assert(now[i as int] == column);
                        assert(now.to_set().contains(column));
                    }
                }
                if places_given(models, now.to_set()).contains(place) {
                    let c = choose|c: usize| #[trigger]
                        now.to_set().contains(c) && place_named(models, decimal(c as nat)) == Some(
                            place as int,
                        );
                    let k = choose|k: int| 0 <= k < now.len() && now[k] == c;
                    if k < i {
                        assert(was[k] == c);
                        assert(was.to_set().contains(c));
                        assert(before.contains(place));
                    }
                }
            }
            assert(r@ =~= places_given(models, now.to_set()));
        }
        i = i + 1;
    }
    assert(columns.items@.take(columns.items@.len() as int) =~= columns.items@);
    r
}

/// The row access policies are to be applied on top of the scan: there are some, and the early
/// filter leaves them.
pub open spec fn applies_policies(scan: Scan, secure_not_applied: bool) -> bool {
    has_policies(scan) && secure_not_applied
}

/// The host binds every predicate to the fields of the plan.
pub open spec fn all_bound<H, B: Fn(&ScalarExpr, &Vec<DataField>) -> Result<Expr, H>>(
    bind: B,
    predicates: Seq<ScalarExpr>,
    fields: Vec<DataField>,
    bound: Seq<Expr>,
) -> bool {
    &&& bound.len() == predicates.len()
    &&& forall|i: int|
        0 <= i < predicates.len() ==> call_ensures(
            bind,
            (&#[trigger] predicates[i], &fields),
            Ok::<Expr, H>(bound[i]),
        )
}

/// The host binds the predicates before this one, and cannot bind this one.
pub open spec fn unbound_at<H, B: Fn(&ScalarExpr, &Vec<DataField>) -> Result<Expr, H>>(
    bind: B,
    predicates: Seq<ScalarExpr>,
    fields: Vec<DataField>,
    i: int,
    e: H,
) -> bool {
    &&& 0 <= i < predicates.len()
    &&& exists|bound: Seq<Expr>| #[trigger] all_bound(bind, predicates.take(i), fields, bound)
    &&& call_ensures(bind, (&predicates[i], &fields), Err::<Expr, H>(e))
}

/// The host cannot bind one of the predicates; the error is that of the first.
pub open spec fn one_unbound<H, B: Fn(&ScalarExpr, &Vec<DataField>) -> Result<Expr, H>>(
    bind: B,
    predicates: Seq<ScalarExpr>,
    fields: Vec<DataField>,
    e: H,
) -> bool {
    exists|i: int| #[trigger] unbound_at(bind, predicates, fields, i, e)
}

/// All the predicates, once bound, are always true.
pub open spec fn bound_always_true<H, B: Fn(&ScalarExpr, &Vec<DataField>) -> Result<Expr, H>>(
    bind: B,
    predicates: Seq<ScalarExpr>,
    fields: Vec<DataField>,
) -> bool {
    exists|bound: Seq<Expr>| #[trigger]
        all_bound(bind, predicates, fields, bound) && all_always_true(bound)
}

/// The filter of the row access policies is planned over the plan of a scan: there is none where no
/// policy is to be applied or every one is always true; else it has every policy, bound to the fields
/// of the plan, and keeps the columns that are required or retained.
pub open spec fn secure_filter_planned<H, B: Fn(&ScalarExpr, &Vec<DataField>) -> Result<Expr, H>>(
    bind: B,
    scan: Scan,
    required: Set<usize>,
    retained: Set<usize>,
    fields: Vec<DataField>,
    secure_not_applied: bool,
    r: Result<Option<SecureFilter>, H>,
) -> bool {
    match r {
        Ok(None) => !applies_policies(scan, secure_not_applied) || bound_always_true(
            bind,
            scan.secure_predicates->Some_0@,
            fields,
        ),
        Ok(Some(filter)) => {
            &&& applies_policies(scan, secure_not_applied)
            &&& all_bound(
                bind,
                scan.secure_predicates->Some_0@,
                fields,
                filter.predicates@,
            )
            &&& !all_always_true(filter.predicates@)
            &&& symbols_ascend(filter.projections@)
            &&& filter.projections@.to_set() == places_given(
                data_fields_view(fields@),
                required.union(retained),
            )
        },
        Err(e) => applies_policies(scan, secure_not_applied) && one_unbound(
            bind,
            scan.secure_predicates->Some_0@,
            fields,
            e,
        ),
    }
}

/// Plans the filter of the row access policies over the plan of a scan.
///
/// `fields` are those of the plan, and `secure_not_applied` says whether the early filter leaves
/// the policies to be applied. There is no filter where every policy is always true.
pub fn plan_secure_filter<H, B: Fn(&ScalarExpr, &Vec<DataField>) -> Result<Expr, H>>(
    scan: &Scan,
    required: &ColumnSet,
    retained: &ColumnSet,
    fields: &Vec<DataField>,
    secure_not_applied: bool,
    bind: &B,
) -> (r: Result<Option<SecureFilter>, H>)
    requires
        required.wf(),
        forall|e: &ScalarExpr, f: &Vec<DataField>| #[trigger] call_requires(*bind, (e, f)),
    ensures
        secure_filter_planned(
            *bind,
            *scan,
            required@,
            retained@,
            *fields,
            secure_not_applied,
            r,
        ),
{
    let predicates = match &scan.secure_predicates {
        Some(predicates) => predicates,
        None => {
            return Ok(None);
        },
    };
    if predicates.len() == 0 || !secure_not_applied {
        return Ok(None);
    }
    let kept = required.union(retained);
    let projections = secure_projections(fields, &kept);
    let mut bound: Vec<Expr> = Vec::new();
    let mut i: usize = 0;
    while i < predicates.len()
        invariant
            i <= predicates@.len(),
            applies_policies(*scan, secure_not_applied),
            *predicates == scan.secure_predicates->Some_0,
            forall|e: &ScalarExpr, f: &Vec<DataField>| #[trigger] call_requires(*bind, (e, f)),
            bound@.len() == i,
            forall|k: int|
                0 <= k < i ==> call_ensures(
                    *bind,
                    (&#[trigger] predicates@[k], fields),
                    Ok::<Expr, H>(bound@[k]),
                ),
        decreases predicates@.len() - i,
    {
        let expr = bind(&predicates[i], fields);
        match expr {
            Ok(expr) => {
                bound.push(expr);
            },
            Err(e) => {
                proof {
                    let early = predicates@.take(i as int);
                    assert forall|k: int| 0 <= k < early.len() implies call_ensures(
                        *bind,
                        (&#[trigger] early[k], fields),
                        Ok::<Expr, H>(bound@[k]),
                    ) by {
                        assert(early[k] == predicates@[k]);
                    }
                    assert(all_bound(*bind, early, *fields, bound@));
                    assert(unbound_at(*bind, predicates@, *fields, i as int, e));
                }
                return Err(e);
            },
        }
        i = i + 1;
    }
    assert(all_bound(*bind, predicates@, *fields, bound@));
    if predicates_are_true(&bound) {
        assert(bound_always_true(*bind, predicates@, *fields));
        return Ok(None);
    }
    Ok(Some(SecureFilter { projections: projections.items, predicates: bound }))
}

} // verus!
