//! What of a query a table scan does itself.

use vstd::prelude::*;

use crate::column_set::ColumnSet;
use crate::columns::{build_prewhere_virtual_column_ids, build_projection, build_virtual_column,
    column_known, columns_known, projection_of, reads_virtual_columns, virtual_ids, ColumnEntry,
    Projection, VirtualColumn, VirtualColumnInfo};
use crate::expr::Expr;
use crate::filter::{clone_filters, opt_filters_view, BtreeIndexInfo, Filters, FiltersModel};
use crate::ordered_scan::{chooses_index, try_build_ordered_index_info};
use crate::scalar::{TableDataType, TableField};
use crate::scalar_expr::{conjoined, conjunction, lemma_plan_exprs_view, plan_exprs_view,
    PlanExprModel, ScalarExpr};
use crate::scan::{Prewhere, Scan, SortItem};
use crate::scan_plan::DataField;
use crate::table_meta::TableMeta;

verus! {

/// A filter of a scan, and its negation.
#[derive(Debug)]
pub struct PushDownFilters {
    pub filter: Filters,
    pub inverted_filter: Expr,
}

/// A column that the rows are to be sorted by.
#[derive(Debug)]
pub struct PushDownOrder {
    pub column_name: String,
    pub data_type: TableDataType,
    pub asc: bool,
    pub nulls_first: bool,
}

/// A filter that is tried before the other columns are read.
#[derive(Debug)]
pub struct PrewhereInfo {
    pub output_columns: Projection,
    pub prewhere_columns: Projection,
    pub remain_columns: Projection,
    pub filter: Filters,
    pub virtual_column_ids: Option<Vec<u32>>,
}

/// How the rows of an aggregating index are read.
#[derive(Debug)]
pub struct AggIndexPlan {
    pub index_id: u64,
    pub filter: Option<Expr>,
    /// What is selected, each with its place among the fields of the scan, where it has one.
    pub selection: Vec<(Expr, Option<usize>)>,
    /// The columns of the index, named by the symbols of the plan.
    pub schema: Vec<DataField>,
    pub actual_table_field_len: usize,
    pub is_agg: bool,
    pub num_agg_funcs: usize,
    /// The places in the schema of the index of the columns that are read.
    pub projection: Vec<usize>,
}

/// What of a query a table scan does itself.
#[derive(Debug)]
pub struct PushDownInfo {
    pub projection: Projection,
    pub output_columns: Option<Projection>,
    pub filters: Option<PushDownFilters>,
    pub is_deterministic: bool,
    pub prewhere: Option<PrewhereInfo>,
    pub limit: Option<usize>,
    pub order_by: Vec<PushDownOrder>,
    pub virtual_column: Option<VirtualColumnInfo>,
    pub lazy_materialization: bool,
    pub agg_index: Option<AggIndexPlan>,
    pub ordered_index: Option<BtreeIndexInfo>,
    pub secure_filters: Option<PushDownFilters>,
    pub change_type: Option<u32>,
    pub inverted_index: Option<u32>,
    pub vector_index: Option<u32>,
    pub sample: Option<u32>,
}

/// The host makes a filter of this expression: it checks its types, names its columns, casts it to
/// a boolean that is never null, and folds what is constant.
pub open spec fn prepares<H, P: Fn(&ScalarExpr) -> Result<Filters, H>>(
    prepare: P,
    expr: PlanExprModel,
    r: Result<Filters, H>,
) -> bool {
    exists|e: &ScalarExpr| e@ == expr && #[trigger] call_ensures(prepare, (e,), r)
}

/// What the host says of a filter that it made.
pub open spec fn completes<H, D: Fn(&Filters) -> bool, N: Fn(&Filters) -> Result<Expr, H>>(
    deterministic: D,
    negate: N,
    filter: Filters,
    r: Result<(Option<PushDownFilters>, bool), H>,
) -> bool {
    match r {
        Ok((made, is_deterministic)) => made matches Some(filters) && filters.filter == filter
            && call_ensures(deterministic, (&filter,), is_deterministic) && call_ensures(
            negate,
            (&filter,),
            Ok::<Expr, H>(filters.inverted_filter),
        ),
        Err(e) => call_ensures(negate, (&filter,), Err::<Expr, H>(e)),
    }
}

/// The filter of several predicates is made of all of them, joined.
pub open spec fn filters_made<
    H,
    P: Fn(&ScalarExpr) -> Result<Filters, H>,
    D: Fn(&Filters) -> bool,
    N: Fn(&Filters) -> Result<Expr, H>,
>(
    prepare: P,
    deterministic: D,
    negate: N,
    predicates: Seq<PlanExprModel>,
    r: Result<(Option<PushDownFilters>, bool), H>,
) -> bool {
    if predicates.len() == 0 {
        r == Ok::<(Option<PushDownFilters>, bool), H>((None, true))
    } else {
        let joined = conjoined(predicates, "and_filters"@);
        ||| r matches Err(e) && prepares(prepare, joined, Err::<Filters, H>(e))
        ||| exists|filter: Filters| #[trigger]
            prepares(prepare, joined, Ok::<Filters, H>(filter)) && completes(
                deterministic,
                negate,
                filter,
                r,
            )
    }
}

/// The filter of several predicates, with its negation, and whether it always gives the same.
pub fn create_scan_push_down_filters<
    H,
    P: Fn(&ScalarExpr) -> Result<Filters, H>,
    D: Fn(&Filters) -> bool,
    N: Fn(&Filters) -> Result<Expr, H>,
>(predicates: &Vec<ScalarExpr>, prepare: &P, deterministic: &D, negate: &N) -> (r: Result<
    (Option<PushDownFilters>, bool),
    H,
>)
    requires
        forall|e: &ScalarExpr| #[trigger] call_requires(*prepare, (e,)),
        forall|f: &Filters| #[trigger] call_requires(*deterministic, (f,)),
        forall|f: &Filters| #[trigger] call_requires(*negate, (f,)),
    ensures
        filters_made(*prepare, *deterministic, *negate, plan_exprs_view(predicates@), r),
{
    proof {
        lemma_plan_exprs_view(predicates@);
    }
    let joined = match conjunction(predicates, "and_filters") {
        None => {
            return Ok((None, true));
        },
        Some(joined) => joined,
    };
    let ghost model = conjoined(plan_exprs_view(predicates@), "and_filters"@);
    let prepared = prepare(&joined);
    assert(prepares(*prepare, model, prepared));
    let filter = match prepared {
        Ok(filter) => filter,
        Err(e) => {
            return Err(e);
        },
    };
    let is_deterministic = deterministic(&filter);
    let negated = negate(&filter);
    match negated {
        Ok(inverted_filter) => {
            let ghost made = filter;
            let r: Result<(Option<PushDownFilters>, bool), H> = Ok(
                (Some(PushDownFilters { filter, inverted_filter }), is_deterministic),
            );
            assert(prepares(*prepare, model, Ok::<Filters, H>(made)) && completes(
                *deterministic,
                *negate,
                made,
                r,
            ));
            r
        },
        Err(e) => {
            let r: Result<(Option<PushDownFilters>, bool), H> = Err(e);
            assert(prepares(*prepare, model, Ok::<Filters, H>(filter)) && completes(
                *deterministic,
                *negate,
                filter,
                r,
            ));
            r
        },
    }
}

/// The name and the type of a column that the storage can sort by.
pub open spec fn sortable_column(entry: ColumnEntry) -> Option<(Seq<char>, TableDataType)> {
    match entry {
        ColumnEntry::BaseTableColumn(column) => Some((column.column_name@, column.data_type)),
        ColumnEntry::InternalColumn(column) => Some(
            (column.internal_column.column_name@, column.internal_column.data_type),
        ),
        ColumnEntry::VirtualColumn(_) => None,
        ColumnEntry::DerivedColumn(_) => None,
    }
}

/// The columns that the storage sorts by.
pub open spec fn pushed_order(columns: Seq<ColumnEntry>, items: Seq<SortItem>) -> Seq<
    (Seq<char>, TableDataType, bool, bool),
>
    decreases items.len(),
{
    if items.len() == 0 {
        Seq::empty()
    } else {
        let before = pushed_order(columns, items.drop_last());
        let item = items.last();
        match sortable_column(columns[item.index as int]) {
            Some((name, data_type)) => before.push((name, data_type, item.asc, item.nulls_first)),
            None => before,
        }
    }
}

/// The columns that the rows are sorted by.
pub open spec fn orders_view(orders: Seq<PushDownOrder>) -> Seq<
    (Seq<char>, TableDataType, bool, bool),
> {
    Seq::new(
        orders.len(),
        |i: int|
            (orders[i].column_name@, orders[i].data_type, orders[i].asc, orders[i].nulls_first),
    )
}

/// The columns that the storage sorts by.
pub fn push_down_order(columns: &Vec<ColumnEntry>, items: &Vec<SortItem>) -> (r: Vec<PushDownOrder>)
    requires
        forall|i: int| 0 <= i < items@.len() ==> (#[trigger] items@[i]).index < columns@.len(),
    ensures
        orders_view(r@) == pushed_order(columns@, items@),
{
    let mut orders: Vec<PushDownOrder> = Vec::new();
    let mut i: usize = 0;
    assert(items@.take(0) =~= Seq::<SortItem>::empty());
    assert(orders_view(orders@) =~= pushed_order(columns@, items@.take(0)));
    while i < items.len()
        invariant
            i <= items@.len(),
            forall|i: int| 0 <= i < items@.len() ==> (#[trigger] items@[i]).index < columns@.len(),
            orders_view(orders@) == pushed_order(columns@, items@.take(i as int)),
        decreases items@.len() - i,
    {
        let item = items[i];
        let ghost before = orders@;
        proof {
            let t = items@.take(i + 1);
            assert(t.drop_last() =~= items@.take(i as int));
            assert(t.last() == item);
        }
        let named: Option<(String, TableDataType)> = match &columns[item.index] {
            ColumnEntry::BaseTableColumn(column) => Some(
                (column.column_name.clone(), column.data_type),
            ),
            ColumnEntry::InternalColumn(column) => Some(
                (column.internal_column.column_name.clone(), column.internal_column.data_type),
            ),
            ColumnEntry::VirtualColumn(_) => None,
            ColumnEntry::DerivedColumn(_) => None,
        };
        match named {
            Some((column_name, data_type)) => {
                let ghost name = column_name@;
                orders.push(
                    PushDownOrder {
                        column_name,
                        data_type,
                        asc: item.asc,
                        nulls_first: item.nulls_first,
                    },
                );
                assert(orders_view(orders@) =~= orders_view(before).push(
                    (name, data_type, item.asc, item.nulls_first),
                ));
            },
            None => {},
        }
        i = i + 1;
    }
    assert(items@.take(items@.len() as int) =~= items@);
    orders
}

/// The rows that the scan may stop at: none where the storage does not sort them all as asked.
pub open spec fn pushed_limit(
    scan: Scan,
    pushed: nat,
    ordered_index: Option<BtreeIndexInfo>,
) -> Option<usize> {
    if scan.order_by matches Some(items) && items@.len() != pushed {
        None
    } else if ordered_index matches Some(info) && info.limit is None {
        None
    } else {
        scan.limit
    }
}

/// The columns of a scan that its early filter does not read.
pub open spec fn is_remainder(remain: ColumnSet, scan: Scan, prewhere: Prewhere) -> bool {
    remain.wf() && remain@ == scan.columns@.difference(prewhere.prewhere_columns@)
}

/// An early filter reads its columns first and the others of the scan after it.
pub open spec fn is_prewhere(
    info: PrewhereInfo,
    scan: Scan,
    prewhere: Prewhere,
    columns: Seq<ColumnEntry>,
    schema: Seq<TableField>,
    has_inner_column: bool,
) -> bool {
    &&& info.output_columns.wf()
    &&& info.prewhere_columns.wf()
    &&& info.remain_columns.wf()
    &&& info.output_columns@ == projection_of(
        columns,
        schema,
        prewhere.output_columns.items@,
        has_inner_column,
        true,
        false,
    )
    &&& info.prewhere_columns@ == projection_of(
        columns,
        schema,
        prewhere.prewhere_columns.items@,
        has_inner_column,
        true,
        true,
    )
    &&& exists|remain: ColumnSet| #[trigger]
        is_remainder(remain, scan, prewhere) && info.remain_columns@ == projection_of(
            columns,
            schema,
            remain.items@,
            has_inner_column,
            true,
            true,
        )
    &&& match info.virtual_column_ids {
        Some(ids) => ids@ == virtual_ids(columns, prewhere.prewhere_columns.items@) && ids@.len()
            > 0,
        None => virtual_ids(columns, prewhere.prewhere_columns.items@).len() == 0,
    }
}

/// The schema holds what each column of the set is read from.
pub open spec fn set_known(
    columns: Seq<ColumnEntry>,
    schema: Seq<TableField>,
    symbols: Seq<usize>,
    has_inner_column: bool,
) -> bool {
    columns_known(columns, schema, symbols, has_inner_column, true, true)
}

fn build_prewhere(
    scan: &Scan,
    prewhere: &Prewhere,
    columns: &Vec<ColumnEntry>,
    schema: &Vec<TableField>,
    has_inner_column: bool,
    filter: Filters,
) -> (r: PrewhereInfo)
    requires
        scan.columns.wf(),
        set_known(columns@, schema@, scan.columns.items@, has_inner_column),
        columns_known(
            columns@,
            schema@,
            prewhere.output_columns.items@,
            has_inner_column,
            true,
            false,
        ),
        set_known(columns@, schema@, prewhere.prewhere_columns.items@, has_inner_column),
    ensures
        is_prewhere(r, *scan, *prewhere, columns@, schema@, has_inner_column),
        r.filter == filter,
{
    let remain = scan.columns.difference(&prewhere.prewhere_columns);
    proof {
        assert forall|i: int| 0 <= i < remain.items@.len() implies (#[trigger] remain.items@[i])
            < columns@.len() && column_known(
            columns@[remain.items@[i] as int],
            schema@,
            has_inner_column,
            true,
            true,
        ) by {
            assert(remain@.contains(remain.items@[i]));
            assert(scan.columns.items@.contains(remain.items@[i]));
            let k = choose|k: int|
                0 <= k < scan.columns.items@.len() && scan.columns.items@[k] == remain.items@[i];
            assert(scan.columns.items@[k] < columns@.len());
        }
    }
    let output_columns = build_projection(
        columns,
        schema,
        &prewhere.output_columns.items,
        has_inner_column,
        true,
        false,
    );
    let prewhere_columns = build_projection(
        columns,
        schema,
        &prewhere.prewhere_columns.items,
        has_inner_column,
        true,
        true,
    );
    let remain_columns = build_projection(
        columns,
        schema,
        &remain.items,
        has_inner_column,
        true,
        true,
    );
    assert(is_remainder(remain, *scan, *prewhere));
    let virtual_column_ids = build_prewhere_virtual_column_ids(
        columns,
        &prewhere.prewhere_columns.items,
    );
    PrewhereInfo { output_columns, prewhere_columns, remain_columns, filter, virtual_column_ids }
}

proof fn lemma_known_without_virtual(
    columns: Seq<ColumnEntry>,
    schema: Seq<TableField>,
    symbols: Seq<usize>,
    has_inner_column: bool,
)
    requires
        set_known(columns, schema, symbols, has_inner_column),
    ensures
        columns_known(columns, schema, symbols, has_inner_column, true, false),
{
}

/// The filter without its negation, where there is one.
pub open spec fn filter_of(filters: Option<PushDownFilters>) -> Option<FiltersModel> {
    match filters {
        Some(filters) => Some(filters.filter@),
        None => None,
    }
}

/// This is what of a query the scan of its table does itself, as far as it does not depend on what
/// the host makes of the predicates.
pub open spec fn is_pushed_down(
    r: PushDownInfo,
    scan: Scan,
    table_meta: TableMeta,
    columns: Seq<ColumnEntry>,
    schema: Seq<TableField>,
    has_inner_column: bool,
    has_lazy_columns: bool,
) -> bool {
    &&& r.projection.wf()
    &&& r.projection@ == projection_of(
        columns,
        schema,
        scan.columns.items@,
        has_inner_column,
        true,
        true,
    )
    &&& match r.output_columns {
        Some(output) => r.virtual_column is Some && output.wf() && output@ == projection_of(
            columns,
            schema,
            scan.columns.items@,
            has_inner_column,
            true,
            false,
        ),
        None => r.virtual_column is None,
    }
    &&& chooses_index(r.ordered_index, scan, table_meta, columns, filter_of(r.filters))
    &&& r.prewhere is Some <==> scan.prewhere is Some && r.ordered_index is None
    &&& r.prewhere matches Some(info) ==> is_prewhere(
        info,
        scan,
        scan.prewhere->Some_0,
        columns,
        schema,
        has_inner_column,
    )
    &&& orders_view(r.order_by@) == (match scan.order_by {
        Some(items) => pushed_order(columns, items@),
        None => Seq::empty(),
    })
    &&& r.limit == pushed_limit(scan, r.order_by@.len(), r.ordered_index)
    &&& r.lazy_materialization == has_lazy_columns
    &&& r.agg_index is None
    &&& r.change_type == scan.change_type
    &&& r.inverted_index == scan.inverted_index
    &&& r.vector_index == scan.vector_index
    &&& r.sample == scan.sample
}

/// The columns of a scan, and those of its order and of its early filter, are known.
pub open spec fn scan_known(
    scan: Scan,
    columns: Seq<ColumnEntry>,
    schema: Seq<TableField>,
    has_inner_column: bool,
) -> bool {
    &&& set_known(columns, schema, scan.columns.items@, has_inner_column)
    &&& scan.order_by matches Some(items) ==> forall|i: int|
        0 <= i < items@.len() ==> (#[trigger] items@[i]).index < columns.len()
    &&& scan.prewhere matches Some(prewhere) ==> columns_known(
        columns,
        schema,
        prewhere.output_columns.items@,
        has_inner_column,
        true,
        false,
    ) && set_known(columns, schema, prewhere.prewhere_columns.items@, has_inner_column)
}

/// What of a query the scan of its table does itself.
///
/// `secure` and `user` are the filters of the row access policies and of the query, each with
/// whether it always gives the same, and `prewhere_filter` that of the predicates that are tried
/// before the other columns are read.
pub fn push_downs_of(
    scan: &Scan,
    table_meta: &TableMeta,
    columns: &Vec<ColumnEntry>,
    schema: &Vec<TableField>,
    virtual_column: Option<VirtualColumnInfo>,
    has_inner_column: bool,
    has_lazy_columns: bool,
    secure: (Option<PushDownFilters>, bool),
    user: (Option<PushDownFilters>, bool),
    prewhere_filter: Option<Filters>,
) -> (r: PushDownInfo)
    requires
        scan.columns.wf(),
        scan_known(*scan, columns@, schema@, has_inner_column),
        prewhere_filter is Some <==> scan.prewhere is Some,
    ensures
        is_pushed_down(
            r,
            *scan,
            *table_meta,
            columns@,
            schema@,
            has_inner_column,
            has_lazy_columns,
        ),
        r.filters == user.0,
        r.secure_filters == secure.0,
        r.is_deterministic == (user.1 && secure.1),
        r.prewhere matches Some(info) ==> prewhere_filter == Some(info.filter),
        r.virtual_column == virtual_column,
{
    proof {
        lemma_known_without_virtual(columns@, schema@, scan.columns.items@, has_inner_column);
    }
    let projection = build_projection(
        columns,
        schema,
        &scan.columns.items,
        has_inner_column,
        true,
        true,
    );
    let output_columns: Option<Projection> = if virtual_column.is_some() {
        Some(
            build_projection(
                columns,
                schema,
                &scan.columns.items,
                has_inner_column,
                true,
                false,
            ),
        )
    } else {
        None
    };
    let order_by: Vec<PushDownOrder> = match &scan.order_by {
        Some(items) => push_down_order(columns, items),
        None => {
            let none: Vec<PushDownOrder> = Vec::new();
            assert(orders_view(none@) =~= Seq::<(Seq<char>, TableDataType, bool, bool)>::empty());
            none
        },
    };
    let mut limit: Option<usize> = scan.limit;
    match &scan.order_by {
        Some(items) => {
            if items.len() != order_by.len() {
                limit = None;
            }
        },
        None => {},
    }
    assert forall|i: int| 0 <= i < scan.columns.items@.len() implies (
    #[trigger] scan.columns.items@[i]) < columns@.len() by {}
    let (user_filters, user_is_deterministic) = user;
    let (secure_filters, secure_is_deterministic) = secure;
    let filter: Option<Filters> = match &user_filters {
        Some(filters) => Some(clone_filters(&filters.filter)),
        None => None,
    };
    assert(opt_filters_view(filter) == filter_of(user_filters));
    let ordered_index = try_build_ordered_index_info(scan, table_meta, columns, &filter);
    match &ordered_index {
        Some(info) => {
            if info.limit.is_none() {
                limit = None;
            }
        },
        None => {},
    }
    let prewhere: Option<PrewhereInfo> = if ordered_index.is_some() {
        None
    } else {
        match (&scan.prewhere, prewhere_filter) {
            (Some(prewhere), Some(filter)) => Some(
                build_prewhere(scan, prewhere, columns, schema, has_inner_column, filter),
            ),
            _ => None,
        }
    };
    PushDownInfo {
        projection,
        output_columns,
        filters: user_filters,
        is_deterministic: user_is_deterministic && secure_is_deterministic,
        prewhere,
        limit,
        order_by,
        virtual_column,
        lazy_materialization: has_lazy_columns,
        agg_index: None,
        ordered_index,
        secure_filters,
        change_type: scan.change_type,
        inverted_index: scan.inverted_index,
        vector_index: scan.vector_index,
        sample: scan.sample,
    }
}

/// The predicates, where there are any.
pub open spec fn predicates_of(predicates: Option<Vec<ScalarExpr>>) -> Seq<PlanExprModel> {
    match predicates {
        Some(predicates) => plan_exprs_view(predicates@),
        None => Seq::empty(),
    }
}

fn make_filters<
    H,
    P: Fn(&ScalarExpr) -> Result<Filters, H>,
    D: Fn(&Filters) -> bool,
    N: Fn(&Filters) -> Result<Expr, H>,
>(predicates: &Option<Vec<ScalarExpr>>, prepare: &P, deterministic: &D, negate: &N) -> (r: Result<
    (Option<PushDownFilters>, bool),
    H,
>)
    requires
        forall|e: &ScalarExpr| #[trigger] call_requires(*prepare, (e,)),
        forall|f: &Filters| #[trigger] call_requires(*deterministic, (f,)),
        forall|f: &Filters| #[trigger] call_requires(*negate, (f,)),
    ensures
        filters_made(*prepare, *deterministic, *negate, predicates_of(*predicates), r),
{
    match predicates {
        Some(predicates) => create_scan_push_down_filters(
            predicates,
            prepare,
            deterministic,
            negate,
        ),
        None => Ok((None, true)),
    }
}

/// What the host makes of the predicates that are tried before the other columns are read.
pub open spec fn prewhere_made<H, P: Fn(&ScalarExpr) -> Result<Filters, H>>(
    prepare: P,
    prewhere: Option<Prewhere>,
    r: Result<Option<Filters>, H>,
) -> bool {
    match prewhere {
        None => r == Ok::<Option<Filters>, H>(None),
        Some(prewhere) => {
            let joined = conjoined(plan_exprs_view(prewhere.predicates@), "and_filters"@);
            match r {
                Ok(Some(filter)) => prepares(prepare, joined, Ok::<Filters, H>(filter)),
                Ok(None) => false,
                Err(e) => prepares(prepare, joined, Err::<Filters, H>(e)),
            }
        },
    }
}

fn make_prewhere<H, P: Fn(&ScalarExpr) -> Result<Filters, H>>(
    prewhere: &Option<Prewhere>,
    prepare: &P,
) -> (r: Result<Option<Filters>, H>)
    requires
        forall|e: &ScalarExpr| #[trigger] call_requires(*prepare, (e,)),
        *prewhere matches Some(prewhere) ==> prewhere.predicates@.len() > 0,
    ensures
        prewhere_made(*prepare, *prewhere, r),
{
    match prewhere {
        None => Ok(None),
        Some(prewhere) => match conjunction(&prewhere.predicates, "and_filters") {
            None => Ok(None),
            Some(joined) => {
                let prepared = prepare(&joined);
                assert(prepares(
                    *prepare,
                    conjoined(plan_exprs_view(prewhere.predicates@), "and_filters"@),
                    prepared,
                ));
                match prepared {
                    Ok(filter) => Ok(Some(filter)),
                    Err(e) => Err(e),
                }
            },
        },
    }
}

/// The filters of the query and of the row access policies are made of their predicates; the two
/// together always give the same where each does.
pub open spec fn filters_pushed<
    H,
    P: Fn(&ScalarExpr) -> Result<Filters, H>,
    D: Fn(&Filters) -> bool,
    N: Fn(&Filters) -> Result<Expr, H>,
>(prepare: P, deterministic: D, negate: N, scan: Scan, info: PushDownInfo) -> bool {
    exists|user: bool, secure: bool|
        info.is_deterministic == (user && secure) && #[trigger] filters_made(
            prepare,
            deterministic,
            negate,
            predicates_of(scan.push_down_predicates),
            Ok::<_, H>((info.filters, user)),
        ) && #[trigger] filters_made(
            prepare,
            deterministic,
            negate,
            predicates_of(scan.secure_predicates),
            Ok::<_, H>((info.secure_filters, secure)),
        )
}

/// The host makes a filter of the predicates.
pub open spec fn filters_accepted<
    H,
    P: Fn(&ScalarExpr) -> Result<Filters, H>,
    D: Fn(&Filters) -> bool,
    N: Fn(&Filters) -> Result<Expr, H>,
>(prepare: P, deterministic: D, negate: N, predicates: Seq<PlanExprModel>) -> bool {
    exists|made: (Option<PushDownFilters>, bool)| #[trigger]
        filters_made(prepare, deterministic, negate, predicates, Ok::<_, H>(made))
}

/// The host makes a filter of the predicates that are tried before the other columns are read,
/// where there are any.
pub open spec fn prewhere_accepted<H, P: Fn(&ScalarExpr) -> Result<Filters, H>>(
    prepare: P,
    prewhere: Option<Prewhere>,
) -> bool {
    exists|early: Option<Filters>| #[trigger] prewhere_made(prepare, prewhere, Ok::<_, H>(early))
}

/// What of a query the scan of its table does itself. The host prepares the predicates of the row
/// access policies, then those of the query, then those of the early filter; the first that it
/// refuses ends the planning.
pub open spec fn pushes_down<
    H,
    P: Fn(&ScalarExpr) -> Result<Filters, H>,
    D: Fn(&Filters) -> bool,
    N: Fn(&Filters) -> Result<Expr, H>,
>(prepare: P, deterministic: D, negate: N, scan: Scan, r: Result<PushDownInfo, H>) -> bool {
    match r {
        Ok(info) => {
            &&& filters_pushed(prepare, deterministic, negate, scan, info)
            &&& info.prewhere matches Some(prewhere) ==> prewhere_made(
                prepare,
                scan.prewhere,
                Ok::<_, H>(Some(prewhere.filter)),
            )
            &&& prewhere_accepted(prepare, scan.prewhere)
        },
        Err(e) => {
            let secure = predicates_of(scan.secure_predicates);
            let user = predicates_of(scan.push_down_predicates);
            ||| filters_made(
                prepare,
                deterministic,
                negate,
                secure,
                Err::<(Option<PushDownFilters>, bool), H>(e),
            )
            ||| filters_accepted(prepare, deterministic, negate, secure) && filters_made(
                prepare,
                deterministic,
                negate,
                user,
                Err::<(Option<PushDownFilters>, bool), H>(e),
            )
            ||| filters_accepted(prepare, deterministic, negate, secure) && filters_accepted(
                prepare,
                deterministic,
                negate,
                user,
            ) && prewhere_made(prepare, scan.prewhere, Err::<Option<Filters>, H>(e))
        },
    }
}

/// What of a query the scan of its table does itself.
pub fn push_downs<
    H,
    P: Fn(&ScalarExpr) -> Result<Filters, H>,
    D: Fn(&Filters) -> bool,
    N: Fn(&Filters) -> Result<Expr, H>,
    S: Fn(TableDataType) -> String,
>(
    scan: &Scan,
    table_meta: &TableMeta,
    columns: &Vec<ColumnEntry>,
    schema: &Vec<TableField>,
    virtual_columns: &Vec<(usize, VirtualColumn)>,
    has_inner_column: bool,
    has_lazy_columns: bool,
    prepare: &P,
    deterministic: &D,
    negate: &N,
    spell: &S,
) -> (r: Result<PushDownInfo, H>)
    requires
        scan.columns.wf(),
        scan_known(*scan, columns@, schema@, has_inner_column),
        scan.prewhere matches Some(prewhere) ==> prewhere.predicates@.len() > 0,
        forall|e: &ScalarExpr| #[trigger] call_requires(*prepare, (e,)),
        forall|f: &Filters| #[trigger] call_requires(*deterministic, (f,)),
        forall|f: &Filters| #[trigger] call_requires(*negate, (f,)),
        forall|data_type: TableDataType| #[trigger] call_requires(*spell, (data_type,)),
    ensures
        pushes_down(*prepare, *deterministic, *negate, *scan, r),
        r matches Ok(info) ==> is_pushed_down(
            info,
            *scan,
            *table_meta,
            columns@,
            schema@,
            has_inner_column,
            has_lazy_columns,
        ) && reads_virtual_columns(info.virtual_column, virtual_columns@, *spell),
{
    let secure = match make_filters(&scan.secure_predicates, prepare, deterministic, negate) {
        Ok(made) => made,
        Err(e) => {
            return Err(e);
        },
    };
    assert(filters_accepted(
        *prepare,
        *deterministic,
        *negate,
        predicates_of(scan.secure_predicates),
    ));
    let user = match make_filters(&scan.push_down_predicates, prepare, deterministic, negate) {
        Ok(made) => made,
        Err(e) => {
            return Err(e);
        },
    };
    assert(filters_accepted(
        *prepare,
        *deterministic,
        *negate,
        predicates_of(scan.push_down_predicates),
    ));
    let prewhere_filter = match make_prewhere(&scan.prewhere, prepare) {
        Ok(made) => made,
        Err(e) => {
            return Err(e);
        },
    };
    let ghost shown_user = user;
    let ghost shown_secure = secure;
    let ghost early = prewhere_filter;
    let virtual_column = build_virtual_column(virtual_columns, spell);
    let info = push_downs_of(
        scan,
        table_meta,
        columns,
        schema,
        virtual_column,
        has_inner_column,
        has_lazy_columns,
        secure,
        user,
        prewhere_filter,
    );
    proof {
        assert(shown_user == (info.filters, shown_user.1));
        assert(shown_secure == (info.secure_filters, shown_secure.1));
        assert(filters_made(
            *prepare,
            *deterministic,
            *negate,
            predicates_of(scan.push_down_predicates),
            Ok::<_, H>((info.filters, shown_user.1)),
        ));
        assert(filters_made(
            *prepare,
            *deterministic,
            *negate,
            predicates_of(scan.secure_predicates),
            Ok::<_, H>((info.secure_filters, shown_secure.1)),
        ));
        assert(filters_pushed(*prepare, *deterministic, *negate, *scan, info));
        assert(prewhere_made(*prepare, scan.prewhere, Ok::<_, H>(early)));
    }
    Ok(info)
}

} // verus!
