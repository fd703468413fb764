//! What is planned of a query, in terms of what its predicates mean.

use vstd::prelude::*;

use crate::agg_index::{agg_filter, agg_plan_after_filter, agg_plan_after_places, agg_planned,
    agg_selected, agg_selection, fields_at, filter_cast, over_fields, places_named, selected_is,
    used_places, AggIndexError, AggIndexInfo};
use crate::columns::{is_field_column, symbol_of_field, ColumnEntry};
use crate::expr::Expr;
use crate::expr_meaning::{expr_value, law_moved_expression_gives_the_same, ExprHost};
use crate::filter::{BtreeIndexInfo, Filters, FiltersModel};
use crate::ordered_index::key_symbol;
use crate::ordered_scan::{chooses_index, fixed_prefix, is_best_index, is_index_scan,
    ordered_query, OrderedQuery};
use crate::plan_meaning::{all_hold, has_value, has_values, is_conjunction_of, is_symmetric,
    law_all_fixed_columns_have_their_values, lemma_joined_is_conjunction, PlanRow};
use crate::push_down::{completes, filters_made, filters_pushed, predicates_of, prepares,
    pushes_down, AggIndexPlan, PushDownFilters, PushDownInfo};
use crate::scalar::{lemma_scalars_view, ScalarModel, TableDataType};
use crate::scalar_expr::{conjoined, lemma_plan_exprs_view, plan_exprs_view, PlanExprModel, ScalarExpr};
use crate::scan::Scan;
use crate::scan_plan::{data_fields_view, place_named};
use crate::table_meta::{field_with_id, key_columns_of, TableIndexColumn, TableMeta};
use crate::text::decimal;

verus! {

/// The host made this of an expression that is true of exactly those rows of which all the
/// predicates are.
pub open spec fn made_of_all<H, P: Fn(&ScalarExpr) -> Result<Filters, H>>(
    prepare: P,
    predicates: Seq<PlanExprModel>,
    r: Result<Filters, H>,
) -> bool {
    exists|e: &ScalarExpr| #[trigger]
        call_ensures(prepare, (e,), r) && is_conjunction_of(e@, predicates)
}

proof fn lemma_prepared_of_all<H, P: Fn(&ScalarExpr) -> Result<Filters, H>>(
    prepare: P,
    predicates: Seq<PlanExprModel>,
    func_name: Seq<char>,
    r: Result<Filters, H>,
)
    requires
        predicates.len() > 0,
        func_name == "and"@ || func_name == "and_filters"@,
        prepares(prepare, conjoined(predicates, func_name), r),
    ensures
        made_of_all(prepare, predicates, r),
{
    lemma_joined_is_conjunction(predicates, func_name);
    let e = choose|e: &ScalarExpr|
        e@ == conjoined(predicates, func_name) && #[trigger] call_ensures(prepare, (e,), r);
    assert(call_ensures(prepare, (e,), r) && is_conjunction_of(e@, predicates));
}

/// There is a filter where there are predicates. The host made it of an expression that is true of
/// exactly those rows of which all of them are, and negated that filter.
pub open spec fn is_filter_of_all<
    H,
    P: Fn(&ScalarExpr) -> Result<Filters, H>,
    N: Fn(&Filters) -> Result<Expr, H>,
>(
    prepare: P,
    negate: N,
    predicates: Seq<PlanExprModel>,
    filters: Option<PushDownFilters>,
) -> bool {
    match filters {
        None => predicates.len() == 0,
        Some(filters) => {
            &&& predicates.len() > 0
            &&& made_of_all(prepare, predicates, Ok::<Filters, H>(filters.filter))
            &&& call_ensures(negate, (&filters.filter,), Ok::<Expr, H>(filters.inverted_filter))
        },
    }
}

/// The host says of a filter that it always gives the same; so does the filter that is none.
pub open spec fn is_said_deterministic<D: Fn(&Filters) -> bool>(
    deterministic: D,
    filters: Option<PushDownFilters>,
    said: bool,
) -> bool {
    match filters {
        None => said,
        Some(filters) => call_ensures(deterministic, (&filters.filter,), said),
    }
}

/// The filter of several predicates is made of an expression that is true of exactly those rows of
/// which all the predicates are; an error is that of making this filter, or of negating it.
pub proof fn law_filter_of_predicates_is_their_conjunction<
    H,
    P: Fn(&ScalarExpr) -> Result<Filters, H>,
    D: Fn(&Filters) -> bool,
    N: Fn(&Filters) -> Result<Expr, H>,
>(
    prepare: P,
    deterministic: D,
    negate: N,
    predicates: Seq<PlanExprModel>,
    r: Result<(Option<PushDownFilters>, bool), H>,
)
    requires
        filters_made(prepare, deterministic, negate, predicates, r),
    ensures
        match r {
            Ok((filters, said)) => is_filter_of_all::<H, P, N>(
                prepare,
                negate,
                predicates,
                filters,
            ) && is_said_deterministic(deterministic, filters, said),
            Err(e) => {
                &&& predicates.len() > 0
                &&& made_of_all(prepare, predicates, Err::<Filters, H>(e)) || exists|
                    filter: Filters,
                | #[trigger]
                    made_of_all(prepare, predicates, Ok::<Filters, H>(filter)) && call_ensures(
                        negate,
                        (&filter,),
                        Err::<Expr, H>(e),
                    )
            },
        },
{
    if predicates.len() > 0 {
        let joined = conjoined(predicates, "and_filters"@);
        if r is Err && prepares(prepare, joined, Err::<Filters, H>(r->Err_0)) {
            lemma_prepared_of_all(
                prepare,
                predicates,
                "and_filters"@,
                Err::<Filters, H>(r->Err_0),
            );
        } else {
            let filter = choose|filter: Filters| #[trigger]
                prepares(prepare, joined, Ok::<Filters, H>(filter)) && completes(
                    deterministic,
                    negate,
                    filter,
                    r,
                );
            lemma_prepared_of_all(prepare, predicates, "and_filters"@, Ok::<Filters, H>(filter));
        }
    }
}

/// What a scan filters by itself is true of exactly those rows of which all the predicates are that
/// it was given: the filter of the query that of the predicates that are pushed down, the secure
/// filter that of the row access policies, and the early filter that of its own predicates. The
/// whole always gives the same where the host says so of the first two.
pub proof fn law_scan_filters_by_all_its_predicates<
    H,
    P: Fn(&ScalarExpr) -> Result<Filters, H>,
    D: Fn(&Filters) -> bool,
    N: Fn(&Filters) -> Result<Expr, H>,
>(prepare: P, deterministic: D, negate: N, scan: Scan, info: PushDownInfo)
    requires
        pushes_down(prepare, deterministic, negate, scan, Ok::<_, H>(info)),
        scan.prewhere matches Some(prewhere) ==> prewhere.predicates@.len() > 0,
    ensures
        is_filter_of_all::<H, P, N>(
            prepare,
            negate,
            match scan.push_down_predicates {
                Some(predicates) => plan_exprs_view(predicates@),
                None => Seq::empty(),
            },
            info.filters,
        ),
        is_filter_of_all::<H, P, N>(
            prepare,
            negate,
            match scan.secure_predicates {
                Some(predicates) => plan_exprs_view(predicates@),
                None => Seq::empty(),
            },
            info.secure_filters,
        ),
        exists|user: bool, secure: bool|
            info.is_deterministic == (user && secure) && #[trigger] is_said_deterministic(
                deterministic,
                info.filters,
                user,
            ) && #[trigger] is_said_deterministic(deterministic, info.secure_filters, secure),
        info.prewhere matches Some(early) ==> scan.prewhere is Some && made_of_all(
            prepare,
            plan_exprs_view(scan.prewhere->Some_0.predicates@),
            Ok::<Filters, H>(early.filter),
        ),
{
    assert(filters_pushed(prepare, deterministic, negate, scan, info));
    let (user, secure) = choose|user: bool, secure: bool|
        info.is_deterministic == (user && secure) && #[trigger] filters_made(
            prepare,
            deterministic,
            negate,
            predicates_of(scan.push_down_predicates),
            Ok::<_, H>((info.filters, user)),
        ) && #[trigger] filters_made(
            prepare,
            deterministic,
            negate,
            predicates_of(scan.secure_predicates),
            Ok::<_, H>((info.secure_filters, secure)),
        );
    law_filter_of_predicates_is_their_conjunction(
        prepare,
        deterministic,
        negate,
        predicates_of(scan.push_down_predicates),
        Ok::<_, H>((info.filters, user)),
    );
    law_filter_of_predicates_is_their_conjunction(
        prepare,
        deterministic,
        negate,
        predicates_of(scan.secure_predicates),
        Ok::<_, H>((info.secure_filters, secure)),
    );
    assert(is_said_deterministic(deterministic, info.filters, user) && is_said_deterministic(
        deterministic,
        info.secure_filters,
        secure,
    ));
    if info.prewhere is Some && scan.prewhere is Some {
        let predicates = scan.prewhere->Some_0.predicates;
        lemma_plan_exprs_view(predicates@);
        lemma_prepared_of_all(
            prepare,
            plan_exprs_view(predicates@),
            "and_filters"@,
            Ok::<Filters, H>(info.prewhere->Some_0.filter),
        );
    }
}

/// The expression over the columns of an index gives what the expression gives that the host made,
/// whatever its functions do: each column is the one of the same name.
pub open spec fn means_over_index(
    expr: Expr,
    made: FiltersModel,
    plan: AggIndexPlan,
    host: ExprHost,
    named: spec_fn(Seq<char>) -> ScalarModel,
) -> bool {
    expr_value(
        expr@,
        host,
        |place: usize, data_type: TableDataType|
            named(plan.schema@[plan.projection@[place as int] as int].name@),
    ) == expr_value(
        made.expr,
        host,
        |column: usize, data_type: TableDataType| named(made.columns[column as int]),
    )
}

pub proof fn lemma_place_named(fields: Seq<(Seq<char>, TableDataType)>, name: Seq<char>)
    ensures
        match place_named(fields, name) {
            Some(i) => 0 <= i < fields.len() && fields[i].0 == name,
            None => forall|i: int| 0 <= i < fields.len() ==> (#[trigger] fields[i]).0 != name,
        },
    decreases fields.len(),
{
    if fields.len() > 0 {
        lemma_place_named(fields.skip(1), name);
        if fields[0].0 != name && place_named(fields.skip(1), name) is None {
            assert forall|i: int| 0 <= i < fields.len() implies (#[trigger] fields[i]).0 != name by {
                if i > 0 {
                    assert(fields.skip(1)[i - 1] == fields[i]);
                }
            }
        }
    }
}

proof fn lemma_used_places(schema: Seq<(Seq<char>, TableDataType)>, used: Seq<usize>)
    requires
        used_places(schema, used) is Some,
        schema.len() <= usize::MAX,
    ensures
        used_places(schema, used)->Some_0.len() == used.len(),
        forall|i: int|
            0 <= i < used.len() ==> (#[trigger] used_places(schema, used)->Some_0[i]) < schema.len()
                && schema[used_places(schema, used)->Some_0[i] as int].0 == decimal(
                used[i] as nat,
            ),
    decreases used.len(),
{
    if used.len() > 0 {
        let before = used.drop_last();
        lemma_used_places(schema, before);
        lemma_place_named(schema, decimal(used.last() as nat));
        let places = used_places(schema, used)->Some_0;
        assert forall|i: int| 0 <= i < used.len() implies (#[trigger] places[i]) < schema.len()
            && schema[places[i] as int].0 == decimal(used[i] as nat) by {
            if i < used.len() - 1 {
                assert(places[i] == used_places(schema, before)->Some_0[i]);
                assert(before[i] == used[i]);
            }
        }
    }
}

/// The index is read by the columns that are used, in their order: each is the column of the index
/// that bears the symbol of the plan.
pub proof fn law_agg_index_is_read_by_its_used_columns<
    H,
    P: Fn(&ScalarExpr) -> Result<Filters, H>,
    C: Fn(Expr) -> Result<Expr, H>,
>(
    agg: AggIndexInfo,
    source_fields: Seq<(Seq<char>, TableDataType)>,
    check: P,
    cast: C,
    plan: AggIndexPlan,
)
    requires
        agg_planned(agg, source_fields, check, cast, Ok::<_, AggIndexError<H>>(plan)),
        agg.schema@.len() <= usize::MAX,
    ensures
        plan.index_id == agg.index_id,
        plan.is_agg == agg.is_agg,
        plan.num_agg_funcs == agg.num_agg_funcs,
        plan.actual_table_field_len == source_fields.len(),
        plan.schema@.len() == agg.schema@.len(),
        forall|i: int|
            0 <= i < plan.schema@.len() ==> (#[trigger] plan.schema@[i]).name@ == agg.schema@[i].name@
                && plan.schema@[i].data_type == agg.schema@[i].data_type,
        plan.projection@.len() == agg.used_columns@.len(),
        forall|i: int|
            0 <= i < plan.projection@.len() ==> (#[trigger] plan.projection@[i])
                < agg.schema@.len() && agg.schema@[plan.projection@[i] as int].name@ == decimal(
                agg.used_columns@[i] as nat,
            ),
{
    let schema = data_fields_view(agg.schema@);
    lemma_used_places(schema, agg.used_columns@);
    let places = used_places(schema, agg.used_columns@)->Some_0;
    lemma_planned_parts(agg, source_fields, check, cast, plan);
    assert forall|i: int| 0 <= i < plan.schema@.len() implies (#[trigger] plan.schema@[i]).name@
        == agg.schema@[i].name@ && plan.schema@[i].data_type == agg.schema@[i].data_type by {
        assert(data_fields_view(plan.schema@)[i] == schema[i]);
    }
    assert forall|i: int| 0 <= i < plan.projection@.len() implies (#[trigger] plan.projection@[i])
        < agg.schema@.len() && agg.schema@[plan.projection@[i] as int].name@ == decimal(
        agg.used_columns@[i] as nat,
    ) by {
        assert(places[i] == plan.projection@[i]);
        assert(schema[places[i] as int].0 == agg.schema@[places[i] as int].name@);
    }
}

/// An index that does not have a column that is used is not read at all.
pub proof fn law_agg_index_has_its_used_columns<
    H,
    P: Fn(&ScalarExpr) -> Result<Filters, H>,
    C: Fn(Expr) -> Result<Expr, H>,
>(
    agg: AggIndexInfo,
    source_fields: Seq<(Seq<char>, TableDataType)>,
    check: P,
    cast: C,
    r: Result<AggIndexPlan, AggIndexError<H>>,
    i: int,
)
    requires
        agg_planned(agg, source_fields, check, cast, r),
        agg.schema@.len() <= usize::MAX,
        0 <= i < agg.used_columns@.len(),
        forall|k: int|
            0 <= k < agg.schema@.len() ==> (#[trigger] agg.schema@[k]).name@ != decimal(
                agg.used_columns@[i] as nat,
            ),
    ensures
        r == Err::<AggIndexPlan, AggIndexError<H>>(AggIndexError::UnknownColumn),
{
    let schema = data_fields_view(agg.schema@);
    if used_places(schema, agg.used_columns@) is Some {
        lemma_used_places(schema, agg.used_columns@);
        let place = used_places(schema, agg.used_columns@)->Some_0[i] as int;
        assert(schema[place].0 == agg.schema@[place].name@);
    }
}

proof fn lemma_planned_parts<
    H,
    P: Fn(&ScalarExpr) -> Result<Filters, H>,
    C: Fn(Expr) -> Result<Expr, H>,
>(
    agg: AggIndexInfo,
    source_fields: Seq<(Seq<char>, TableDataType)>,
    check: P,
    cast: C,
    plan: AggIndexPlan,
)
    requires
        agg_planned(agg, source_fields, check, cast, Ok::<_, AggIndexError<H>>(plan)),
    ensures
        used_places(data_fields_view(agg.schema@), agg.used_columns@) == Some(plan.projection@),
        plan.index_id == agg.index_id,
        plan.is_agg == agg.is_agg,
        plan.num_agg_funcs == agg.num_agg_funcs,
        plan.actual_table_field_len == source_fields.len(),
        data_fields_view(plan.schema@) == data_fields_view(agg.schema@),
        plan.schema@.len() == agg.schema@.len(),
        agg_filter(
            check,
            cast,
            plan_exprs_view(agg.predicates@),
            fields_at(data_fields_view(agg.schema@), plan.projection@),
            Ok::<_, AggIndexError<H>>(plan.filter),
        ),
        agg_selection(
            check,
            agg.selection@,
            fields_at(data_fields_view(agg.schema@), plan.projection@),
            source_fields,
            Ok::<_, AggIndexError<H>>(plan.selection),
        ),
{
    let places = used_places(data_fields_view(agg.schema@), agg.used_columns@)->Some_0;
    let r = Ok::<_, AggIndexError<H>>(plan);
    assert(agg_plan_after_places(agg, source_fields, check, cast, places, r));
    let filter = choose|filter: Result<Option<Expr>, AggIndexError<H>>| #[trigger]
        agg_filter(
            check,
            cast,
            plan_exprs_view(agg.predicates@),
            fields_at(data_fields_view(agg.schema@), places),
            filter,
        ) && agg_plan_after_filter(agg, source_fields, check, places, filter, r);
    assert(filter == Ok::<_, AggIndexError<H>>(plan.filter));
    assert(data_fields_view(plan.schema@).len() == plan.schema@.len());
    assert(data_fields_view(agg.schema@).len() == agg.schema@.len());
}

proof fn lemma_over_index(
    agg: AggIndexInfo,
    plan: AggIndexPlan,
    expr: Expr,
    made: FiltersModel,
    host: ExprHost,
    named: spec_fn(Seq<char>) -> ScalarModel,
)
    requires
        agg.schema@.len() <= usize::MAX,
        plan.projection@.len() <= usize::MAX,
        data_fields_view(plan.schema@) == data_fields_view(agg.schema@),
        plan.schema@.len() == agg.schema@.len(),
        forall|i: int|
            0 <= i < plan.projection@.len() ==> (#[trigger] plan.projection@[i])
                < agg.schema@.len(),
        over_fields(made, fields_at(data_fields_view(agg.schema@), plan.projection@)) == Ok::<
            _,
            usize,
        >(expr@),
    ensures
        means_over_index(expr, made, plan, host, named),
{
    let fields = fields_at(data_fields_view(agg.schema@), plan.projection@);
    let columns = places_named(fields, made.columns);
    let before = |column: usize, data_type: TableDataType| named(made.columns[column as int]);
    let after = |place: usize, data_type: TableDataType|
        named(plan.schema@[plan.projection@[place as int] as int].name@);
    assert forall|c: usize, data_type: TableDataType|
        c < columns.len() && columns[c as int] is Some implies #[trigger] before(c, data_type)
        == after(columns[c as int]->Some_0, data_type) by {
        lemma_place_named(fields, made.columns[c as int]);
        let place = place_named(fields, made.columns[c as int])->Some_0;
        let k = plan.projection@[place] as int;
        assert(fields[place] == data_fields_view(agg.schema@)[k]);
        assert(data_fields_view(plan.schema@)[k].0 == plan.schema@[k].name@);
        assert(columns[c as int]->Some_0 == place);
    }
    law_moved_expression_gives_the_same(made.expr, columns, host, before, after);
}

/// The filter of an aggregating index is made of an expression that is true of exactly those rows
/// of which all its predicates are, read over the columns of the index by their names, and cast by
/// the host; there is none where there are no predicates.
pub proof fn law_agg_filter_is_all_predicates<
    H,
    P: Fn(&ScalarExpr) -> Result<Filters, H>,
    C: Fn(Expr) -> Result<Expr, H>,
>(
    agg: AggIndexInfo,
    source_fields: Seq<(Seq<char>, TableDataType)>,
    check: P,
    cast: C,
    plan: AggIndexPlan,
    host: ExprHost,
    named: spec_fn(Seq<char>) -> ScalarModel,
)
    requires
        agg_planned(agg, source_fields, check, cast, Ok::<_, AggIndexError<H>>(plan)),
        agg.schema@.len() <= usize::MAX,
        plan.projection@.len() <= usize::MAX,
    ensures
        match plan.filter {
            None => agg.predicates@.len() == 0,
            Some(filter) => agg.predicates@.len() > 0 && exists|made: Filters, expr: Expr|
                made_of_all(check, plan_exprs_view(agg.predicates@), Ok::<Filters, H>(made))
                    && #[trigger] means_over_index(expr, made@, plan, host, named)
                    && call_ensures(cast, (expr,), Ok::<Expr, H>(filter)),
        },
{
    lemma_planned_parts(agg, source_fields, check, cast, plan);
    law_agg_index_is_read_by_its_used_columns(agg, source_fields, check, cast, plan);
    let predicates = plan_exprs_view(agg.predicates@);
    lemma_plan_exprs_view(agg.predicates@);
    let fields = fields_at(data_fields_view(agg.schema@), plan.projection@);
    let r = Ok::<Option<Expr>, AggIndexError<H>>(plan.filter);
    if predicates.len() > 0 {
        let joined = conjoined(predicates, "and"@);
        let made = choose|made: Filters| #[trigger]
            prepares(check, joined, Ok::<Filters, H>(made)) && filter_cast(
                cast,
                over_fields(made@, fields),
                r,
            );
        lemma_prepared_of_all(check, predicates, "and"@, Ok::<Filters, H>(made));
        let model = over_fields(made@, fields)->Ok_0;
        let (expr, answer) = choose|expr: Expr, answer: Result<Expr, H>| #[trigger]
            call_ensures(cast, (expr,), answer) && expr@ == model && (match answer {
                Ok(made) => r == Ok::<_, AggIndexError<H>>(Some(made)),
                Err(h) => r == Err::<Option<Expr>, _>(AggIndexError::Host(h)),
            });
        lemma_over_index(agg, plan, expr, made@, host, named);
    }
}

/// Each expression that is selected from an aggregating index is read over the columns of the index
/// by their names, and goes where the fields of the scan have its column; it goes nowhere where
/// they do not have it.
pub proof fn law_agg_selection_is_what_is_asked<
    H,
    P: Fn(&ScalarExpr) -> Result<Filters, H>,
    C: Fn(Expr) -> Result<Expr, H>,
>(
    agg: AggIndexInfo,
    source_fields: Seq<(Seq<char>, TableDataType)>,
    check: P,
    cast: C,
    plan: AggIndexPlan,
    host: ExprHost,
    named: spec_fn(Seq<char>) -> ScalarModel,
    i: int,
)
    requires
        agg_planned(agg, source_fields, check, cast, Ok::<_, AggIndexError<H>>(plan)),
        agg.schema@.len() <= usize::MAX,
        plan.projection@.len() <= usize::MAX,
        0 <= i < agg.selection@.len(),
    ensures
        plan.selection@.len() == agg.selection@.len(),
        exists|made: Filters, e: &ScalarExpr| #[trigger]
            call_ensures(check, (e,), Ok::<Filters, H>(made)) && e@ == agg.selection@[i].scalar@
                && means_over_index(plan.selection@[i].0, made@, plan, host, named),
        match plan.selection@[i].1 {
            Some(place) => place < source_fields.len() && source_fields[place as int].0 == decimal(
                agg.selection@[i].index as nat,
            ),
            None => forall|k: int|
                0 <= k < source_fields.len() ==> (#[trigger] source_fields[k]).0 != decimal(
                    agg.selection@[i].index as nat,
                ),
        },
{
    lemma_planned_parts(agg, source_fields, check, cast, plan);
    law_agg_index_is_read_by_its_used_columns(agg, source_fields, check, cast, plan);
    let fields = fields_at(data_fields_view(agg.schema@), plan.projection@);
    let item = agg.selection@[i];
    let r = Ok::<(Expr, Option<usize>), AggIndexError<H>>(plan.selection@[i]);
    assert(agg_selected(check, item, fields, source_fields, r));
    let made = choose|made: Filters| #[trigger]
        prepares(check, item.scalar@, Ok::<Filters, H>(made)) && selected_is(
            over_fields(made@, fields),
            item.index,
            source_fields,
            r,
        );
    let e = choose|e: &ScalarExpr|
        e@ == item.scalar@ && #[trigger] call_ensures(check, (e,), Ok::<Filters, H>(made));
    lemma_over_index(agg, plan, plan.selection@[i].0, made@, host, named);
    lemma_place_named(source_fields, decimal(item.index as nat));
    assert(call_ensures(check, (e,), Ok::<Filters, H>(made)));
}

/// The column of the plan is this one of the table, whole, and the row has this value in it.
pub open spec fn column_has_value(
    entry: ColumnEntry,
    table_index: usize,
    name: Seq<char>,
    row: PlanRow,
    value: ScalarModel,
) -> bool {
    entry matches ColumnEntry::BaseTableColumn(column) && column.table_index == table_index
        && column.path_indices is None && column.column_name@ == name && has_value(
        row,
        column.column_index,
        value,
    )
}

pub proof fn lemma_symbol_of_field(columns: Seq<ColumnEntry>, table_index: usize, name: Seq<char>) -> (k:
    int)
    requires
        symbol_of_field(columns, table_index, name) is Some,
    ensures
        0 <= k < columns.len(),
        columns[k] matches ColumnEntry::BaseTableColumn(column) && column.table_index == table_index
            && column.path_indices is None && column.column_name@ == name && symbol_of_field(
            columns,
            table_index,
            name,
        ) == Some(column.column_index),
    decreases columns.len(),
{
    if is_field_column(columns[0], table_index, name) {
        0
    } else {
        let k = lemma_symbol_of_field(columns.skip(1), table_index, name);
        k + 1
    }
}

proof fn lemma_fixed_prefix(query: OrderedQuery, key_columns: Seq<TableIndexColumn>, i: int)
    requires
        fixed_prefix(query, key_columns) is Some,
        0 <= i < fixed_prefix(query, key_columns)->Some_0.len(),
    ensures
        i < key_columns.len(),
        key_symbol(query.schema, query.columns, query.table_index, key_columns[i]) matches Some(
            symbol,
        ) && query.constants.contains_key(symbol) && query.constants[symbol] == fixed_prefix(
            query,
            key_columns,
        )->Some_0[i],
    decreases key_columns.len(),
{
    if i > 0 {
        lemma_fixed_prefix(query, key_columns.skip(1), i - 1);
        assert(key_columns.skip(1)[i - 1] == key_columns[i]);
    }
}

/// Every row that a scan asks for has the equality prefix of the index that is chosen for it: each
/// leading key column has, in a row that all the predicates are true of, the value that the scan of
/// the index looks for.
pub proof fn law_asked_rows_have_the_equality_prefix(
    info: BtreeIndexInfo,
    scan: Scan,
    table_meta: TableMeta,
    columns: Seq<ColumnEntry>,
    filters: Option<FiltersModel>,
    row: PlanRow,
    i: int,
)
    requires
        chooses_index(Some(info), scan, table_meta, columns, filters),
        scan.push_down_predicates is Some,
        all_hold(plan_exprs_view(scan.push_down_predicates->Some_0@), row),
        is_symmetric(row),
        0 <= i < info.equality_prefix@.len(),
    ensures
        i < info.key_columns@.len(),
        exists|k: int|
            0 <= k < columns.len() && column_has_value(
                #[trigger] columns[k],
                scan.table_index,
                info.key_columns@[i].field.name@,
                row,
                info.equality_prefix@[i]@,
            ),
{
    let query = ordered_query(scan, table_meta, columns, filters);
    let indexes = table_meta.indexes@;
    let best = choose|k: int| #[trigger]
        is_best_index(query, indexes, k) && is_index_scan(
            info,
            query,
            indexes,
            k,
            scan.limit,
            filters,
        );
    let key_columns = key_columns_of(indexes[best]);
    lemma_scalars_view(info.equality_prefix@);
    lemma_fixed_prefix(query, key_columns, i);
    assert(has_values(row, Map::<usize, ScalarModel>::empty()));
    law_all_fixed_columns_have_their_values(
        plan_exprs_view(scan.push_down_predicates->Some_0@),
        Map::empty(),
        row,
    );
    let field = field_with_id(query.schema, key_columns[i].column_id)->Some_0;
    assert(info.key_columns@[i].field == field);
    let symbol = key_symbol(query.schema, query.columns, query.table_index, key_columns[i])->Some_0;
    assert(has_value(row, symbol, query.constants[symbol]));
    let k = lemma_symbol_of_field(columns, scan.table_index, field.name@);
    assert(column_has_value(
        columns[k],
        scan.table_index,
        field.name@,
        row,
        info.equality_prefix@[i]@,
    ));
}

} // verus!
