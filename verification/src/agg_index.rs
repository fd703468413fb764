//! Reading an aggregating index in place of its table.

use vstd::prelude::*;

use crate::expr::{project_column_ref, projected, Expr, ExprModel};
use crate::filter::{Filters, FiltersModel};
use crate::push_down::{prepares, AggIndexPlan};
use crate::scalar::TableDataType;
use crate::scalar_expr::{conjoined, conjunction, lemma_plan_exprs_view, plan_exprs_view,
    PlanExprModel, ScalarExpr};
use crate::scan_plan::{clone_data_fields, data_fields_view, find_data_field, place_named,
    DataField};
use crate::text::{decimal, decimal_text};

verus! {

/// What is selected from an aggregating index: a column of the plan, and what it is computed from.
#[derive(Debug)]
pub struct AggSelection {
    pub index: usize,
    pub scalar: ScalarExpr,
}

/// An aggregating index that answers a query.
#[derive(Debug)]
pub struct AggIndexInfo {
    pub index_id: u64,
    /// The columns of the index, named by the symbols of the plan.
    pub schema: Vec<DataField>,
    /// The symbols of the columns of the index that are used.
    pub used_columns: Vec<usize>,
    pub predicates: Vec<ScalarExpr>,
    pub selection: Vec<AggSelection>,
    pub is_agg: bool,
    pub num_agg_funcs: usize,
}

/// An error of planning to read an aggregating index.
#[derive(Debug)]
pub enum AggIndexError<H> {
    /// A column is not in the index.
    UnknownColumn,
    /// The host refused an expression.
    Host(H),
}

/// The fields of a plan.
pub type Fields = Seq<(Seq<char>, TableDataType)>;

/// The places of the columns that are used, where the index has them all.
pub open spec fn used_places(schema: Fields, used: Seq<usize>) -> Option<Seq<usize>>
    decreases used.len(),
{
    if used.len() == 0 {
        Some(Seq::empty())
    } else {
        match (
            used_places(schema, used.drop_last()),
            place_named(schema, decimal(used.last() as nat)),
        ) {
            (Some(before), Some(place)) => Some(before.push(place as usize)),
            _ => None,
        }
    }
}

proof fn lemma_used_places_fail(schema: Fields, used: Seq<usize>, n: int)
    requires
        0 <= n <= used.len(),
        used_places(schema, used.take(n)) is None,
    ensures
        used_places(schema, used) is None,
    decreases used.len(),
{
    if n == used.len() {
        assert(used.take(n) =~= used);
    } else {
        assert(used.drop_last().take(n) =~= used.take(n));
        lemma_used_places_fail(schema, used.drop_last(), n);
    }
}

/// The fields at some places.
pub open spec fn fields_at(schema: Fields, places: Seq<usize>) -> Fields {
    Seq::new(places.len(), |i: int| schema[places[i] as int])
}

/// Where names stand among fields.
pub open spec fn places_named(fields: Fields, names: Seq<Seq<char>>) -> Seq<Option<usize>> {
    Seq::new(
        names.len(),
        |i: int|
            match place_named(fields, names[i]) {
                Some(place) => Some(place as usize),
                None => None,
            },
    )
}

/// An expression over the fields in place of the columns of the plan.
pub open spec fn over_fields(expr: FiltersModel, fields: Fields) -> Result<ExprModel, usize> {
    projected(expr.expr, places_named(fields, expr.columns))
}

/// The host casts an expression to a boolean that is never null.
pub open spec fn casts<H, C: Fn(Expr) -> Result<Expr, H>>(
    cast: C,
    model: ExprModel,
    r: Result<Option<Expr>, AggIndexError<H>>,
) -> bool {
    exists|e: Expr, c: Result<Expr, H>| #[trigger]
        call_ensures(cast, (e,), c) && e@ == model && (match c {
            Ok(made) => r == Ok::<_, AggIndexError<H>>(Some(made)),
            Err(h) => r == Err::<Option<Expr>, _>(AggIndexError::Host(h)),
        })
}

/// What becomes of a filter once it is over the fields of the index.
pub open spec fn filter_cast<H, C: Fn(Expr) -> Result<Expr, H>>(
    cast: C,
    placed: Result<ExprModel, usize>,
    r: Result<Option<Expr>, AggIndexError<H>>,
) -> bool {
    match placed {
        Err(_) => r == Err::<Option<Expr>, AggIndexError<H>>(AggIndexError::UnknownColumn),
        Ok(model) => casts(cast, model, r),
    }
}

/// The filter of an aggregating index: its predicates, joined, over its fields.
pub open spec fn agg_filter<
    H,
    P: Fn(&ScalarExpr) -> Result<Filters, H>,
    C: Fn(Expr) -> Result<Expr, H>,
>(
    check: P,
    cast: C,
    predicates: Seq<PlanExprModel>,
    fields: Fields,
    r: Result<Option<Expr>, AggIndexError<H>>,
) -> bool {
    if predicates.len() == 0 {
        r == Ok::<Option<Expr>, AggIndexError<H>>(None)
    } else {
        let joined = conjoined(predicates, "and"@);
        ||| r matches Err(AggIndexError::Host(h)) && prepares(check, joined, Err::<Filters, H>(h))
        ||| exists|filter: Filters| #[trigger]
            prepares(check, joined, Ok::<Filters, H>(filter)) && filter_cast(
                cast,
                over_fields(filter@, fields),
                r,
            )
    }
}

/// What is selected, over the fields of the index, with its place among the fields of the scan.
pub open spec fn selected_is<H>(
    placed: Result<ExprModel, usize>,
    index: usize,
    source_fields: Fields,
    r: Result<(Expr, Option<usize>), AggIndexError<H>>,
) -> bool {
    match placed {
        Err(_) => r == Err::<(Expr, Option<usize>), AggIndexError<H>>(
            AggIndexError::UnknownColumn,
        ),
        Ok(model) => r matches Ok((expr, offset)) && expr@ == model && (match offset {
            Some(place) => place_named(source_fields, decimal(index as nat)) == Some(place as int),
            None => place_named(source_fields, decimal(index as nat)) is None,
        }),
    }
}

/// What is selected from an aggregating index.
pub open spec fn agg_selected<H, P: Fn(&ScalarExpr) -> Result<Filters, H>>(
    check: P,
    selection: AggSelection,
    fields: Fields,
    source_fields: Fields,
    r: Result<(Expr, Option<usize>), AggIndexError<H>>,
) -> bool {
    ||| r matches Err(AggIndexError::Host(h)) && prepares(
        check,
        selection.scalar@,
        Err::<Filters, H>(h),
    )
    ||| exists|made: Filters| #[trigger]
        prepares(check, selection.scalar@, Ok::<Filters, H>(made)) && selected_is(
            over_fields(made@, fields),
            selection.index,
            source_fields,
            r,
        )
}

/// This can be selected from an aggregating index.
pub open spec fn is_selectable<H, P: Fn(&ScalarExpr) -> Result<Filters, H>>(
    check: P,
    selection: AggSelection,
    fields: Fields,
    source_fields: Fields,
) -> bool {
    exists|selected: (Expr, Option<usize>)| #[trigger]
        agg_selected(
            check,
            selection,
            fields,
            source_fields,
            Ok::<_, AggIndexError<H>>(selected),
        )
}

/// What stands before this in the selection can be selected, and this fails so.
pub open spec fn unselected_at<H, P: Fn(&ScalarExpr) -> Result<Filters, H>>(
    check: P,
    selection: Seq<AggSelection>,
    fields: Fields,
    source_fields: Fields,
    i: int,
    e: AggIndexError<H>,
) -> bool {
    &&& 0 <= i < selection.len()
    &&& forall|k: int|
        0 <= k < i ==> is_selectable(check, #[trigger] selection[k], fields, source_fields)
    &&& agg_selected(
        check,
        selection[i],
        fields,
        source_fields,
        Err::<(Expr, Option<usize>), _>(e),
    )
}

/// All that is selected from an aggregating index; the error is that of the first that fails.
pub open spec fn agg_selection<H, P: Fn(&ScalarExpr) -> Result<Filters, H>>(
    check: P,
    selection: Seq<AggSelection>,
    fields: Fields,
    source_fields: Fields,
    r: Result<Vec<(Expr, Option<usize>)>, AggIndexError<H>>,
) -> bool {
    match r {
        Ok(selected) => selected@.len() == selection.len() && forall|i: int|
            0 <= i < selection.len() ==> agg_selected(
                check,
                #[trigger] selection[i],
                fields,
                source_fields,
                Ok::<_, AggIndexError<H>>(selected@[i]),
            ),
        Err(e) => exists|i: int| #[trigger]
            unselected_at(check, selection, fields, source_fields, i, e),
    }
}

/// The plan of reading an aggregating index once its filter is known.
pub open spec fn agg_plan_after_filter<H, P: Fn(&ScalarExpr) -> Result<Filters, H>>(
    agg: AggIndexInfo,
    source_fields: Fields,
    check: P,
    places: Seq<usize>,
    filter: Result<Option<Expr>, AggIndexError<H>>,
    r: Result<AggIndexPlan, AggIndexError<H>>,
) -> bool {
    match filter {
        Err(e) => r == Err::<AggIndexPlan, _>(e),
        Ok(filter) => {
            let fields = fields_at(data_fields_view(agg.schema@), places);
            match r {
                Err(e) => agg_selection(
                    check,
                    agg.selection@,
                    fields,
                    source_fields,
                    Err::<Vec<(Expr, Option<usize>)>, _>(e),
                ),
                Ok(plan) => {
                    &&& agg_selection(
                        check,
                        agg.selection@,
                        fields,
                        source_fields,
                        Ok::<_, AggIndexError<H>>(plan.selection),
                    )
                    &&& plan.index_id == agg.index_id
                    &&& plan.filter == filter
                    &&& data_fields_view(plan.schema@) == data_fields_view(agg.schema@)
                    &&& plan.actual_table_field_len == source_fields.len()
                    &&& plan.is_agg == agg.is_agg
                    &&& plan.num_agg_funcs == agg.num_agg_funcs
                    &&& plan.projection@ == places
                },
            }
        },
    }
}

/// The plan of reading an aggregating index once its columns are known.
pub open spec fn agg_plan_after_places<
    H,
    P: Fn(&ScalarExpr) -> Result<Filters, H>,
    C: Fn(Expr) -> Result<Expr, H>,
>(
    agg: AggIndexInfo,
    source_fields: Fields,
    check: P,
    cast: C,
    places: Seq<usize>,
    r: Result<AggIndexPlan, AggIndexError<H>>,
) -> bool {
    exists|filter: Result<Option<Expr>, AggIndexError<H>>| #[trigger]
        agg_filter(
            check,
            cast,
            plan_exprs_view(agg.predicates@),
            fields_at(data_fields_view(agg.schema@), places),
            filter,
        ) && agg_plan_after_filter(agg, source_fields, check, places, filter, r)
}

/// The plan of reading an aggregating index in place of its table.
pub open spec fn agg_planned<
    H,
    P: Fn(&ScalarExpr) -> Result<Filters, H>,
    C: Fn(Expr) -> Result<Expr, H>,
>(
    agg: AggIndexInfo,
    source_fields: Fields,
    check: P,
    cast: C,
    r: Result<AggIndexPlan, AggIndexError<H>>,
) -> bool {
    match used_places(data_fields_view(agg.schema@), agg.used_columns@) {
        None => r == Err::<AggIndexPlan, AggIndexError<H>>(AggIndexError::UnknownColumn),
        Some(places) => agg_plan_after_places(agg, source_fields, check, cast, places, r),
    }
}

fn place_used(schema: &Vec<DataField>, used: &Vec<usize>) -> (r: Option<(Vec<usize>, Vec<DataField>)>)
    ensures
        match r {
            Some((places, fields)) => used_places(data_fields_view(schema@), used@) == Some(places@)
                && data_fields_view(fields@) == fields_at(data_fields_view(schema@), places@),
            None => used_places(data_fields_view(schema@), used@) is None,
        },
{
    let ghost models = data_fields_view(schema@);
    let mut places: Vec<usize> = Vec::new();
    let mut fields: Vec<DataField> = Vec::new();
    let mut i: usize = 0;
    assert(used@.take(0) =~= Seq::<usize>::empty());
    assert(data_fields_view(fields@) =~= fields_at(models, places@));
    while i < used.len()
        invariant
            i <= used@.len(),
            models == data_fields_view(schema@),
            used_places(models, used@.take(i as int)) == Some(places@),
            data_fields_view(fields@) == fields_at(models, places@),
        decreases used@.len() - i,
    {
        let text = decimal_text(used[i] as u64);
        let ghost before = fields@;
        let ghost placed = places@;
        proof {
            let t = used@.take(i + 1);
            assert(t.drop_last() =~= used@.take(i as int));
            assert(t.last() == used@[i as int]);
        }
        match find_data_field(schema, text.as_str()) {
            None => {
                proof {
                    lemma_used_places_fail(models, used@, i + 1);
                }
                return None;
            },
            Some(place) => {
                places.push(place);
                let field = DataField {
                    name: schema[place].name.clone(),
                    data_type: schema[place].data_type,
                };
                fields.push(field);
                proof {
                    assert(data_fields_view(fields@) =~= data_fields_view(before).push(
                        models[place as int],
                    ));
                    assert(fields_at(models, places@) =~= fields_at(models, placed).push(
                        models[place as int],
                    ));
                }
            },
        }
        i = i + 1;
    }
    assert(used@.take(used@.len() as int) =~= used@);
    Some((places, fields))
}

fn place_expr(expr: &Filters, fields: &Vec<DataField>) -> (r: Result<Expr, usize>)
    ensures
        match r {
            Ok(e) => over_fields(expr@, data_fields_view(fields@)) == Ok::<_, usize>(e@),
            Err(column) => over_fields(expr@, data_fields_view(fields@)) == Err::<ExprModel, _>(
                column,
            ),
        },
{
    let ghost models = data_fields_view(fields@);
    let mut places: Vec<Option<usize>> = Vec::new();
    let mut i: usize = 0;
    while i < expr.columns.len()
        invariant
            i <= expr.columns@.len(),
            models == data_fields_view(fields@),
            places@.len() == i,
            forall|k: int|
                0 <= k < i ==> #[trigger] places@[k] == places_named(models, expr@.columns)[k],
        decreases expr.columns@.len() - i,
    {
        places.push(find_data_field(fields, expr.columns[i].as_str()));
        assert(expr@.columns[i as int] == expr.columns@[i as int]@);
        i = i + 1;
    }
    assert(places@ =~= places_named(models, expr@.columns));
    project_column_ref(&expr.expr, &places)
}

fn build_filter<
    H,
    P: Fn(&ScalarExpr) -> Result<Filters, H>,
    C: Fn(Expr) -> Result<Expr, H>,
>(predicates: &Vec<ScalarExpr>, fields: &Vec<DataField>, check: &P, cast: &C) -> (r: Result<
    Option<Expr>,
    AggIndexError<H>,
>)
    requires
        forall|e: &ScalarExpr| #[trigger] call_requires(*check, (e,)),
        forall|e: Expr| #[trigger] call_requires(*cast, (e,)),
    ensures
        agg_filter(
            *check,
            *cast,
            plan_exprs_view(predicates@),
            data_fields_view(fields@),
            r,
        ),
{
    proof {
        lemma_plan_exprs_view(predicates@);
    }
    let joined = match conjunction(predicates, "and") {
        None => {
            return Ok(None);
        },
        Some(joined) => joined,
    };
    let ghost model = conjoined(plan_exprs_view(predicates@), "and"@);
    let checked = check(&joined);
    assert(prepares(*check, model, checked));
    let filter = match checked {
        Ok(filter) => filter,
        Err(h) => {
            return Err(AggIndexError::Host(h));
        },
    };
    let placed = place_expr(&filter, fields);
    let made: Result<Option<Expr>, AggIndexError<H>> = match placed {
        Err(_) => Err(AggIndexError::UnknownColumn),
        Ok(expr) => {
            let ghost given = expr;
            let answer = cast(expr);
            assert(call_ensures(*cast, (given,), answer));
            match answer {
                Ok(made) => Ok(Some(made)),
                Err(h) => Err(AggIndexError::Host(h)),
            }
        },
    };
    assert(prepares(*check, model, Ok::<Filters, H>(filter)));
    assert(filter_cast(*cast, over_fields(filter@, data_fields_view(fields@)), made));
    made
}

fn build_selection<H, P: Fn(&ScalarExpr) -> Result<Filters, H>>(
    selection: &Vec<AggSelection>,
    fields: &Vec<DataField>,
    source_fields: &Vec<DataField>,
    check: &P,
) -> (r: Result<Vec<(Expr, Option<usize>)>, AggIndexError<H>>)
    requires
        forall|e: &ScalarExpr| #[trigger] call_requires(*check, (e,)),
    ensures
        agg_selection(
            *check,
            selection@,
            data_fields_view(fields@),
            data_fields_view(source_fields@),
            r,
        ),
{
    let ghost models = data_fields_view(fields@);
    let ghost sources = data_fields_view(source_fields@);
    let mut selected: Vec<(Expr, Option<usize>)> = Vec::new();
    let mut i: usize = 0;
    while i < selection.len()
        invariant
            i <= selection@.len(),
            forall|e: &ScalarExpr| #[trigger] call_requires(*check, (e,)),
            models == data_fields_view(fields@),
            sources == data_fields_view(source_fields@),
            selected@.len() == i,
            forall|k: int|
                0 <= k < i ==> agg_selected(
                    *check,
                    #[trigger] selection@[k],
                    models,
                    sources,
                    Ok::<_, AggIndexError<H>>(selected@[k]),
                ),
            forall|k: int|
                0 <= k < i ==> is_selectable(*check, #[trigger] selection@[k], models, sources),
        decreases selection@.len() - i,
    {
        let item = &selection[i];
        let text = decimal_text(item.index as u64);
        let offset = find_data_field(source_fields, text.as_str());
        let checked = check(&item.scalar);
        assert(prepares(*check, item.scalar@, checked));
        match checked {
            Err(h) => {
                let e = AggIndexError::Host(h);
                assert(agg_selected(
                    *check,
                    selection@[i as int],
                    models,
                    sources,
                    Err::<(Expr, Option<usize>), _>(e),
                ));
                assert(unselected_at(*check, selection@, models, sources, i as int, e));
                return Err(e);
            },
            Ok(made) => {
                assert(prepares(*check, item.scalar@, Ok::<Filters, H>(made)));
                match place_expr(&made, fields) {
                    Err(_) => {
                        let e = AggIndexError::UnknownColumn;
                        assert(selected_is(
                            over_fields(made@, models),
                            item.index,
                            sources,
                            Err::<(Expr, Option<usize>), AggIndexError<H>>(e),
                        ));
                        assert(agg_selected(
                            *check,
                            selection@[i as int],
                            models,
                            sources,
                            Err::<(Expr, Option<usize>), _>(e),
                        ));
                        assert(unselected_at(*check, selection@, models, sources, i as int, e));
                        return Err(e);
                    },
                    Ok(expr) => {
                        let pair = (expr, offset);
                        assert(selected_is(
                            over_fields(made@, models),
                            item.index,
                            sources,
                            Ok::<_, AggIndexError<H>>(pair),
                        ));
                        assert(agg_selected(
                            *check,
                            selection@[i as int],
                            models,
                            sources,
                            Ok::<_, AggIndexError<H>>(pair),
                        ));
                        assert(is_selectable(*check, selection@[i as int], models, sources));
                        selected.push(pair);
                    },
                }
            },
        }
        i = i + 1;
    }
    Ok(selected)
}

/// Plans to read an aggregating index in place of its table.
pub fn build_agg_index<
    H,
    P: Fn(&ScalarExpr) -> Result<Filters, H>,
    C: Fn(Expr) -> Result<Expr, H>,
>(agg: &AggIndexInfo, source_fields: &Vec<DataField>, check: &P, cast: &C) -> (r: Result<
    AggIndexPlan,
    AggIndexError<H>,
>)
    requires
        forall|e: &ScalarExpr| #[trigger] call_requires(*check, (e,)),
        forall|e: Expr| #[trigger] call_requires(*cast, (e,)),
    ensures
        agg_planned(*agg, data_fields_view(source_fields@), *check, *cast, r),
{
    let (projection, fields) = match place_used(&agg.schema, &agg.used_columns) {
        Some(placed) => placed,
        None => {
            return Err(AggIndexError::UnknownColumn);
        },
    };
    let filter = match build_filter(&agg.predicates, &fields, check, cast) {
        Ok(filter) => filter,
        Err(e) => {
            assert(agg_plan_after_filter(
                *agg,
                data_fields_view(source_fields@),
                *check,
                projection@,
                Err::<Option<Expr>, _>(e),
                Err::<AggIndexPlan, _>(e),
            ));
            assert(agg_plan_after_places(
                *agg,
                data_fields_view(source_fields@),
                *check,
                *cast,
                projection@,
                Err::<AggIndexPlan, _>(e),
            ));
            return Err(e);
        },
    };
    let selection = match build_selection(&agg.selection, &fields, source_fields, check) {
        Ok(selection) => selection,
        Err(e) => {
            assert(agg_plan_after_filter(
                *agg,
                data_fields_view(source_fields@),
                *check,
                projection@,
                Ok::<_, AggIndexError<H>>(filter),
                Err::<AggIndexPlan, _>(e),
            ));
            assert(agg_plan_after_places(
                *agg,
                data_fields_view(source_fields@),
                *check,
                *cast,
                projection@,
                Err::<AggIndexPlan, _>(e),
            ));
            return Err(e);
        },
    };
    let ghost kept = filter;
    let ghost places = projection@;
    let r: Result<AggIndexPlan, AggIndexError<H>> = Ok(
        AggIndexPlan {
            index_id: agg.index_id,
            filter,
            selection,
            schema: clone_data_fields(&agg.schema),
            actual_table_field_len: source_fields.len(),
            is_agg: agg.is_agg,
            num_agg_funcs: agg.num_agg_funcs,
            projection,
        },
    );
    assert(agg_plan_after_filter(
        *agg,
        data_fields_view(source_fields@),
        *check,
        places,
        Ok::<_, AggIndexError<H>>(kept),
        r,
    ));
    assert(agg_plan_after_places(
        *agg,
        data_fields_view(source_fields@),
        *check,
        *cast,
        places,
        r,
    ));
    r
}

} // verus!
