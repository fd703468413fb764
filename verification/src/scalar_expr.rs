//! Predicates of a plan, and the columns that they fix to a constant.

use std::collections::HashMap;

use vstd::prelude::*;

use crate::scalar::{clone_scalar, clone_scalars, scalars_view, Scalar, ScalarModel, TableDataType};
use crate::text::text_eq;

verus! {

/// An expression of a plan. A column is named by its symbol, the number that the plan gave it.
#[derive(Debug)]
pub enum ScalarExpr {
    BoundColumnRef(usize),
    ConstantExpr(Scalar),
    TypedConstantExpr(Scalar, TableDataType),
    FunctionCall { func_name: String, params: Vec<Scalar>, arguments: Vec<ScalarExpr> },
    /// Any other expression, by the number that the host gave its kind and the expressions in it.
    Other { kind: u32, parts: Vec<ScalarExpr> },
}

/// The model of an expression of a plan.
pub enum PlanExprModel {
    Column(usize),
    /// A value, with its type where it has one.
    Constant(ScalarModel, Option<TableDataType>),
    Call { func_name: Seq<char>, params: Seq<ScalarModel>, arguments: Seq<PlanExprModel> },
    Other { kind: u32, parts: Seq<PlanExprModel> },
}

/// The model of an expression of a plan.
pub open spec fn plan_expr_view(expr: ScalarExpr) -> PlanExprModel
    decreases expr,
{
    match expr {
        ScalarExpr::BoundColumnRef(column) => PlanExprModel::Column(column),
        ScalarExpr::ConstantExpr(value) => PlanExprModel::Constant(value@, None),
        ScalarExpr::TypedConstantExpr(value, data_type) => PlanExprModel::Constant(
            value@,
            Some(data_type),
        ),
        ScalarExpr::FunctionCall { func_name, params, arguments } => PlanExprModel::Call {
            func_name: func_name@,
            params: scalars_view(params@),
            arguments: plan_exprs_view(arguments@),
        },
        ScalarExpr::Other { kind, parts } => PlanExprModel::Other {
            kind,
            parts: plan_exprs_view(parts@),
        },
    }
}

/// The models of a sequence of expressions.
pub open spec fn plan_exprs_view(exprs: Seq<ScalarExpr>) -> Seq<PlanExprModel>
    decreases exprs,
{
    if exprs.len() == 0 {
        Seq::empty()
    } else {
        plan_exprs_view(exprs.drop_last()).push(plan_expr_view(exprs.last()))
    }
}

impl View for ScalarExpr {
    type V = PlanExprModel;

    open spec fn view(&self) -> PlanExprModel {
        plan_expr_view(*self)
    }
}

/// The models of a sequence of expressions are the models of each.
pub proof fn lemma_plan_exprs_view(exprs: Seq<ScalarExpr>)
    ensures
        plan_exprs_view(exprs).len() == exprs.len(),
        forall|i: int|
            0 <= i < exprs.len() ==> #[trigger] plan_exprs_view(exprs)[i] == plan_expr_view(
                exprs[i],
            ),
    decreases exprs.len(),
{
    if exprs.len() > 0 {
        lemma_plan_exprs_view(exprs.drop_last());
        assert forall|i: int| 0 <= i < exprs.len() implies #[trigger] plan_exprs_view(exprs)[i]
            == plan_expr_view(exprs[i]) by {
            if i < exprs.len() - 1 {
                assert(exprs.drop_last()[i] == exprs[i]);
            }
        }
    }
}

/// The call of a function of this name with so many arguments.
pub open spec fn is_call(expr: PlanExprModel, name: Seq<char>, count: nat) -> bool {
    expr matches PlanExprModel::Call { func_name, arguments, .. } && func_name == name
        && arguments.len() == count
}

/// The column that a test for null is on: the negation of `is_not_null`.
pub open spec fn null_column(expr: PlanExprModel) -> Option<usize> {
    match expr {
        PlanExprModel::Call { func_name, arguments, .. } => if is_call(expr, "not"@, 1) {
            match arguments[0] {
                PlanExprModel::Call { func_name: inner, arguments: inner_arguments, .. } => if is_call(
                    arguments[0],
                    "is_not_null"@,
                    1,
                ) {
                    match inner_arguments[0] {
                        PlanExprModel::Column(column) => Some(column),
                        _ => None,
                    }
                } else {
                    None
                },
                _ => None,
            }
        } else {
            None
        },
        _ => None,
    }
}

/// The column that a predicate fixes, and the value that it fixes it to.
pub open spec fn fixed_constant(expr: PlanExprModel) -> Option<(usize, ScalarModel)> {
    match null_column(expr) {
        Some(column) => Some((column, ScalarModel::Null)),
        None => match expr {
            PlanExprModel::Call { func_name, arguments, .. } => if is_call(expr, "eq"@, 2) {
                match (arguments[0], arguments[1]) {
                    (PlanExprModel::Column(column), PlanExprModel::Constant(value, _)) => Some(
                        (column, value),
                    ),
                    (PlanExprModel::Constant(value, _), PlanExprModel::Column(column)) => Some(
                        (column, value),
                    ),
                    _ => None,
                }
            } else {
                None
            },
            _ => None,
        },
    }
}

/// Whether an expression is a conjunction.
pub open spec fn is_conjunction(expr: PlanExprModel) -> bool {
    expr matches PlanExprModel::Call { func_name, .. } && (func_name == "and"@ || func_name
        == "and_filters"@)
}

/// The constants that are known once a predicate is added: those that its conjuncts fix, the later
/// ones over the earlier.
pub open spec fn with_constants(expr: PlanExprModel, known: Map<usize, ScalarModel>) -> Map<
    usize,
    ScalarModel,
>
    decreases expr, 0nat,
{
    match expr {
        PlanExprModel::Call { func_name, arguments, .. } => if is_conjunction(expr) {
            with_all_constants(arguments, known)
        } else {
            with_fixed(expr, known)
        },
        _ => with_fixed(expr, known),
    }
}

/// The constants that are known once the constant that a predicate fixes is added.
pub open spec fn with_fixed(expr: PlanExprModel, known: Map<usize, ScalarModel>) -> Map<
    usize,
    ScalarModel,
> {
    match fixed_constant(expr) {
        Some((column, value)) => known.insert(column, value),
        None => known,
    }
}

/// The constants that are known once each of several predicates is added.
pub open spec fn with_all_constants(exprs: Seq<PlanExprModel>, known: Map<usize, ScalarModel>) -> Map<
    usize,
    ScalarModel,
>
    decreases exprs, 1nat,
{
    if exprs.len() == 0 {
        known
    } else {
        with_constants(exprs.last(), with_all_constants(exprs.drop_last(), known))
    }
}

/// The models of the constants by column.
pub open spec fn constants_view(constants: Map<usize, Scalar>) -> Map<usize, ScalarModel> {
    constants.map_values(|value: Scalar| value@)
}

fn column_of(expr: &ScalarExpr) -> (r: Option<usize>)
    ensures
        match r {
            Some(column) => expr@ == PlanExprModel::Column(column),
            None => expr@ !is Column,
        },
{
    match expr {
        ScalarExpr::BoundColumnRef(column) => Some(*column),
        _ => None,
    }
}

fn constant_of(expr: &ScalarExpr) -> (r: Option<&Scalar>)
    ensures
        match r {
            Some(value) => expr@ matches PlanExprModel::Constant(model, _) && model == value@,
            None => expr@ !is Constant,
        },
{
    match expr {
        ScalarExpr::ConstantExpr(value) => Some(value),
        ScalarExpr::TypedConstantExpr(value, _) => Some(value),
        _ => None,
    }
}

/// The column that a test for null is on.
pub fn extract_is_null_column(expr: &ScalarExpr) -> (r: Option<usize>)
    ensures
        r == null_column(expr@),
{
    let ScalarExpr::FunctionCall { func_name, arguments, .. } = expr else {
        return None;
    };
    proof {
        lemma_plan_exprs_view(arguments@);
    }
    if !text_eq(func_name.as_str(), "not") || arguments.len() != 1 {
        return None;
    }
    let ScalarExpr::FunctionCall { func_name: inner_name, arguments: inner, .. } = &arguments[0] else {
        return None;
    };
    proof {
        lemma_plan_exprs_view(inner@);
    }
    if !text_eq(inner_name.as_str(), "is_not_null") || inner.len() != 1 {
        return None;
    }
    column_of(&inner[0])
}

/// The column that a predicate fixes, and the value that it fixes it to.
pub fn extract_ordered_prefix_column_constant(expr: &ScalarExpr) -> (r: Option<(usize, Scalar)>)
    ensures
        match r {
            Some((column, value)) => fixed_constant(expr@) == Some((column, value@)),
            None => fixed_constant(expr@) is None,
        },
{
    if let Some(column) = extract_is_null_column(expr) {
        return Some((column, Scalar::Null));
    }
    let ScalarExpr::FunctionCall { func_name, arguments, .. } = expr else {
        return None;
    };
    proof {
        lemma_plan_exprs_view(arguments@);
    }
    if !text_eq(func_name.as_str(), "eq") || arguments.len() != 2 {
        return None;
    }
    match (column_of(&arguments[0]), constant_of(&arguments[1])) {
        (Some(column), Some(value)) => {
            return Some((column, clone_scalar(value)));
        },
        _ => {},
    }
    match (constant_of(&arguments[0]), column_of(&arguments[1])) {
        (Some(value), Some(column)) => Some((column, clone_scalar(value))),
        _ => None,
    }
}

fn collect_from_all(exprs: &Vec<ScalarExpr>, constants_by_column: &mut HashMap<usize, Scalar>)
    ensures
        constants_view(final(constants_by_column)@) == with_all_constants(
            plan_exprs_view(exprs@),
            constants_view(old(constants_by_column)@),
        ),
    decreases exprs,
{
    let ghost models = plan_exprs_view(exprs@);
    let ghost known = constants_view(constants_by_column@);
    proof {
        lemma_plan_exprs_view(exprs@);
        assert(models.take(0) =~= Seq::<PlanExprModel>::empty());
    }
    let mut i: usize = 0;
    while i < exprs.len()
        invariant
            i <= exprs@.len(),
            models == plan_exprs_view(exprs@),
            models.len() == exprs@.len(),
            forall|k: int| 0 <= k < exprs@.len() ==> #[trigger] models[k] == plan_expr_view(exprs@[k]),
            constants_view(constants_by_column@) == with_all_constants(
                models.take(i as int),
                known,
            ),
        decreases exprs@.len() - i,
    {
        assert(decreases_to!(exprs => exprs[i as int]));
        collect_ordered_prefix_column_constants(&exprs[i], constants_by_column);
        proof {
            let t = models.take(i + 1);
            assert(t.drop_last() =~= models.take(i as int));
            assert(t.last() == exprs@[i as int]@);
        }
        i = i + 1;
    }
    assert(models.take(models.len() as int) =~= models);
}

/// Adds the constants that a predicate fixes columns to.
pub fn collect_ordered_prefix_column_constants(
    expr: &ScalarExpr,
    constants_by_column: &mut HashMap<usize, Scalar>,
)
    ensures
        constants_view(final(constants_by_column)@) == with_constants(
            expr@,
            constants_view(old(constants_by_column)@),
        ),
    decreases expr,
{
    broadcast use vstd::std_specs::hash::group_hash_axioms;

    let ghost known = constants_view(constants_by_column@);
    if let ScalarExpr::FunctionCall { func_name, arguments, .. } = expr {
        if text_eq(func_name.as_str(), "and") || text_eq(func_name.as_str(), "and_filters") {
            collect_from_all(arguments, constants_by_column);
            return;
        }
    }
    if let Some((column, value)) = extract_ordered_prefix_column_constant(expr) {
        let ghost before = constants_by_column@;
        constants_by_column.insert(column, value);
        assert(constants_view(constants_by_column@) =~= known.insert(column, value@));
    }
}

/// Adds the constants that several predicates fix columns to.
pub fn collect_all_prefix_constants(exprs: &Vec<ScalarExpr>) -> (r: HashMap<usize, Scalar>)
    ensures
        constants_view(r@) == with_all_constants(plan_exprs_view(exprs@), Map::empty()),
{
    broadcast use vstd::std_specs::hash::group_hash_axioms;

    let mut constants_by_column: HashMap<usize, Scalar> = HashMap::new();
    assert(constants_view(constants_by_column@) =~= Map::<usize, ScalarModel>::empty());
    collect_from_all(exprs, &mut constants_by_column);
    constants_by_column
}

/// A copy of expressions.
pub fn clone_plan_exprs(exprs: &Vec<ScalarExpr>) -> (r: Vec<ScalarExpr>)
    ensures
        plan_exprs_view(r@) == plan_exprs_view(exprs@),
    decreases exprs,
{
    let mut r: Vec<ScalarExpr> = Vec::new();
    let mut i: usize = 0;
    while i < exprs.len()
        invariant
            i <= exprs@.len(),
            r@.len() == i,
            forall|k: int|
                0 <= k < i ==> plan_expr_view(#[trigger] r@[k]) == plan_expr_view(exprs@[k]),
        decreases exprs@.len() - i,
    {
        assert(decreases_to!(exprs => exprs[i as int]));
        r.push(clone_plan_expr(&exprs[i]));
        i = i + 1;
    }
    proof {
        lemma_plan_exprs_view(r@);
        lemma_plan_exprs_view(exprs@);
        assert(plan_exprs_view(r@) =~= plan_exprs_view(exprs@));
    }
    r
}

/// A copy of an expression.
pub fn clone_plan_expr(expr: &ScalarExpr) -> (r: ScalarExpr)
    ensures
        r@ == expr@,
    decreases expr,
{
    match expr {
        ScalarExpr::BoundColumnRef(column) => ScalarExpr::BoundColumnRef(*column),
        ScalarExpr::ConstantExpr(value) => ScalarExpr::ConstantExpr(clone_scalar(value)),
        ScalarExpr::TypedConstantExpr(value, data_type) => ScalarExpr::TypedConstantExpr(
            clone_scalar(value),
            *data_type,
        ),
        ScalarExpr::FunctionCall { func_name, params, arguments } => ScalarExpr::FunctionCall {
            func_name: func_name.clone(),
            params: clone_scalars(params),
            arguments: clone_plan_exprs(arguments),
        },
        ScalarExpr::Other { kind, parts } => ScalarExpr::Other {
            kind: *kind,
            parts: clone_plan_exprs(parts),
        },
    }
}

/// The predicates joined by calls of a function, from the left.
pub open spec fn conjoined(exprs: Seq<PlanExprModel>, func_name: Seq<char>) -> PlanExprModel
    decreases exprs.len(),
{
    if exprs.len() <= 1 {
        exprs[0]
    } else {
        PlanExprModel::Call {
            func_name,
            params: Seq::empty(),
            arguments: seq![conjoined(exprs.drop_last(), func_name), exprs.last()],
        }
    }
}

/// Joins predicates by calls of a function, from the left.
pub fn conjunction(exprs: &Vec<ScalarExpr>, func_name: &str) -> (r: Option<ScalarExpr>)
    ensures
        match r {
            Some(expr) => exprs@.len() > 0 && expr@ == conjoined(
                plan_exprs_view(exprs@),
                func_name@,
            ),
            None => exprs@.len() == 0,
        },
{
    if exprs.len() == 0 {
        return None;
    }
    let ghost models = plan_exprs_view(exprs@);
    proof {
        lemma_plan_exprs_view(exprs@);
    }
    let mut joined = clone_plan_expr(&exprs[0]);
    let mut i: usize = 1;
    assert(models.take(1)[0] == models[0]);
    while i < exprs.len()
        invariant
            1 <= i <= exprs@.len(),
            models == plan_exprs_view(exprs@),
            models.len() == exprs@.len(),
            forall|k: int|
                0 <= k < exprs@.len() ==> #[trigger] models[k] == plan_expr_view(exprs@[k]),
            joined@ == conjoined(models.take(i as int), func_name@),
        decreases exprs@.len() - i,
    {
        let mut arguments: Vec<ScalarExpr> = Vec::new();
        arguments.push(joined);
        arguments.push(clone_plan_expr(&exprs[i]));
        proof {
            lemma_plan_exprs_view(arguments@);
            let t = models.take(i + 1);
            assert(t.drop_last() =~= models.take(i as int));
            assert(t.last() == models[i as int]);
            assert(plan_exprs_view(arguments@) =~= seq![
                conjoined(models.take(i as int), func_name@),
                models[i as int],
            ]);
        }
        let params: Vec<Scalar> = Vec::new();
        joined = ScalarExpr::FunctionCall {
            func_name: String::from_str(func_name),
            params,
            arguments,
        };
        i = i + 1;
    }
    assert(models.take(models.len() as int) =~= models);
    Some(joined)
}

/// Predicates fix the same columns to the same values whether they are pushed down one by one or
/// joined into one.
pub proof fn law_conjunction_fixes_the_same(
    exprs: Seq<PlanExprModel>,
    func_name: Seq<char>,
    known: Map<usize, ScalarModel>,
)
    requires
        exprs.len() > 0,
        func_name == "and"@ || func_name == "and_filters"@,
    ensures
        with_constants(conjoined(exprs, func_name), known) == with_all_constants(exprs, known),
    decreases exprs.len(),
{
    if exprs.len() == 1 {
        assert(exprs.drop_last() =~= Seq::<PlanExprModel>::empty());
        assert(with_all_constants(exprs.drop_last(), known) == known);
    } else {
        let head = exprs.drop_last();
        law_conjunction_fixes_the_same(head, func_name, known);
        let arguments = seq![conjoined(head, func_name), exprs.last()];
        assert(arguments.drop_last() =~= seq![conjoined(head, func_name)]);
        let first = seq![conjoined(head, func_name)];
        assert(first.drop_last() =~= Seq::<PlanExprModel>::empty());
        assert(with_all_constants(first.drop_last(), known) == known);
        assert(with_all_constants(first, known) == with_constants(
            conjoined(head, func_name),
            known,
        ));
        assert(with_all_constants(arguments, known) == with_constants(
            exprs.last(),
            with_all_constants(arguments.drop_last(), known),
        ));
    }
}

} // verus!
