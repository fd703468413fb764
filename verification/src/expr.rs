//! Filter expressions, and the simple filters that they are made of.

use vstd::prelude::*;

use crate::fast::{fast_predicates_view, BtreeIndexFastPredicate, FastPredicateModel};
use crate::predicate::{fast_compare_op, op_for, op_named, BtreeIndexFastCompareOp};
use crate::scalar::{clone_scalar, Scalar, ScalarModel, TableDataType};
use crate::text::text_eq;

verus! {

/// An expression over columns, which are numbered.
#[derive(Debug)]
pub enum Expr {
    /// A value of a type.
    Constant(Scalar, TableDataType),
    /// A column of a type.
    ColumnRef(usize, TableDataType),
    /// The call of a function; the host numbers the functions of a name.
    FunctionCall { name: String, overload: u32, args: Vec<Expr> },
    /// Any other expression, by the number that the host gave its kind and the expressions in it.
    Other { kind: u32, args: Vec<Expr> },
}

/// The model of an expression.
pub enum ExprModel {
    Constant(ScalarModel, TableDataType),
    ColumnRef(usize, TableDataType),
    FunctionCall { name: Seq<char>, overload: u32, args: Seq<ExprModel> },
    Other { kind: u32, args: Seq<ExprModel> },
}

/// The model of an expression.
pub open spec fn expr_view(expr: Expr) -> ExprModel
    decreases expr,
{
    match expr {
        Expr::Constant(scalar, data_type) => ExprModel::Constant(scalar@, data_type),
        Expr::ColumnRef(column, data_type) => ExprModel::ColumnRef(column, data_type),
        Expr::FunctionCall { name, overload, args } => ExprModel::FunctionCall {
            name: name@,
            overload,
            args: exprs_view(args@),
        },
        Expr::Other { kind, args } => ExprModel::Other { kind, args: exprs_view(args@) },
    }
}

/// The models of a sequence of expressions.
pub open spec fn exprs_view(exprs: Seq<Expr>) -> Seq<ExprModel>
    decreases exprs,
{
    if exprs.len() == 0 {
        Seq::empty()
    } else {
        exprs_view(exprs.drop_last()).push(expr_view(exprs.last()))
    }
}

impl View for Expr {
    type V = ExprModel;

    open spec fn view(&self) -> ExprModel {
        expr_view(*self)
    }
}

/// The models of a sequence of expressions are the models of each.
pub proof fn lemma_exprs_view(exprs: Seq<Expr>)
    ensures
        exprs_view(exprs).len() == exprs.len(),
        forall|i: int|
            0 <= i < exprs.len() ==> #[trigger] exprs_view(exprs)[i] == expr_view(exprs[i]),
    decreases exprs.len(),
{
    if exprs.len() > 0 {
        lemma_exprs_view(exprs.drop_last());
        assert forall|i: int| 0 <= i < exprs.len() implies #[trigger] exprs_view(exprs)[i]
            == expr_view(exprs[i]) by {
            if i < exprs.len() - 1 {
                assert(exprs.drop_last()[i] == exprs[i]);
            }
        }
    }
}

/// A copy of expressions.
pub fn clone_exprs(exprs: &Vec<Expr>) -> (r: Vec<Expr>)
    ensures
        exprs_view(r@) == exprs_view(exprs@),
    decreases exprs,
{
    let mut r: Vec<Expr> = Vec::new();
    let mut i: usize = 0;
    while i < exprs.len()
        invariant
            i <= exprs@.len(),
            r@.len() == i,
            forall|k: int| 0 <= k < i ==> expr_view(#[trigger] r@[k]) == expr_view(exprs@[k]),
        decreases exprs@.len() - i,
    {
        assert(decreases_to!(exprs => exprs[i as int]));
        r.push(clone_expr(&exprs[i]));
        i = i + 1;
    }
    proof {
        lemma_exprs_view(r@);
        lemma_exprs_view(exprs@);
        assert(exprs_view(r@) =~= exprs_view(exprs@));
    }
    r
}

/// A copy of an expression.
pub fn clone_expr(expr: &Expr) -> (r: Expr)
    ensures
        r@ == expr@,
    decreases expr,
{
    match expr {
        Expr::Constant(scalar, data_type) => Expr::Constant(clone_scalar(scalar), *data_type),
        Expr::ColumnRef(column, data_type) => Expr::ColumnRef(*column, *data_type),
        Expr::FunctionCall { name, overload, args } => Expr::FunctionCall {
            name: name.clone(),
            overload: *overload,
            args: clone_exprs(args),
        },
        Expr::Other { kind, args } => Expr::Other { kind: *kind, args: clone_exprs(args) },
    }
}

/// The host finds values equal as this function does.
pub open spec fn equals_by<E: Fn(&Scalar, &Scalar) -> bool>(
    equal: E,
    rule: spec_fn(ScalarModel, ScalarModel) -> bool,
) -> bool {
    forall|a: &Scalar, b: &Scalar, r: bool| #[trigger]
        call_ensures(equal, (a, b), r) ==> r == rule(a@, b@)
}

/// The columns that the equality prefix fixes, with their values.
pub open spec fn equalities_view(equalities: Seq<(usize, Scalar)>) -> Seq<(usize, ScalarModel)> {
    Seq::new(equalities.len(), |i: int| (equalities[i].0, equalities[i].1@))
}

/// The equality prefix fixes a column to this value.
pub open spec fn is_fixed(
    equalities: Seq<(usize, ScalarModel)>,
    column: usize,
    constant: ScalarModel,
    same: spec_fn(ScalarModel, ScalarModel) -> bool,
) -> bool {
    exists|i: int|
        0 <= i < equalities.len() && (#[trigger] equalities[i]).0 == column && same(
            equalities[i].1,
            constant,
        )
}

/// The column of an `is_not_null` test.
pub open spec fn not_null_column(expr: ExprModel) -> Option<usize> {
    match expr {
        ExprModel::FunctionCall { name, args, .. } => if name == "is_not_null"@ && args.len() == 1 {
            match args[0] {
                ExprModel::ColumnRef(column, _) => Some(column),
                _ => None,
            }
        } else {
            None
        },
        _ => None,
    }
}

/// The column, the constant and the comparison of a test of one against the other.
pub open spec fn comparison(left: ExprModel, right: ExprModel, name: Seq<char>) -> Option<
    (usize, ScalarModel, BtreeIndexFastCompareOp),
> {
    match (left, right) {
        (ExprModel::ColumnRef(column, _), ExprModel::Constant(constant, _)) => match op_for(name, false) {
            Some(op) => Some((column, constant, op)),
            None => None,
        },
        (ExprModel::Constant(constant, _), ExprModel::ColumnRef(column, _)) => match op_for(name, true) {
            Some(op) => Some((column, constant, op)),
            None => None,
        },
        _ => None,
    }
}

/// The simple filters that an expression is the conjunction of, where it is one. A comparison that
/// the equality prefix settles is left out.
pub open spec fn compiled(
    expr: ExprModel,
    equalities: Seq<(usize, ScalarModel)>,
    same: spec_fn(ScalarModel, ScalarModel) -> bool,
) -> Option<Seq<FastPredicateModel>>
    decreases expr,
{
    match expr {
        ExprModel::Constant(ScalarModel::Boolean(true), _) => Some(Seq::empty()),
        ExprModel::FunctionCall { name, args, .. } => {
            if name == "and"@ || name == "and_filters"@ {
                compiled_all(args, equalities, same)
            } else if name == "not"@ && args.len() == 1 {
                match not_null_column(args[0]) {
                    Some(column) => Some(seq![FastPredicateModel::IsNull { column }]),
                    None => None,
                }
            } else if name == "is_not_null"@ && args.len() == 1 {
                match args[0] {
                    ExprModel::ColumnRef(column, _) => Some(
                        seq![FastPredicateModel::IsNotNull { column }],
                    ),
                    _ => None,
                }
            } else if op_named(name) is Some && args.len() == 2 {
                match comparison(args[0], args[1], name) {
                    None => None,
                    Some(c) => if c.2 == BtreeIndexFastCompareOp::Eq && is_fixed(
                        equalities,
                        c.0,
                        c.1,
                        same,
                    ) {
                        Some(Seq::empty())
                    } else {
                        Some(
                            seq![
                                FastPredicateModel::Compare {
                                    column: c.0,
                                    op: c.2,
                                    constant: c.1,
                                },
                            ],
                        )
                    },
                }
            } else {
                None
            }
        },
        _ => None,
    }
}

/// The simple filters that several expressions together are the conjunction of.
pub open spec fn compiled_all(
    exprs: Seq<ExprModel>,
    equalities: Seq<(usize, ScalarModel)>,
    same: spec_fn(ScalarModel, ScalarModel) -> bool,
) -> Option<Seq<FastPredicateModel>>
    decreases exprs,
{
    if exprs.len() == 0 {
        Some(Seq::empty())
    } else {
        match compiled_all(exprs.drop_last(), equalities, same) {
            None => None,
            Some(before) => match compiled(exprs.last(), equalities, same) {
                None => None,
                Some(last) => Some(before + last),
            },
        }
    }
}

/// The equality prefix fixes a column.
pub open spec fn is_listed(equalities: Seq<(usize, ScalarModel)>, column: usize) -> bool {
    exists|i: int| 0 <= i < equalities.len() && (#[trigger] equalities[i]).0 == column
}

/// The host is asked which values are equal: a column that the equality prefix fixes is compared
/// with a constant.
pub open spec fn asks_host(expr: ExprModel, equalities: Seq<(usize, ScalarModel)>) -> bool
    decreases expr,
{
    match expr {
        ExprModel::FunctionCall { name, args, .. } => {
            if name == "and"@ || name == "and_filters"@ {
                any_asks_host(args, equalities)
            } else {
                args.len() == 2 && (comparison(args[0], args[1], name) matches Some(c) && c.2
                    == BtreeIndexFastCompareOp::Eq && is_listed(equalities, c.0))
            }
        },
        _ => false,
    }
}

/// The host is asked which values are equal for one of the expressions.
pub open spec fn any_asks_host(
    exprs: Seq<ExprModel>,
    equalities: Seq<(usize, ScalarModel)>,
) -> bool
    decreases exprs,
{
    exprs.len() > 0 && (any_asks_host(exprs.drop_last(), equalities) || asks_host(
        exprs.last(),
        equalities,
    ))
}

/// The host finds values equal as this function does, where it is asked for the expression.
pub open spec fn settles<E: Fn(&Scalar, &Scalar) -> bool>(
    expr: ExprModel,
    equalities: Seq<(usize, ScalarModel)>,
    equal: E,
    same: spec_fn(ScalarModel, ScalarModel) -> bool,
) -> bool {
    equals_by(equal, same) || !asks_host(expr, equalities)
}

/// The host finds values equal as this function does, where it is asked for one of the expressions.
pub open spec fn settles_all<E: Fn(&Scalar, &Scalar) -> bool>(
    exprs: Seq<ExprModel>,
    equalities: Seq<(usize, ScalarModel)>,
    equal: E,
    same: spec_fn(ScalarModel, ScalarModel) -> bool,
) -> bool {
    equals_by(equal, same) || !any_asks_host(exprs, equalities)
}

proof fn lemma_compiled_all_fails(
    exprs: Seq<ExprModel>,
    equalities: Seq<(usize, ScalarModel)>,
    same: spec_fn(ScalarModel, ScalarModel) -> bool,
    i: int,
)
    requires
        0 <= i <= exprs.len(),
        compiled_all(exprs.take(i), equalities, same) is None,
    ensures
        compiled_all(exprs, equalities, same) is None,
    decreases exprs.len() - i,
{
    if i < exprs.len() {
        assert(exprs.take(i + 1).drop_last() =~= exprs.take(i));
        lemma_compiled_all_fails(exprs, equalities, same, i + 1);
    } else {
        assert(exprs.take(i) =~= exprs);
    }
}

/// The column of an `is_not_null` test.
pub fn extract_is_not_null_column(expr: &Expr) -> (r: Option<usize>)
    ensures
        r == not_null_column(expr@),
{
    match expr {
        Expr::FunctionCall { name, args, .. } => {
            proof {
                lemma_exprs_view(args@);
            }
            if !text_eq(name.as_str(), "is_not_null") || args.len() != 1 {
                return None;
            }
            match &args[0] {
                Expr::ColumnRef(column, _) => Some(*column),
                _ => None,
            }
        },
        _ => None,
    }
}

/// The column, the constant and the comparison of a test of one against the other.
pub fn extract_fast_compare(left: &Expr, right: &Expr, op_name: &str) -> (r: Option<
    (usize, Scalar, BtreeIndexFastCompareOp),
>)
    ensures
        match r {
            Some(c) => comparison(left@, right@, op_name@) == Some((c.0, c.1@, c.2)),
            None => comparison(left@, right@, op_name@) is None,
        },
{
    match (left, right) {
        (Expr::ColumnRef(column, _), Expr::Constant(constant, _)) => match fast_compare_op(
            op_name,
            false,
        ) {
            Some(op) => Some((*column, clone_scalar(constant), op)),
            None => None,
        },
        (Expr::Constant(constant, _), Expr::ColumnRef(column, _)) => match fast_compare_op(
            op_name,
            true,
        ) {
            Some(op) => Some((*column, clone_scalar(constant), op)),
            None => None,
        },
        _ => None,
    }
}

/// Whether the equality prefix fixes a column to this value.
fn prefix_fixes<E: Fn(&Scalar, &Scalar) -> bool>(
    equalities: &Vec<(usize, Scalar)>,
    column: usize,
    constant: &Scalar,
    equal: &E,
) -> (r: bool)
    requires
        forall|a: &Scalar, b: &Scalar| call_requires(*equal, (a, b)),
    ensures
        r ==> is_listed(equalities_view(equalities@), column),
        forall|same: spec_fn(ScalarModel, ScalarModel) -> bool| #[trigger]
            equals_by(*equal, same) ==> r == is_fixed(
                equalities_view(equalities@),
                column,
                constant@,
                same,
            ),
{
    let ghost eqs = equalities_view(equalities@);
    let mut i: usize = 0;
    while i < equalities.len()
        invariant
            forall|a: &Scalar, b: &Scalar| call_requires(*equal, (a, b)),
            i <= equalities@.len(),
            eqs == equalities_view(equalities@),
            forall|same: spec_fn(ScalarModel, ScalarModel) -> bool, k: int|
                #[trigger] equals_by(*equal, same) && 0 <= k < i ==> !((#[trigger] eqs[k]).0
                    == column && same(eqs[k].1, constant@)),
        decreases equalities@.len() - i,
    {
        let entry = &equalities[i];
        assert(eqs[i as int] == (entry.0, entry.1@));
        if entry.0 == column {
            let hit = equal(&entry.1, constant);
            if hit {
                return true;
            }
        }
        i = i + 1;
    }
    false
}

/// Whether the expression is a conjunction of simple filters; they are appended to `predicates`.
pub fn collect_btree_fast_predicates<E: Fn(&Scalar, &Scalar) -> bool>(
    expr: &Expr,
    prefix_equalities: &Vec<(usize, Scalar)>,
    predicates: &mut Vec<BtreeIndexFastPredicate>,
    equal: &E,
) -> (r: bool)
    requires
        forall|a: &Scalar, b: &Scalar| call_requires(*equal, (a, b)),
    ensures
        forall|same: spec_fn(ScalarModel, ScalarModel) -> bool|
            r == (#[trigger] compiled(expr@, equalities_view(prefix_equalities@), same) is Some),
        r ==> forall|same: spec_fn(ScalarModel, ScalarModel) -> bool| #[trigger]
            settles(expr@, equalities_view(prefix_equalities@), *equal, same)
                ==> fast_predicates_view(final(predicates)@) == fast_predicates_view(
                old(predicates)@,
            ) + compiled(expr@, equalities_view(prefix_equalities@), same)->Some_0,
    decreases expr,
{
    let ghost start = fast_predicates_view(predicates@);
    match expr {
        Expr::Constant(Scalar::Boolean(true), _) => {
            assert(fast_predicates_view(predicates@) + Seq::<FastPredicateModel>::empty()
                =~= start);
            true
        },
        Expr::FunctionCall { name, args, .. } => {
            proof {
                lemma_exprs_view(args@);
            }
            let name: &str = name.as_str();
            if text_eq(name, "and") || text_eq(name, "and_filters") {
                let all = collect_all_predicates(args, prefix_equalities, predicates, equal);
                proof {
                    let models = exprs_view(args@);
                    let eqs = equalities_view(prefix_equalities@);
                    assert forall|same: spec_fn(ScalarModel, ScalarModel) -> bool| #[trigger]
                        compiled(expr@, eqs, same) == compiled_all(models, eqs, same) by {}
                    assert forall|same: spec_fn(ScalarModel, ScalarModel) -> bool| #[trigger]
                        settles(expr@, eqs, *equal, same) implies settles_all(
                        models,
                        eqs,
                        *equal,
                        same,
                    ) by {}
                }
                return all;
            }
            if text_eq(name, "not") && args.len() == 1 {
                match extract_is_not_null_column(&args[0]) {
                    Some(column) => {
                        predicates.push(BtreeIndexFastPredicate::IsNull { column });
                        assert(fast_predicates_view(predicates@) =~= start + seq![
                            FastPredicateModel::IsNull { column },
                        ]);
                        true
                    },
                    None => false,
                }
            } else if text_eq(name, "is_not_null") && args.len() == 1 {
                match &args[0] {
                    Expr::ColumnRef(column, _) => {
                        predicates.push(BtreeIndexFastPredicate::IsNotNull { column: *column });
                        assert(fast_predicates_view(predicates@) =~= start + seq![
                            FastPredicateModel::IsNotNull { column: *column },
                        ]);
                        true
                    },
                    _ => false,
                }
            } else if fast_compare_op(name, false).is_some() && args.len() == 2 {
                match extract_fast_compare(&args[0], &args[1], name) {
                    None => false,
                    Some((column, constant, op)) => {
                        let settled = op == BtreeIndexFastCompareOp::Eq && prefix_fixes(
                            prefix_equalities,
                            column,
                            &constant,
                            equal,
                        );
                        if !settled {
                            let predicate = BtreeIndexFastPredicate::Compare {
                                column,
                                op,
                                constant,
                            };
                            predicates.push(predicate);
                            assert(fast_predicates_view(predicates@) =~= start + seq![predicate@]);
                        } else {
                            assert(start + Seq::<FastPredicateModel>::empty() =~= start);
                        }
                        true
                    },
                }
            } else {
                false
            }
        },
        _ => false,
    }
}

/// Whether the expressions together are a conjunction of simple filters.
fn collect_all_predicates<E: Fn(&Scalar, &Scalar) -> bool>(
    args: &Vec<Expr>,
    prefix_equalities: &Vec<(usize, Scalar)>,
    predicates: &mut Vec<BtreeIndexFastPredicate>,
    equal: &E,
) -> (r: bool)
    requires
        forall|a: &Scalar, b: &Scalar| call_requires(*equal, (a, b)),
    ensures
        forall|same: spec_fn(ScalarModel, ScalarModel) -> bool|
            r == (#[trigger] compiled_all(
                exprs_view(args@),
                equalities_view(prefix_equalities@),
                same,
            ) is Some),
        r ==> forall|same: spec_fn(ScalarModel, ScalarModel) -> bool| #[trigger]
            settles_all(exprs_view(args@), equalities_view(prefix_equalities@), *equal, same)
                ==> fast_predicates_view(final(predicates)@) == fast_predicates_view(
                old(predicates)@,
            ) + compiled_all(
                exprs_view(args@),
                equalities_view(prefix_equalities@),
                same,
            )->Some_0,
    decreases args,
{
    let ghost start = fast_predicates_view(predicates@);
    let ghost models = exprs_view(args@);
    let ghost eqs = equalities_view(prefix_equalities@);
    proof {
        lemma_exprs_view(args@);
        assert(models.take(0) =~= Seq::<ExprModel>::empty());
        assert(start + Seq::<FastPredicateModel>::empty() =~= start);
    }
    let mut i: usize = 0;
    while i < args.len()
        invariant
            forall|a: &Scalar, b: &Scalar| call_requires(*equal, (a, b)),
            i <= args@.len(),
            models.len() == args@.len(),
            models == exprs_view(args@),
            forall|k: int| 0 <= k < args@.len() ==> #[trigger] models[k] == expr_view(args@[k]),
            eqs == equalities_view(prefix_equalities@),
            forall|same: spec_fn(ScalarModel, ScalarModel) -> bool|
                #[trigger] compiled_all(models.take(i as int), eqs, same) is Some,
            forall|same: spec_fn(ScalarModel, ScalarModel) -> bool| #[trigger]
                settles_all(models.take(i as int), eqs, *equal, same) ==> fast_predicates_view(
                    predicates@,
                ) == start + compiled_all(models.take(i as int), eqs, same)->Some_0,
        decreases args@.len() - i,
    {
        assert(decreases_to!(args => args[i as int]));
        proof {
            let t = models.take(i + 1);
            assert(t.drop_last() =~= models.take(i as int));
            assert(t.last() == args@[i as int]@);
        }
        let ghost before = fast_predicates_view(predicates@);
        if !collect_btree_fast_predicates(&args[i], prefix_equalities, predicates, equal) {
            assert forall|same: spec_fn(ScalarModel, ScalarModel) -> bool|
                #[trigger] compiled_all(models, eqs, same) is None by {
                assert(compiled_all(models.take(i as int), eqs, same) is Some);
                assert(compiled(args@[i as int]@, eqs, same) is None);
                assert(compiled_all(models.take(i + 1), eqs, same) is None);
                lemma_compiled_all_fails(models, eqs, same, i + 1);
            }
            return false;
        }
        assert forall|same: spec_fn(ScalarModel, ScalarModel) -> bool|
            #[trigger] compiled_all(models.take(i + 1), eqs, same) is Some by {
            assert(compiled_all(models.take(i as int), eqs, same) is Some);
            assert(compiled(args@[i as int]@, eqs, same) is Some);
        }
        assert forall|same: spec_fn(ScalarModel, ScalarModel) -> bool| #[trigger]
            settles_all(models.take(i + 1), eqs, *equal, same) implies fast_predicates_view(
            predicates@,
        ) == start + compiled_all(models.take(i + 1), eqs, same)->Some_0 by {
            assert(settles_all(models.take(i as int), eqs, *equal, same));
            assert(settles(args@[i as int]@, eqs, *equal, same));
            assert(compiled_all(models.take(i as int), eqs, same) is Some);
            assert(compiled(args@[i as int]@, eqs, same) is Some);
            let found = compiled_all(models.take(i as int), eqs, same)->0;
            let last = compiled(args@[i as int]@, eqs, same)->0;
            assert(start + found + last =~= start + (found + last));
        }
        i = i + 1;
    }
    assert(models.take(models.len() as int) =~= models);
    true
}

/// The simple filters that an expression is the conjunction of, where it is one.
pub fn compile_btree_fast_predicates<E: Fn(&Scalar, &Scalar) -> bool>(
    expr: &Expr,
    prefix_equalities: &Vec<(usize, Scalar)>,
    equal: &E,
) -> (r: Option<Vec<BtreeIndexFastPredicate>>)
    requires
        forall|a: &Scalar, b: &Scalar| call_requires(*equal, (a, b)),
    ensures
        forall|same: spec_fn(ScalarModel, ScalarModel) -> bool|
            (r is Some) == (#[trigger] compiled(
                expr@,
                equalities_view(prefix_equalities@),
                same,
            ) is Some),
        r matches Some(predicates) ==> forall|same: spec_fn(ScalarModel, ScalarModel) -> bool|
            #[trigger] settles(expr@, equalities_view(prefix_equalities@), *equal, same)
                ==> compiled(expr@, equalities_view(prefix_equalities@), same) == Some(
                fast_predicates_view(predicates@),
            ),
{
    let mut predicates: Vec<BtreeIndexFastPredicate> = Vec::new();
    assert(fast_predicates_view(predicates@) =~= Seq::<FastPredicateModel>::empty());
    if collect_btree_fast_predicates(expr, prefix_equalities, &mut predicates, equal) {
        assert forall|same: spec_fn(ScalarModel, ScalarModel) -> bool| #[trigger]
            settles(expr@, equalities_view(prefix_equalities@), *equal, same) implies compiled(
            expr@,
            equalities_view(prefix_equalities@),
            same,
        ) == Some(fast_predicates_view(predicates@)) by {
            let found = compiled(expr@, equalities_view(prefix_equalities@), same)->0;
            assert(Seq::<FastPredicateModel>::empty() + found =~= found);
        }
        Some(predicates)
    } else {
        None
    }
}

/// The expression over other columns: each column is replaced by the one that `columns` names for
/// it. A column for which there is none is an error.
pub open spec fn projected(expr: ExprModel, columns: Seq<Option<usize>>) -> Result<ExprModel, usize>
    decreases expr,
{
    match expr {
        ExprModel::Constant(_, _) => Ok(expr),
        ExprModel::ColumnRef(column, data_type) => if column < columns.len() && columns[column as int]
            is Some {
            Ok(ExprModel::ColumnRef(columns[column as int]->0, data_type))
        } else {
            Err(column)
        },
        ExprModel::FunctionCall { name, overload, args } => match projected_all(args, columns) {
            Ok(args) => Ok(ExprModel::FunctionCall { name, overload, args }),
            Err(column) => Err(column),
        },
        ExprModel::Other { kind, args } => match projected_all(args, columns) {
            Ok(args) => Ok(ExprModel::Other { kind, args }),
            Err(column) => Err(column),
        },
    }
}

/// The expressions over other columns.
pub open spec fn projected_all(exprs: Seq<ExprModel>, columns: Seq<Option<usize>>) -> Result<
    Seq<ExprModel>,
    usize,
>
    decreases exprs,
{
    if exprs.len() == 0 {
        Ok(Seq::empty())
    } else {
        match projected_all(exprs.drop_last(), columns) {
            Err(column) => Err(column),
            Ok(before) => match projected(exprs.last(), columns) {
                Err(column) => Err(column),
                Ok(last) => Ok(before.push(last)),
            },
        }
    }
}

proof fn lemma_projected_all_fails(exprs: Seq<ExprModel>, columns: Seq<Option<usize>>, i: int)
    requires
        0 <= i <= exprs.len(),
        projected_all(exprs.take(i), columns) is Err,
    ensures
        projected_all(exprs, columns) == projected_all(exprs.take(i), columns),
    decreases exprs.len() - i,
{
    if i < exprs.len() {
        assert(exprs.take(i + 1).drop_last() =~= exprs.take(i));
        lemma_projected_all_fails(exprs, columns, i + 1);
    } else {
        assert(exprs.take(i) =~= exprs);
    }
}

/// The expression over other columns; the first column without one is the error.
pub fn project_column_ref(expr: &Expr, columns: &Vec<Option<usize>>) -> (r: Result<Expr, usize>)
    ensures
        match r {
            Ok(e) => projected(expr@, columns@) == Ok::<_, usize>(e@),
            Err(column) => projected(expr@, columns@) == Err::<ExprModel, _>(column),
        },
    decreases expr,
{
    match expr {
        Expr::Constant(scalar, data_type) => Ok(Expr::Constant(clone_scalar(scalar), *data_type)),
        Expr::ColumnRef(column, data_type) => {
            if *column < columns.len() {
                match columns[*column] {
                    Some(c) => Ok(Expr::ColumnRef(c, *data_type)),
                    None => Err(*column),
                }
            } else {
                Err(*column)
            }
        },
        Expr::FunctionCall { name, overload, args } => match project_all(args, columns) {
            Ok(args) => Ok(Expr::FunctionCall { name: name.clone(), overload: *overload, args }),
            Err(column) => Err(column),
        },
        Expr::Other { kind, args } => match project_all(args, columns) {
            Ok(args) => Ok(Expr::Other { kind: *kind, args }),
            Err(column) => Err(column),
        },
    }
}

fn project_all(args: &Vec<Expr>, columns: &Vec<Option<usize>>) -> (r: Result<Vec<Expr>, usize>)
    ensures
        match r {
            Ok(e) => projected_all(exprs_view(args@), columns@) == Ok::<_, usize>(exprs_view(e@)),
            Err(column) => projected_all(exprs_view(args@), columns@) == Err::<
                Seq<ExprModel>,
                _,
            >(column),
        },
    decreases args,
{
    let ghost models = exprs_view(args@);
    let mut r: Vec<Expr> = Vec::new();
    proof {
        lemma_exprs_view(args@);
        assert(models.take(0) =~= Seq::<ExprModel>::empty());
    }
    let mut i: usize = 0;
    while i < args.len()
        invariant
            i <= args@.len(),
            models.len() == args@.len(),
            models == exprs_view(args@),
            forall|k: int| 0 <= k < args@.len() ==> #[trigger] models[k] == expr_view(args@[k]),
            projected_all(models.take(i as int), columns@) == Ok::<_, usize>(exprs_view(r@)),
        decreases args@.len() - i,
    {
        assert(decreases_to!(args => args[i as int]));
        proof {
            let t = models.take(i + 1);
            assert(t.drop_last() =~= models.take(i as int));
            assert(t.last() == args@[i as int]@);
        }
        match project_column_ref(&args[i], columns) {
            Ok(e) => {
                let ghost before = r@;
                r.push(e);
                assert(r@.drop_last() =~= before);
                assert(exprs_view(r@) =~= exprs_view(before).push(e@));
            },
            Err(column) => {
                proof {
                    lemma_projected_all_fails(models, columns@, i + 1);
                }
                return Err(column);
            },
        }
        i = i + 1;
    }
    assert(models.take(models.len() as int) =~= models);
    Ok(r)
}

/// The columns that an expression is over, in the order in which they occur.
pub open spec fn columns_of(expr: ExprModel) -> Seq<usize>
    decreases expr,
{
    match expr {
        ExprModel::Constant(_, _) => Seq::empty(),
        ExprModel::ColumnRef(column, _) => seq![column],
        ExprModel::FunctionCall { args, .. } => columns_of_all(args),
        ExprModel::Other { args, .. } => columns_of_all(args),
    }
}

/// The columns that several expressions are over.
pub open spec fn columns_of_all(exprs: Seq<ExprModel>) -> Seq<usize>
    decreases exprs,
{
    if exprs.len() == 0 {
        Seq::empty()
    } else {
        columns_of_all(exprs.drop_last()) + columns_of(exprs.last())
    }
}

/// An expression all of whose columns have a replacement can be projected.
pub proof fn lemma_projected_ok(expr: ExprModel, columns: Seq<Option<usize>>)
    requires
        forall|c: usize| #[trigger]
            columns_of(expr).contains(c) ==> c < columns.len() && columns[c as int] is Some,
    ensures
        projected(expr, columns) is Ok,
    decreases expr,
{
    match expr {
        ExprModel::ColumnRef(column, _) => {
            assert(columns_of(expr)[0] == column);
            assert(columns_of(expr).contains(column));
        },
        ExprModel::FunctionCall { args, .. } => {
            assert(columns_of(expr) == columns_of_all(args));
            lemma_projected_all_ok(args, columns);
        },
        ExprModel::Other { args, .. } => {
            assert(columns_of(expr) == columns_of_all(args));
            lemma_projected_all_ok(args, columns);
        },
        _ => {},
    }
}

proof fn lemma_projected_all_ok(exprs: Seq<ExprModel>, columns: Seq<Option<usize>>)
    requires
        forall|c: usize| #[trigger]
            columns_of_all(exprs).contains(c) ==> c < columns.len() && columns[c as int] is Some,
    ensures
        projected_all(exprs, columns) is Ok,
    decreases exprs,
{
    if exprs.len() > 0 {
        let head = columns_of_all(exprs.drop_last());
        let last = columns_of(exprs.last());
        let all = columns_of_all(exprs);
        assert(all == head + last);
        assert forall|c: usize| #[trigger] head.contains(c) implies c < columns.len()
            && columns[c as int] is Some by {
            let i = choose|i: int| 0 <= i < head.len() && head[i] == c;
            assert(all[i] == c);
            assert(all.contains(c));
        }
        assert forall|c: usize| #[trigger] last.contains(c) implies c < columns.len()
            && columns[c as int] is Some by {
            let i = choose|i: int| 0 <= i < last.len() && last[i] == c;
            assert(all[head.len() + i] == c);
            assert(all.contains(c));
        }
        lemma_projected_all_ok(exprs.drop_last(), columns);
        lemma_projected_ok(exprs.last(), columns);
    }
}

/// Appends the columns that an expression is over.
pub fn collect_columns(expr: &Expr, columns: &mut Vec<usize>)
    ensures
        final(columns)@ == old(columns)@ + columns_of(expr@),
    decreases expr,
{
    let ghost start = columns@;
    match expr {
        Expr::Constant(_, _) => {},
        Expr::ColumnRef(column, _) => {
            columns.push(*column);
        },
        Expr::FunctionCall { args, .. } => {
            collect_all_columns(args, columns);
        },
        Expr::Other { args, .. } => {
            collect_all_columns(args, columns);
        },
    }
    assert(columns@ =~= start + columns_of(expr@));
}

fn collect_all_columns(args: &Vec<Expr>, columns: &mut Vec<usize>)
    ensures
        final(columns)@ == old(columns)@ + columns_of_all(exprs_view(args@)),
    decreases args,
{
    let ghost start = columns@;
    let ghost models = exprs_view(args@);
    proof {
        lemma_exprs_view(args@);
        assert(models.take(0) =~= Seq::<ExprModel>::empty());
        assert(start + Seq::<usize>::empty() =~= start);
    }
    let mut i: usize = 0;
    while i < args.len()
        invariant
            i <= args@.len(),
            models.len() == args@.len(),
            models == exprs_view(args@),
            forall|k: int| 0 <= k < args@.len() ==> #[trigger] models[k] == expr_view(args@[k]),
            columns@ == start + columns_of_all(models.take(i as int)),
        decreases args@.len() - i,
    {
        assert(decreases_to!(args => args[i as int]));
        collect_columns(&args[i], columns);
        proof {
            let t = models.take(i + 1);
            assert(t.drop_last() =~= models.take(i as int));
            assert(t.last() == args@[i as int]@);
            assert(columns@ =~= start + columns_of_all(t));
        }
        i = i + 1;
    }
    assert(models.take(models.len() as int) =~= models);
}

} // verus!
