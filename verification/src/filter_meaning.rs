//! What a filter expression means, and that the simple filters compiled from it mean the same.

use std::cmp::Ordering;

use vstd::prelude::*;

use crate::expr::{comparison, compiled, compiled_all, is_fixed, not_null_column, ExprModel};
use crate::fast::{cell, row_satisfies, row_satisfies_all, scalar_ordering, FastPredicateModel};
use crate::predicate::{op_holds, op_named, reversed, BtreeIndexFastCompareOp};
use crate::scalar::ScalarModel;

verus! {

/// The value of a column or a constant in a row.
pub open spec fn operand(expr: ExprModel, row: Seq<ScalarModel>) -> Option<ScalarModel> {
    match expr {
        ExprModel::Constant(value, _) => Some(value),
        ExprModel::ColumnRef(column, _) => cell(row, column),
        _ => None,
    }
}

/// A comparison of two values holds: neither is null, and they stand to each other as it asks.
pub open spec fn compares(
    op: BtreeIndexFastCompareOp,
    left: Option<ScalarModel>,
    right: Option<ScalarModel>,
    direct: spec_fn(ScalarModel, ScalarModel) -> Option<Ordering>,
    as_float: spec_fn(ScalarModel, ScalarModel) -> Option<Ordering>,
) -> bool {
    match (left, right) {
        (Some(a), Some(b)) => {
            &&& !(a is Null)
            &&& !(b is Null)
            &&& match scalar_ordering(a, b, direct, as_float) {
                Some(ordering) => op_holds(op, ordering),
                None => false,
            }
        },
        _ => false,
    }
}

/// A filter expression is true of a row: a conjunction where all its parts are, a test for null or
/// for a value that is not null, or a comparison of a column with a constant.
pub open spec fn is_true(
    expr: ExprModel,
    row: Seq<ScalarModel>,
    direct: spec_fn(ScalarModel, ScalarModel) -> Option<Ordering>,
    as_float: spec_fn(ScalarModel, ScalarModel) -> Option<Ordering>,
) -> bool
    decreases expr,
{
    match expr {
        ExprModel::Constant(value, _) => value == ScalarModel::Boolean(true),
        ExprModel::FunctionCall { name, args, .. } => {
            if name == "and"@ || name == "and_filters"@ {
                all_true(args, row, direct, as_float)
            } else if name == "not"@ && args.len() == 1 {
                not_null_column(args[0]) matches Some(column) && cell(row, column) == Some(
                    ScalarModel::Null,
                )
            } else if name == "is_not_null"@ && args.len() == 1 {
                operand(args[0], row) matches Some(value) && !(value is Null)
            } else if op_named(name) is Some && args.len() == 2 {
                compares(
                    op_named(name)->Some_0,
                    operand(args[0], row),
                    operand(args[1], row),
                    direct,
                    as_float,
                )
            } else {
                false
            }
        },
        _ => false,
    }
}

/// All the expressions are true of a row.
pub open spec fn all_true(
    exprs: Seq<ExprModel>,
    row: Seq<ScalarModel>,
    direct: spec_fn(ScalarModel, ScalarModel) -> Option<Ordering>,
    as_float: spec_fn(ScalarModel, ScalarModel) -> Option<Ordering>,
) -> bool
    decreases exprs,
{
    exprs.len() == 0 || all_true(exprs.drop_last(), row, direct, as_float) && is_true(
        exprs.last(),
        row,
        direct,
        as_float,
    )
}

/// The null constant occurs in an expression.
pub open spec fn mentions_null(expr: ExprModel) -> bool
    decreases expr,
{
    match expr {
        ExprModel::Constant(value, _) => value is Null,
        ExprModel::ColumnRef(_, _) => false,
        ExprModel::FunctionCall { args, .. } => one_mentions_null(args),
        ExprModel::Other { args, .. } => one_mentions_null(args),
    }
}

/// The null constant occurs in one of the expressions.
pub open spec fn one_mentions_null(exprs: Seq<ExprModel>) -> bool
    decreases exprs,
{
    exprs.len() > 0 && (one_mentions_null(exprs.drop_last()) || mentions_null(exprs.last()))
}

/// Comparing two values the other way round turns the outcome around.
pub open spec fn turns_around(
    direct: spec_fn(ScalarModel, ScalarModel) -> Option<Ordering>,
    as_float: spec_fn(ScalarModel, ScalarModel) -> Option<Ordering>,
) -> bool {
    forall|a: ScalarModel, b: ScalarModel| #[trigger]
        scalar_ordering(b, a, direct, as_float) == (match scalar_ordering(a, b, direct, as_float) {
            Some(ordering) => Some(reversed(ordering)),
            None => None,
        })
}

/// The row has the values that the equality prefix fixes.
pub open spec fn has_fixed_values(
    row: Seq<ScalarModel>,
    equalities: Seq<(usize, ScalarModel)>,
    same: spec_fn(ScalarModel, ScalarModel) -> bool,
    direct: spec_fn(ScalarModel, ScalarModel) -> Option<Ordering>,
    as_float: spec_fn(ScalarModel, ScalarModel) -> Option<Ordering>,
) -> bool {
    forall|column: usize, constant: ScalarModel|
        !(constant is Null) && #[trigger] is_fixed(equalities, column, constant, same) ==> compares(
            BtreeIndexFastCompareOp::Eq,
            cell(row, column),
            Some(constant),
            direct,
            as_float,
        )
}

proof fn lemma_satisfies_concat(
    a: Seq<FastPredicateModel>,
    b: Seq<FastPredicateModel>,
    row: Seq<ScalarModel>,
    direct: spec_fn(ScalarModel, ScalarModel) -> Option<Ordering>,
    as_float: spec_fn(ScalarModel, ScalarModel) -> Option<Ordering>,
)
    ensures
        row_satisfies_all(a + b, row, direct, as_float) == (row_satisfies_all(
            a,
            row,
            direct,
            as_float,
        ) && row_satisfies_all(b, row, direct, as_float)),
{
    let whole = a + b;
    if row_satisfies_all(whole, row, direct, as_float) {
        assert forall|i: int| 0 <= i < a.len() implies row_satisfies(
            #[trigger] a[i],
            row,
            direct,
            as_float,
        ) by {
            assert(whole[i] == a[i]);
        }
        assert forall|i: int| 0 <= i < b.len() implies row_satisfies(
            #[trigger] b[i],
            row,
            direct,
            as_float,
        ) by {
            assert(whole[a.len() + i] == b[i]);
        }
    }
    if row_satisfies_all(a, row, direct, as_float) && row_satisfies_all(
        b,
        row,
        direct,
        as_float,
    ) {
        assert forall|i: int| 0 <= i < whole.len() implies row_satisfies(
            #[trigger] whole[i],
            row,
            direct,
            as_float,
        ) by {
            if i < a.len() {
                assert(whole[i] == a[i]);
            } else {
                assert(whole[i] == b[i - a.len()]);
            }
        }
    }
}

proof fn lemma_satisfies_one(
    predicate: FastPredicateModel,
    row: Seq<ScalarModel>,
    direct: spec_fn(ScalarModel, ScalarModel) -> Option<Ordering>,
    as_float: spec_fn(ScalarModel, ScalarModel) -> Option<Ordering>,
)
    ensures
        row_satisfies_all(seq![predicate], row, direct, as_float) == row_satisfies(
            predicate,
            row,
            direct,
            as_float,
        ),
{
    let one = seq![predicate];
    assert(one[0] == predicate);
}

/// The comparison of a column with a constant is that of the simple filter.
proof fn lemma_comparison_means(
    left: ExprModel,
    right: ExprModel,
    name: Seq<char>,
    row: Seq<ScalarModel>,
    direct: spec_fn(ScalarModel, ScalarModel) -> Option<Ordering>,
    as_float: spec_fn(ScalarModel, ScalarModel) -> Option<Ordering>,
)
    requires
        turns_around(direct, as_float),
        comparison(left, right, name) is Some,
    ensures
        ({
            let c = comparison(left, right, name)->Some_0;
            &&& op_named(name) is Some
            &&& compares(
                op_named(name)->Some_0,
                operand(left, row),
                operand(right, row),
                direct,
                as_float,
            ) == compares(c.2, cell(row, c.0), Some(c.1), direct, as_float)
            &&& row_satisfies(
                FastPredicateModel::Compare { column: c.0, op: c.2, constant: c.1 },
                row,
                direct,
                as_float,
            ) == compares(c.2, cell(row, c.0), Some(c.1), direct, as_float)
        }),
{
    let c = comparison(left, right, name)->Some_0;
    if left is Constant && cell(row, c.0) is Some {
        let value = cell(row, c.0)->Some_0;
        let forth = scalar_ordering(value, c.1, direct, as_float);
        let back = scalar_ordering(c.1, value, direct, as_float);
        assert(back is Some <==> forth is Some);
        if forth is Some {
            assert(back->Some_0 == reversed(forth->Some_0));
        }
    }
}

/// The simple filters that an expression is compiled to hold of every row that the expression is
/// true of. They hold of no other row that has the values of the equality prefix, unless the
/// expression compares with null.
pub proof fn law_compiled_filter_means_the_expression(
    expr: ExprModel,
    equalities: Seq<(usize, ScalarModel)>,
    same: spec_fn(ScalarModel, ScalarModel) -> bool,
    row: Seq<ScalarModel>,
    direct: spec_fn(ScalarModel, ScalarModel) -> Option<Ordering>,
    as_float: spec_fn(ScalarModel, ScalarModel) -> Option<Ordering>,
)
    requires
        compiled(expr, equalities, same) is Some,
        turns_around(direct, as_float),
        has_fixed_values(row, equalities, same, direct, as_float),
    ensures
        is_true(expr, row, direct, as_float) ==> row_satisfies_all(
            compiled(expr, equalities, same)->Some_0,
            row,
            direct,
            as_float,
        ),
        !mentions_null(expr) && row_satisfies_all(
            compiled(expr, equalities, same)->Some_0,
            row,
            direct,
            as_float,
        ) ==> is_true(expr, row, direct, as_float),
    decreases expr,
{
    let predicates = compiled(expr, equalities, same)->Some_0;
    match expr {
        ExprModel::FunctionCall { name, args, .. } => {
            if name == "and"@ || name == "and_filters"@ {
                lemma_compiled_all_means(args, equalities, same, row, direct, as_float);
            } else if name == "not"@ && args.len() == 1 {
                let column = not_null_column(args[0])->Some_0;
                lemma_satisfies_one(FastPredicateModel::IsNull { column }, row, direct, as_float);
            } else if name == "is_not_null"@ && args.len() == 1 {
                let column = args[0]->ColumnRef_0;
                lemma_satisfies_one(
                    FastPredicateModel::IsNotNull { column },
                    row,
                    direct,
                    as_float,
                );
            } else {
                let c = comparison(args[0], args[1], name)->Some_0;
                lemma_comparison_means(args[0], args[1], name, row, direct, as_float);
                lemma_pair_mentions_null(args);
                if c.2 == BtreeIndexFastCompareOp::Eq && is_fixed(equalities, c.0, c.1, same) {
                    if !mentions_null(expr) {
                        assert(!(c.1 is Null));
                    }
                } else {
                    lemma_satisfies_one(
                        FastPredicateModel::Compare { column: c.0, op: c.2, constant: c.1 },
                        row,
                        direct,
                        as_float,
                    );
                }
            }
        },
        _ => {},
    }
}

proof fn lemma_pair_mentions_null(args: Seq<ExprModel>)
    requires
        args.len() == 2,
    ensures
        one_mentions_null(args) == (mentions_null(args[0]) || mentions_null(args[1])),
{
    reveal_with_fuel(one_mentions_null, 3);
    assert(args.drop_last().last() == args[0]);
}

proof fn lemma_compiled_all_means(
    exprs: Seq<ExprModel>,
    equalities: Seq<(usize, ScalarModel)>,
    same: spec_fn(ScalarModel, ScalarModel) -> bool,
    row: Seq<ScalarModel>,
    direct: spec_fn(ScalarModel, ScalarModel) -> Option<Ordering>,
    as_float: spec_fn(ScalarModel, ScalarModel) -> Option<Ordering>,
)
    requires
        compiled_all(exprs, equalities, same) is Some,
        turns_around(direct, as_float),
        has_fixed_values(row, equalities, same, direct, as_float),
    ensures
        all_true(exprs, row, direct, as_float) ==> row_satisfies_all(
            compiled_all(exprs, equalities, same)->Some_0,
            row,
            direct,
            as_float,
        ),
        !one_mentions_null(exprs) && row_satisfies_all(
            compiled_all(exprs, equalities, same)->Some_0,
            row,
            direct,
            as_float,
        ) ==> all_true(exprs, row, direct, as_float),
    decreases exprs,
{
    if exprs.len() > 0 {
        lemma_compiled_all_means(exprs.drop_last(), equalities, same, row, direct, as_float);
        law_compiled_filter_means_the_expression(
            exprs.last(),
            equalities,
            same,
            row,
            direct,
            as_float,
        );
        lemma_satisfies_concat(
            compiled_all(exprs.drop_last(), equalities, same)->Some_0,
            compiled(exprs.last(), equalities, same)->Some_0,
            row,
            direct,
            as_float,
        );
    }
}

} // verus!
