//! What an expression gives, whatever its functions do, and that moving it to other columns keeps it.

use std::cmp::Ordering;

use vstd::prelude::*;

use crate::expr::{columns_of, columns_of_all, not_null_column, projected, projected_all, ExprModel};
use crate::fast::cell;
use crate::filter_meaning::{all_true, is_true, operand};
use crate::scalar::{ScalarModel, TableDataType};

verus! {

/// What constants, functions and other expressions give.
pub struct ExprHost {
    pub constant: spec_fn(ScalarModel, TableDataType) -> ScalarModel,
    pub call: spec_fn(Seq<char>, u32, Seq<ScalarModel>) -> ScalarModel,
    pub other: spec_fn(u32, Seq<ScalarModel>) -> ScalarModel,
}

/// What an expression gives, where its columns hold these values.
pub open spec fn expr_value(
    expr: ExprModel,
    host: ExprHost,
    column: spec_fn(usize, TableDataType) -> ScalarModel,
) -> ScalarModel
    decreases expr,
{
    match expr {
        ExprModel::Constant(value, data_type) => (host.constant)(value, data_type),
        ExprModel::ColumnRef(c, data_type) => column(c, data_type),
        ExprModel::FunctionCall { name, overload, args } => (host.call)(
            name,
            overload,
            expr_values(args, host, column),
        ),
        ExprModel::Other { kind, args } => (host.other)(kind, expr_values(args, host, column)),
    }
}

/// What the expressions give.
pub open spec fn expr_values(
    exprs: Seq<ExprModel>,
    host: ExprHost,
    column: spec_fn(usize, TableDataType) -> ScalarModel,
) -> Seq<ScalarModel>
    decreases exprs,
{
    if exprs.len() == 0 {
        Seq::empty()
    } else {
        expr_values(exprs.drop_last(), host, column).push(expr_value(exprs.last(), host, column))
    }
}

/// The columns before a move hold what the columns hold that they are moved to.
pub open spec fn holds_moved(
    columns: Seq<Option<usize>>,
    before: spec_fn(usize, TableDataType) -> ScalarModel,
    after: spec_fn(usize, TableDataType) -> ScalarModel,
) -> bool {
    forall|c: usize, data_type: TableDataType|
        c < columns.len() && columns[c as int] is Some ==> #[trigger] before(c, data_type) == after(
            columns[c as int]->Some_0,
            data_type,
        )
}

/// An expression that is moved to other columns gives what it gave, whatever its functions do.
pub proof fn law_moved_expression_gives_the_same(
    expr: ExprModel,
    columns: Seq<Option<usize>>,
    host: ExprHost,
    before: spec_fn(usize, TableDataType) -> ScalarModel,
    after: spec_fn(usize, TableDataType) -> ScalarModel,
)
    requires
        projected(expr, columns) is Ok,
        holds_moved(columns, before, after),
    ensures
        expr_value(projected(expr, columns)->Ok_0, host, after) == expr_value(expr, host, before),
    decreases expr,
{
    match expr {
        ExprModel::ColumnRef(c, data_type) => {
            assert(before(c, data_type) == after(columns[c as int]->Some_0, data_type));
        },
        ExprModel::FunctionCall { args, .. } => {
            lemma_moved_all(args, columns, host, before, after);
        },
        ExprModel::Other { args, .. } => {
            lemma_moved_all(args, columns, host, before, after);
        },
        _ => {},
    }
}

proof fn lemma_moved_all(
    exprs: Seq<ExprModel>,
    columns: Seq<Option<usize>>,
    host: ExprHost,
    before: spec_fn(usize, TableDataType) -> ScalarModel,
    after: spec_fn(usize, TableDataType) -> ScalarModel,
)
    requires
        projected_all(exprs, columns) is Ok,
        holds_moved(columns, before, after),
    ensures
        expr_values(projected_all(exprs, columns)->Ok_0, host, after) == expr_values(
            exprs,
            host,
            before,
        ),
    decreases exprs,
{
    if exprs.len() > 0 {
        lemma_moved_all(exprs.drop_last(), columns, host, before, after);
        law_moved_expression_gives_the_same(exprs.last(), columns, host, before, after);
        let moved = projected_all(exprs, columns)->Ok_0;
        assert(moved.drop_last() =~= projected_all(exprs.drop_last(), columns)->Ok_0);
    }
}

/// An expression cannot be moved exactly where it has a column that is moved nowhere; the error is
/// such a column.
pub proof fn law_unmoved_column_is_told(expr: ExprModel, columns: Seq<Option<usize>>)
    ensures
        match projected(expr, columns) {
            Ok(_) => forall|c: usize| #[trigger]
                columns_of(expr).contains(c) ==> c < columns.len() && columns[c as int] is Some,
            Err(c) => columns_of(expr).contains(c) && !(c < columns.len() && columns[c as int]
                is Some),
        },
    decreases expr,
{
    match expr {
        ExprModel::ColumnRef(column, _) => {
            let over = columns_of(expr);
            assert(over[0] == column);
            assert(over.contains(column));
            assert forall|c: usize| #[trigger] over.contains(c) implies c == column by {
                let i = choose|i: int| 0 <= i < over.len() && over[i] == c;
                assert(i == 0);
            }
        },
        ExprModel::FunctionCall { args, .. } => {
            assert(columns_of(expr) == columns_of_all(args));
            lemma_unmoved_of_all(args, columns);
        },
        ExprModel::Other { args, .. } => {
            assert(columns_of(expr) == columns_of_all(args));
            lemma_unmoved_of_all(args, columns);
        },
        _ => {},
    }
}

proof fn lemma_unmoved_of_all(exprs: Seq<ExprModel>, columns: Seq<Option<usize>>)
    ensures
        match projected_all(exprs, columns) {
            Ok(_) => forall|c: usize| #[trigger]
                columns_of_all(exprs).contains(c) ==> c < columns.len() && columns[c as int] is Some,
            Err(c) => columns_of_all(exprs).contains(c) && !(c < columns.len()
                && columns[c as int] is Some),
        },
    decreases exprs,
{
    if exprs.len() > 0 {
        let a = columns_of_all(exprs.drop_last());
        let b = columns_of(exprs.last());
        lemma_unmoved_of_all(exprs.drop_last(), columns);
        law_unmoved_column_is_told(exprs.last(), columns);
        lemma_concat_contains(a, b);
    }
}

proof fn lemma_concat_contains(a: Seq<usize>, b: Seq<usize>)
    ensures
        forall|c: usize| #[trigger] (a + b).contains(c) <==> a.contains(c) || b.contains(c),
{
    assert forall|c: usize| #[trigger] (a + b).contains(c) <==> a.contains(c) || b.contains(c) by {
        if a.contains(c) {
            let i = choose|i: int| 0 <= i < a.len() && a[i] == c;
            assert((a + b)[i] == c);
        }
        if b.contains(c) {
            let i = choose|i: int| 0 <= i < b.len() && b[i] == c;
            assert((a + b)[a.len() + i] == c);
        }
    }
}

/// What an expression gives depends on the columns that it is over, and on no others.
pub proof fn law_expression_depends_on_its_columns(
    expr: ExprModel,
    host: ExprHost,
    a: spec_fn(usize, TableDataType) -> ScalarModel,
    b: spec_fn(usize, TableDataType) -> ScalarModel,
)
    requires
        forall|c: usize, data_type: TableDataType|
            columns_of(expr).contains(c) ==> #[trigger] a(c, data_type) == b(c, data_type),
    ensures
        expr_value(expr, host, a) == expr_value(expr, host, b),
    decreases expr,
{
    match expr {
        ExprModel::ColumnRef(column, data_type) => {
            assert(columns_of(expr)[0] == column);
            assert(columns_of(expr).contains(column));
            assert(a(column, data_type) == b(column, data_type));
        },
        ExprModel::FunctionCall { args, .. } => {
            assert(columns_of(expr) == columns_of_all(args));
            lemma_values_depend_on_columns(args, host, a, b);
        },
        ExprModel::Other { args, .. } => {
            assert(columns_of(expr) == columns_of_all(args));
            lemma_values_depend_on_columns(args, host, a, b);
        },
        _ => {},
    }
}

proof fn lemma_values_depend_on_columns(
    exprs: Seq<ExprModel>,
    host: ExprHost,
    a: spec_fn(usize, TableDataType) -> ScalarModel,
    b: spec_fn(usize, TableDataType) -> ScalarModel,
)
    requires
        forall|c: usize, data_type: TableDataType|
            columns_of_all(exprs).contains(c) ==> #[trigger] a(c, data_type) == b(c, data_type),
    ensures
        expr_values(exprs, host, a) == expr_values(exprs, host, b),
    decreases exprs,
{
    if exprs.len() > 0 {
        let x = columns_of_all(exprs.drop_last());
        let y = columns_of(exprs.last());
        lemma_concat_contains(x, y);
        assert(columns_of_all(exprs) == x + y);
        lemma_values_depend_on_columns(exprs.drop_last(), host, a, b);
        law_expression_depends_on_its_columns(exprs.last(), host, a, b);
    }
}

/// The row before a move has the values of the columns that its columns are moved to.
pub open spec fn is_row_moved(
    columns: Seq<Option<usize>>,
    before: Seq<ScalarModel>,
    after: Seq<ScalarModel>,
) -> bool {
    forall|c: usize|
        c < columns.len() && #[trigger] columns[c as int] is Some ==> cell(before, c) == cell(
            after,
            columns[c as int]->Some_0,
        )
}

/// A filter expression that is moved to other columns is true of the rows that it was true of.
pub proof fn law_moved_filter_is_true_of_the_same(
    expr: ExprModel,
    columns: Seq<Option<usize>>,
    before: Seq<ScalarModel>,
    after: Seq<ScalarModel>,
    direct: spec_fn(ScalarModel, ScalarModel) -> Option<Ordering>,
    as_float: spec_fn(ScalarModel, ScalarModel) -> Option<Ordering>,
)
    requires
        projected(expr, columns) is Ok,
        is_row_moved(columns, before, after),
    ensures
        is_true(projected(expr, columns)->Ok_0, after, direct, as_float) == is_true(
            expr,
            before,
            direct,
            as_float,
        ),
    decreases expr,
{
    match expr {
        ExprModel::FunctionCall { name, args, .. } => {
            let moved = projected_all(args, columns)->Ok_0;
            lemma_projected_each(args, columns);
            lemma_moved_all_true(args, columns, before, after, direct, as_float);
            if args.len() >= 1 {
                assert(projected(args[0], columns) == Ok::<_, usize>(moved[0]));
                lemma_moved_operand(args[0], columns, before, after);
                lemma_moved_null_test(args[0], columns);
                match not_null_column(args[0]) {
                    Some(c) => {
                        lemma_moved_cell(columns, before, after, c);
                    },
                    None => {},
                }
            }
            if args.len() == 2 {
                assert(projected(args[1], columns) == Ok::<_, usize>(moved[1]));
                lemma_moved_operand(args[1], columns, before, after);
            }
        },
        _ => {},
    }
}

proof fn lemma_moved_cell(
    columns: Seq<Option<usize>>,
    before: Seq<ScalarModel>,
    after: Seq<ScalarModel>,
    c: usize,
)
    requires
        is_row_moved(columns, before, after),
        c < columns.len(),
        columns[c as int] is Some,
    ensures
        cell(before, c) == cell(after, columns[c as int]->Some_0),
{
}

proof fn lemma_moved_null_test(expr: ExprModel, columns: Seq<Option<usize>>)
    requires
        projected(expr, columns) is Ok,
    ensures
        match not_null_column(expr) {
            Some(c) => c < columns.len() && columns[c as int] is Some && not_null_column(
                projected(expr, columns)->Ok_0,
            ) == columns[c as int],
            None => not_null_column(projected(expr, columns)->Ok_0) is None,
        },
{
    match expr {
        ExprModel::FunctionCall { args, .. } => {
            lemma_projected_each(args, columns);
            if args.len() == 1 {
                let moved = projected_all(args, columns)->Ok_0;
                assert(projected(args[0], columns) == Ok::<_, usize>(moved[0]));
            }
        },
        _ => {},
    }
}

proof fn lemma_moved_operand(
    expr: ExprModel,
    columns: Seq<Option<usize>>,
    before: Seq<ScalarModel>,
    after: Seq<ScalarModel>,
)
    requires
        projected(expr, columns) is Ok,
        is_row_moved(columns, before, after),
    ensures
        operand(projected(expr, columns)->Ok_0, after) == operand(expr, before),
{
    match expr {
        ExprModel::ColumnRef(c, _) => {
            assert(columns[c as int] is Some);
        },
        _ => {},
    }
}

proof fn lemma_projected_each(exprs: Seq<ExprModel>, columns: Seq<Option<usize>>)
    requires
        projected_all(exprs, columns) is Ok,
    ensures
        projected_all(exprs, columns)->Ok_0.len() == exprs.len(),
        forall|i: int|
            0 <= i < exprs.len() ==> projected(#[trigger] exprs[i], columns) == Ok::<_, usize>(
                projected_all(exprs, columns)->Ok_0[i],
            ),
    decreases exprs.len(),
{
    if exprs.len() > 0 {
        lemma_projected_each(exprs.drop_last(), columns);
        assert forall|i: int| 0 <= i < exprs.len() implies projected(#[trigger] exprs[i], columns)
            == Ok::<_, usize>(projected_all(exprs, columns)->Ok_0[i]) by {
            if i < exprs.len() - 1 {
                assert(exprs.drop_last()[i] == exprs[i]);
            }
        }
    }
}

proof fn lemma_moved_all_true(
    exprs: Seq<ExprModel>,
    columns: Seq<Option<usize>>,
    before: Seq<ScalarModel>,
    after: Seq<ScalarModel>,
    direct: spec_fn(ScalarModel, ScalarModel) -> Option<Ordering>,
    as_float: spec_fn(ScalarModel, ScalarModel) -> Option<Ordering>,
)
    requires
        projected_all(exprs, columns) is Ok,
        is_row_moved(columns, before, after),
    ensures
        all_true(projected_all(exprs, columns)->Ok_0, after, direct, as_float) == all_true(
            exprs,
            before,
            direct,
            as_float,
        ),
    decreases exprs,
{
    if exprs.len() > 0 {
        let head = exprs.drop_last();
        lemma_moved_all_true(head, columns, before, after, direct, as_float);
        law_moved_filter_is_true_of_the_same(
            exprs.last(),
            columns,
            before,
            after,
            direct,
            as_float,
        );
        let moved = projected_all(exprs, columns)->Ok_0;
        assert(moved.drop_last() =~= projected_all(head, columns)->Ok_0);
    }
}

} // verus!
