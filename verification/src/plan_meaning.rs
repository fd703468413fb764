//! What the predicates of a plan mean, and that what is planned with them keeps their meaning.

use vstd::prelude::*;

use crate::scalar::ScalarModel;
use crate::scalar_expr::{conjoined, with_all_constants, with_constants, PlanExprModel};

verus! {

/// A row of a plan: what its columns hold, by their symbols, which values are equal, and what the
/// expressions give that are none of those whose meaning is told here.
pub struct PlanRow {
    pub column: spec_fn(usize) -> ScalarModel,
    pub same: spec_fn(ScalarModel, ScalarModel) -> bool,
    pub other: spec_fn(PlanExprModel) -> ScalarModel,
}

/// All the values are true where all are, and not where one is false; else it is unknown.
pub open spec fn all_of(values: Seq<ScalarModel>) -> ScalarModel {
    if exists|i: int| 0 <= i < values.len() && #[trigger] values[i] == ScalarModel::Boolean(false) {
        ScalarModel::Boolean(false)
    } else if forall|i: int|
        0 <= i < values.len() ==> #[trigger] values[i] == ScalarModel::Boolean(true) {
        ScalarModel::Boolean(true)
    } else {
        ScalarModel::Null
    }
}

/// One of the values is true where one is, and none where all are false; else it is unknown.
pub open spec fn one_of(values: Seq<ScalarModel>) -> ScalarModel {
    if exists|i: int| 0 <= i < values.len() && #[trigger] values[i] == ScalarModel::Boolean(true) {
        ScalarModel::Boolean(true)
    } else if forall|i: int|
        0 <= i < values.len() ==> #[trigger] values[i] == ScalarModel::Boolean(false) {
        ScalarModel::Boolean(false)
    } else {
        ScalarModel::Null
    }
}

/// What an expression gives for a row. A comparison with null is unknown, and so is the negation of
/// what is unknown.
pub open spec fn value_in(expr: PlanExprModel, row: PlanRow) -> ScalarModel
    decreases expr,
{
    match expr {
        PlanExprModel::Column(column) => (row.column)(column),
        PlanExprModel::Constant(value, _) => value,
        PlanExprModel::Call { func_name, arguments, .. } => {
            let values = values_in(arguments, row);
            if func_name == "and"@ || func_name == "and_filters"@ {
                all_of(values)
            } else if func_name == "or"@ {
                one_of(values)
            } else if func_name == "not"@ && arguments.len() == 1 {
                match values[0] {
                    ScalarModel::Boolean(b) => ScalarModel::Boolean(!b),
                    _ => ScalarModel::Null,
                }
            } else if func_name == "is_not_null"@ && arguments.len() == 1 {
                ScalarModel::Boolean(!(values[0] is Null))
            } else if func_name == "eq"@ && arguments.len() == 2 {
                if values[0] is Null || values[1] is Null {
                    ScalarModel::Null
                } else {
                    ScalarModel::Boolean((row.same)(values[0], values[1]))
                }
            } else {
                (row.other)(expr)
            }
        },
        PlanExprModel::Other { .. } => (row.other)(expr),
    }
}

/// What the expressions give for a row.
pub open spec fn values_in(exprs: Seq<PlanExprModel>, row: PlanRow) -> Seq<ScalarModel>
    decreases exprs,
{
    if exprs.len() == 0 {
        Seq::empty()
    } else {
        values_in(exprs.drop_last(), row).push(value_in(exprs.last(), row))
    }
}

/// The predicate is true of a row.
pub open spec fn holds(expr: PlanExprModel, row: PlanRow) -> bool {
    value_in(expr, row) == ScalarModel::Boolean(true)
}

/// All the predicates are true of a row.
pub open spec fn all_hold(exprs: Seq<PlanExprModel>, row: PlanRow) -> bool {
    forall|i: int| 0 <= i < exprs.len() ==> holds(#[trigger] exprs[i], row)
}

/// The expression is true of exactly those rows of which all the predicates are.
pub open spec fn is_conjunction_of(expr: PlanExprModel, predicates: Seq<PlanExprModel>) -> bool {
    forall|row: PlanRow| #[trigger] holds(expr, row) <==> all_hold(predicates, row)
}

/// What expressions give for a row is what each gives.
pub proof fn lemma_values_in(exprs: Seq<PlanExprModel>, row: PlanRow)
    ensures
        values_in(exprs, row).len() == exprs.len(),
        forall|i: int|
            0 <= i < exprs.len() ==> #[trigger] values_in(exprs, row)[i] == value_in(exprs[i], row),
    decreases exprs.len(),
{
    if exprs.len() > 0 {
        lemma_values_in(exprs.drop_last(), row);
        assert forall|i: int| 0 <= i < exprs.len() implies #[trigger] values_in(exprs, row)[i]
            == value_in(exprs[i], row) by {
            if i < exprs.len() - 1 {
                assert(exprs.drop_last()[i] == exprs[i]);
            }
        }
    }
}

/// A conjunction is true of the rows of which all its arguments are.
pub proof fn lemma_conjunction_holds(
    func_name: Seq<char>,
    params: Seq<ScalarModel>,
    arguments: Seq<PlanExprModel>,
    row: PlanRow,
)
    requires
        func_name == "and"@ || func_name == "and_filters"@,
    ensures
        holds(PlanExprModel::Call { func_name, params, arguments }, row) <==> all_hold(
            arguments,
            row,
        ),
{
    let values = values_in(arguments, row);
    lemma_values_in(arguments, row);
    if all_hold(arguments, row) {
        assert forall|i: int| 0 <= i < values.len() implies #[trigger] values[i]
            == ScalarModel::Boolean(true) by {
            assert(holds(arguments[i], row));
        }
    }
    if all_of(values) == ScalarModel::Boolean(true) {
        assert forall|i: int| 0 <= i < arguments.len() implies holds(
            #[trigger] arguments[i],
            row,
        ) by {
            assert(values[i] == ScalarModel::Boolean(true));
        }
    }
}

/// Predicates that are joined one by one are true of the rows of which all of them are.
pub proof fn lemma_joined_is_conjunction(exprs: Seq<PlanExprModel>, func_name: Seq<char>)
    requires
        exprs.len() > 0,
        func_name == "and"@ || func_name == "and_filters"@,
    ensures
        is_conjunction_of(conjoined(exprs, func_name), exprs),
    decreases exprs.len(),
{
    if exprs.len() == 1 {
        assert forall|row: PlanRow| #[trigger] holds(conjoined(exprs, func_name), row) <==> all_hold(
            exprs,
            row,
        ) by {
            assert(exprs[0] == conjoined(exprs, func_name));
        }
    } else {
        let head = exprs.drop_last();
        lemma_joined_is_conjunction(head, func_name);
        let joined = conjoined(head, func_name);
        let arguments = seq![joined, exprs.last()];
        assert forall|row: PlanRow| #[trigger] holds(conjoined(exprs, func_name), row) <==> all_hold(
            exprs,
            row,
        ) by {
            lemma_conjunction_holds(func_name, Seq::empty(), arguments, row);
            assert(arguments[0] == joined && arguments[1] == exprs.last());
            assert(holds(joined, row) <==> all_hold(head, row));
            if all_hold(arguments, row) {
                assert(holds(arguments[0], row) && holds(arguments[1], row));
                assert forall|i: int| 0 <= i < exprs.len() implies holds(#[trigger] exprs[i], row) by {
                    if i < exprs.len() - 1 {
                        assert(head[i] == exprs[i]);
                    }
                }
            }
            if all_hold(exprs, row) {
                assert(holds(exprs[exprs.len() - 1], row));
                assert forall|i: int| 0 <= i < head.len() implies holds(#[trigger] head[i], row) by {
                    assert(head[i] == exprs[i]);
                }
            }
        }
    }
}

/// The column of a row has this value: null where it is null, else one that equals it.
pub open spec fn has_value(row: PlanRow, column: usize, value: ScalarModel) -> bool {
    let held = (row.column)(column);
    if value is Null {
        held is Null
    } else {
        !(held is Null) && (row.same)(held, value)
    }
}

/// The columns of a row have these values.
pub open spec fn has_values(row: PlanRow, constants: Map<usize, ScalarModel>) -> bool {
    forall|column: usize| #[trigger]
        constants.contains_key(column) ==> has_value(row, column, constants[column])
}

/// Which of two values comes first does not matter to their being equal.
pub open spec fn is_symmetric(row: PlanRow) -> bool {
    forall|a: ScalarModel, b: ScalarModel| #[trigger] (row.same)(a, b) == (row.same)(b, a)
}

/// Every column that a predicate fixes has, in every row that the predicate is true of, the value
/// that the predicate fixes it to: null for a test for null.
pub proof fn law_fixed_columns_have_their_values(
    expr: PlanExprModel,
    known: Map<usize, ScalarModel>,
    row: PlanRow,
)
    requires
        holds(expr, row),
        is_symmetric(row),
        has_values(row, known),
    ensures
        has_values(row, with_constants(expr, known)),
    decreases expr, 0nat,
{
    match expr {
        PlanExprModel::Call { func_name, params, arguments } => {
            lemma_values_in(arguments, row);
            if func_name == "and"@ || func_name == "and_filters"@ {
                lemma_conjunction_holds(func_name, params, arguments, row);
                law_all_fixed_columns_have_their_values(arguments, known, row);
            } else {
                lemma_fixed_has_value(expr, known, row);
            }
        },
        _ => {},
    }
}

proof fn lemma_names_differ()
    ensures
        "and"@ != "or"@ && "and"@ != "not"@ && "and"@ != "eq"@ && "and"@ != "is_not_null"@,
        "and_filters"@ != "or"@ && "and_filters"@ != "not"@ && "and_filters"@ != "eq"@,
        "and_filters"@ != "is_not_null"@,
        "or"@ != "not"@ && "or"@ != "eq"@ && "or"@ != "is_not_null"@,
        "not"@ != "eq"@ && "not"@ != "is_not_null"@ && "eq"@ != "is_not_null"@,
{
    reveal_strlit("and");
    reveal_strlit("and_filters");
    reveal_strlit("or");
    reveal_strlit("not");
    reveal_strlit("eq");
    reveal_strlit("is_not_null");
    assert("and"@[0] == 'a' && "and_filters"@[0] == 'a' && "or"@[0] == 'o');
    assert("not"@[0] == 'n' && "eq"@[0] == 'e' && "is_not_null"@[0] == 'i');
}

proof fn lemma_fixed_has_value(
    expr: PlanExprModel,
    known: Map<usize, ScalarModel>,
    row: PlanRow,
)
    requires
        expr is Call,
        !(expr->func_name == "and"@ || expr->func_name == "and_filters"@),
        holds(expr, row),
        is_symmetric(row),
        has_values(row, known),
    ensures
        has_values(row, with_constants(expr, known)),
{
    lemma_names_differ();
    let arguments = expr->arguments;
    let values = values_in(arguments, row);
    lemma_values_in(arguments, row);
    if expr->func_name == "not"@ && arguments.len() == 1 {
        assert(values[0] == value_in(arguments[0], row));
        if arguments[0] is Call {
            let inner = arguments[0]->arguments;
            lemma_values_in(inner, row);
            if inner.len() == 1 {
                assert(values_in(inner, row)[0] == value_in(inner[0], row));
            }
        }
    } else if expr->func_name == "eq"@ && arguments.len() == 2 {
        assert(values[0] == value_in(arguments[0], row));
        assert(values[1] == value_in(arguments[1], row));
        assert((row.same)(values[0], values[1]) == (row.same)(values[1], values[0]));
    }
}

/// Every column that one of several predicates fixes has, in every row that all of them are true
/// of, the value that it is fixed to.
pub proof fn law_all_fixed_columns_have_their_values(
    exprs: Seq<PlanExprModel>,
    known: Map<usize, ScalarModel>,
    row: PlanRow,
)
    requires
        all_hold(exprs, row),
        is_symmetric(row),
        has_values(row, known),
    ensures
        has_values(row, with_all_constants(exprs, known)),
    decreases exprs, 1nat,
{
    if exprs.len() > 0 {
        let head = exprs.drop_last();
        assert forall|i: int| 0 <= i < head.len() implies holds(#[trigger] head[i], row) by {
            assert(head[i] == exprs[i]);
        }
        law_all_fixed_columns_have_their_values(head, known, row);
        assert(holds(exprs[exprs.len() - 1], row));
        law_fixed_columns_have_their_values(
            exprs.last(),
            with_all_constants(head, known),
            row,
        );
    }
}

} // verus!
