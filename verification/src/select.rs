//! Applying the filter of a scan to rows, and turning decoded payloads into columns.

use std::cmp::Ordering;

use vstd::prelude::*;

use crate::expr::Expr;
use crate::fast::{asked_of_all, evaluate_btree_fast_predicates, fast_predicates_view,
    row_satisfies_all, BtreeIndexFastPredicate, FastPredicateModel};
use crate::filter::{BtreeIndexFilter, BtreeScanError};
use crate::predicate::{evaluate_btree_key_predicates, key_predicates_view, key_satisfies_all,
    BtreeIndexKeyPredicate, KeyPredicateModel};
use crate::rows::{clone_marked_row_refs, clone_row_refs, limited_rows, marked_rows, refs_view,
    search_ends};
use crate::scalar::{clone_scalar, lemma_scalars_view, scalar_view, scalars_view, Scalar,
    ScalarModel, TableField};
use crate::types::{rows_view, BtreeIndexRow, RowModel};

verus! {

/// Columns of values, all with one value for each row.
#[derive(Debug)]
pub struct PayloadBlock {
    pub num_rows: usize,
    pub columns: Vec<Vec<Scalar>>,
}

/// The model of columns of values: the number of rows and the columns.
pub type PayloadModel = (nat, Seq<Seq<ScalarModel>>);

/// The values of a sequence of rows, or of columns.
pub open spec fn table_view(table: Seq<Vec<Scalar>>) -> Seq<Seq<ScalarModel>> {
    Seq::new(table.len(), |i: int| scalars_view(table[i]@))
}

impl View for PayloadBlock {
    type V = PayloadModel;

    open spec fn view(&self) -> PayloadModel {
        (self.num_rows as nat, table_view(self.columns@))
    }
}

/// The first row that does not have `width` values.
pub open spec fn is_first_misfit(rows: Seq<Seq<ScalarModel>>, width: int, i: int) -> bool {
    &&& 0 <= i < rows.len()
    &&& rows[i].len() != width
    &&& forall|k: int| 0 <= k < i ==> (#[trigger] rows[k]).len() == width
}

/// The rows as columns.
pub open spec fn transposed(rows: Seq<Seq<ScalarModel>>, width: nat) -> Seq<Seq<ScalarModel>> {
    Seq::new(width, |c: int| Seq::new(rows.len(), |i: int| rows[i][c]))
}

/// What turning rows into columns gives.
pub open spec fn block_outcome(
    rows: Seq<Seq<ScalarModel>>,
    width: nat,
    outcome: Result<PayloadModel, BtreeScanError>,
) -> bool {
    if width == 0 {
        if exists|i: int| 0 <= i < rows.len() && (#[trigger] rows[i]).len() > 0 {
            outcome == Err::<PayloadModel, _>(BtreeScanError::UnexpectedPayload)
        } else {
            outcome == Ok::<_, BtreeScanError>((rows.len(), Seq::<Seq<ScalarModel>>::empty()))
        }
    } else if exists|i: int| is_first_misfit(rows, width as int, i) {
        exists|i: int| #[trigger]
            is_first_misfit(rows, width as int, i) && outcome == Err::<PayloadModel, _>(
                BtreeScanError::InvalidPayloadWidth {
                    width: rows[i].len() as usize,
                    expected: width as usize,
                },
            )
    } else {
        outcome == Ok::<_, BtreeScanError>((rows.len(), transposed(rows, width)))
    }
}

/// One column of the rows.
fn column_of(rows: &Vec<Vec<Scalar>>, column: usize, Ghost(width): Ghost<int>) -> (r: Vec<Scalar>)
    requires
        column < width,
        forall|i: int| 0 <= i < rows@.len() ==> (#[trigger] rows@[i])@.len() == width,
    ensures
        scalars_view(r@) == Seq::new(
            rows@.len(),
            |i: int| table_view(rows@)[i][column as int],
        ),
{
    let mut r: Vec<Scalar> = Vec::new();
    let mut i: usize = 0;
    while i < rows.len()
        invariant
            column < width,
            forall|k: int| 0 <= k < rows@.len() ==> (#[trigger] rows@[k])@.len() == width,
            i <= rows@.len(),
            r@.len() == i,
            forall|k: int|
                0 <= k < i ==> scalar_view(#[trigger] r@[k]) == scalar_view(
                    rows@[k]@[column as int],
                ),
        decreases rows@.len() - i,
    {
        assert(rows@[i as int]@.len() == width);
        r.push(clone_scalar(&rows[i][column]));
        i = i + 1;
    }
    proof {
        lemma_scalars_view(r@);
        assert forall|k: int| 0 <= k < rows@.len() implies scalars_view(r@)[k] == #[trigger] (
        table_view(rows@)[k])[column as int] by {
            lemma_scalars_view(rows@[k]@);
            assert(rows@[k]@.len() == width);
            assert(scalars_view(r@)[k] == scalar_view(r@[k]));
        }
        assert(scalars_view(r@) =~= Seq::new(
            rows@.len(),
            |i: int| table_view(rows@)[i][column as int],
        ));
    }
    r
}

/// Turns decoded rows into columns, one for each field.
pub fn payload_rows_to_block(payload_fields: &Vec<TableField>, rows: &Vec<Vec<Scalar>>) -> (r:
    Result<PayloadBlock, BtreeScanError>)
    ensures
        block_outcome(
            table_view(rows@),
            payload_fields@.len(),
            match r {
                Ok(block) => Ok(block@),
                Err(e) => Err(e),
            },
        ),
{
    let ghost models = table_view(rows@);
    let width: usize = payload_fields.len();
    let mut i: usize = 0;
    while i < rows.len()
        invariant
            i <= rows@.len(),
            models == table_view(rows@),
            width == payload_fields@.len(),
            forall|k: int| 0 <= k < i ==> (#[trigger] models[k]).len() == width,
            forall|k: int| 0 <= k < i ==> (#[trigger] rows@[k])@.len() == width,
        decreases rows@.len() - i,
    {
        proof {
            lemma_scalars_view(rows@[i as int]@);
            assert(models[i as int].len() == rows@[i as int]@.len());
        }
        if rows[i].len() != width {
            assert(is_first_misfit(models, width as int, i as int));
            if width == 0 {
                return Err(BtreeScanError::UnexpectedPayload);
            }
            return Err(
                BtreeScanError::InvalidPayloadWidth { width: rows[i].len(), expected: width },
            );
        }
        i = i + 1;
    }
    let mut columns: Vec<Vec<Scalar>> = Vec::new();
    let mut c: usize = 0;
    while c < width
        invariant
            c <= width,
            models == table_view(rows@),
            forall|k: int| 0 <= k < rows@.len() ==> (#[trigger] rows@[k])@.len() == width,
            columns@.len() == c,
            forall|k: int|
                0 <= k < c ==> scalars_view((#[trigger] columns@[k])@) == transposed(
                    models,
                    width as nat,
                )[k],
        decreases width - c,
    {
        let column = column_of(rows, c, Ghost(width as int));
        assert(scalars_view(column@) =~= transposed(models, width as nat)[c as int]);
        columns.push(column);
        c = c + 1;
    }
    proof {
        assert(table_view(columns@) =~= transposed(models, width as nat));
        if width == 0 {
            assert(table_view(columns@) =~= Seq::<Seq<ScalarModel>>::empty());
        }
    }
    Ok(PayloadBlock { num_rows: rows.len(), columns })
}

/// What the host makes of a filter expression: one answer for all rows, or one for each.
#[derive(Debug)]
pub enum FilterValue {
    All(bool),
    Each(Vec<bool>),
}

/// The model of what the host makes of a filter expression.
pub enum FilterValueModel {
    All(bool),
    Each(Seq<bool>),
}

/// The model of an optional answer.
pub open spec fn opt_value_view(value: Option<FilterValue>) -> Option<FilterValueModel> {
    match value {
        None => None,
        Some(FilterValue::All(b)) => Some(FilterValueModel::All(b)),
        Some(FilterValue::Each(marks)) => Some(FilterValueModel::Each(marks@)),
    }
}

/// The values of an optional row.
pub open spec fn opt_row_view(row: Option<Vec<Scalar>>) -> Option<Seq<ScalarModel>> {
    match row {
        Some(values) => Some(scalars_view(values@)),
        None => None,
    }
}

/// The host decodes columns of a payload as this function does.
pub open spec fn decodes_by<P: Fn(&Vec<u8>, &Vec<usize>) -> Option<Vec<Scalar>>>(
    decode: P,
    rule: spec_fn(Seq<u8>, Seq<usize>) -> Option<Seq<ScalarModel>>,
) -> bool {
    forall|payload: &Vec<u8>, columns: &Vec<usize>, r: Option<Vec<Scalar>>| #[trigger]
        call_ensures(decode, (payload, columns), r) ==> opt_row_view(r) == rule(
            payload@,
            columns@,
        )
}

/// The host may answer so when it evaluates an expression over these columns.
pub open spec fn may_answer<V: Fn(&Expr, &PayloadBlock) -> Option<FilterValue>>(
    evaluate: V,
    expr: Expr,
    columns: PayloadModel,
    answer: Option<FilterValue>,
) -> bool {
    exists|block: PayloadBlock|
        block@ == columns && #[trigger] call_ensures(evaluate, (&expr, &block), answer)
}

/// The rows that pass, in their order, until the limit ends the search or a row cannot be judged.
pub open spec fn searched(
    rows: Seq<RowModel>,
    pass: spec_fn(RowModel) -> Result<bool, BtreeScanError>,
    limit: Option<usize>,
) -> Result<Seq<RowModel>, BtreeScanError>
    decreases rows.len(),
{
    if rows.len() == 0 {
        Ok(Seq::empty())
    } else {
        match searched(rows.drop_last(), pass, limit) {
            Err(e) => Err(e),
            Ok(found) => if search_ends(found.len(), limit) {
                Ok(found)
            } else {
                match pass(rows.last()) {
                    Err(e) => Err(e),
                    Ok(true) => Ok(found.push(rows.last())),
                    Ok(false) => Ok(found),
                }
            },
        }
    }
}

proof fn lemma_searched_done(
    rows: Seq<RowModel>,
    pass: spec_fn(RowModel) -> Result<bool, BtreeScanError>,
    limit: Option<usize>,
    i: int,
)
    requires
        0 <= i <= rows.len(),
        match searched(rows.take(i), pass, limit) {
            Err(_) => true,
            Ok(found) => search_ends(found.len(), limit),
        },
    ensures
        searched(rows, pass, limit) == searched(rows.take(i), pass, limit),
    decreases rows.len() - i,
{
    if i < rows.len() {
        assert(rows.take(i + 1).drop_last() =~= rows.take(i));
        lemma_searched_done(rows, pass, limit, i + 1);
    } else {
        assert(rows.take(i) =~= rows);
    }
}

/// Whether a row passes filters on its key.
pub open spec fn key_pass(keys: Seq<KeyPredicateModel>) -> spec_fn(RowModel) -> Result<
    bool,
    BtreeScanError,
> {
    |row: RowModel| Ok(key_satisfies_all(keys, row.0))
}

/// Whether a row passes filters on its key and, decoded, filters on its payload.
pub open spec fn fast_pass(
    keys: Seq<KeyPredicateModel>,
    predicates: Seq<FastPredicateModel>,
    columns: Seq<usize>,
    decode: spec_fn(Seq<u8>, Seq<usize>) -> Option<Seq<ScalarModel>>,
    direct: spec_fn(ScalarModel, ScalarModel) -> Option<Ordering>,
    as_float: spec_fn(ScalarModel, ScalarModel) -> Option<Ordering>,
) -> spec_fn(RowModel) -> Result<bool, BtreeScanError> {
    |row: RowModel|
        if !key_satisfies_all(keys, row.0) {
            Ok(false)
        } else {
            match decode(row.1, columns) {
                None => Err(BtreeScanError::DecodePayload),
                Some(values) => Ok(row_satisfies_all(predicates, values, direct, as_float)),
            }
        }
}

/// The decoded columns of all rows, where every row can be decoded.
pub open spec fn decoded_all(
    rows: Seq<RowModel>,
    columns: Seq<usize>,
    decode: spec_fn(Seq<u8>, Seq<usize>) -> Option<Seq<ScalarModel>>,
) -> Option<Seq<Seq<ScalarModel>>>
    decreases rows.len(),
{
    if rows.len() == 0 {
        Some(Seq::empty())
    } else {
        match decoded_all(rows.drop_last(), columns, decode) {
            None => None,
            Some(before) => match decode(rows.last().1, columns) {
                None => None,
                Some(values) => Some(before.push(values)),
            },
        }
    }
}

proof fn lemma_decoded_all_fails(
    rows: Seq<RowModel>,
    columns: Seq<usize>,
    decode: spec_fn(Seq<u8>, Seq<usize>) -> Option<Seq<ScalarModel>>,
    i: int,
)
    requires
        0 <= i <= rows.len(),
        decoded_all(rows.take(i), columns, decode) is None,
    ensures
        decoded_all(rows, columns, decode) is None,
    decreases rows.len() - i,
{
    if i < rows.len() {
        assert(rows.take(i + 1).drop_last() =~= rows.take(i));
        lemma_decoded_all_fails(rows, columns, decode, i + 1);
    } else {
        assert(rows.take(i) =~= rows);
    }
}

/// What the answer to a filter expression makes of rows.
pub open spec fn answered_rows(
    rows: Seq<RowModel>,
    limit: Option<usize>,
    answer: Option<FilterValueModel>,
) -> Result<Seq<RowModel>, BtreeScanError> {
    match answer {
        None => Err(BtreeScanError::Evaluate),
        Some(FilterValueModel::All(true)) => Ok(limited_rows(rows, limit)),
        Some(FilterValueModel::All(false)) => Ok(Seq::empty()),
        Some(FilterValueModel::Each(marks)) => Ok(marked_rows(rows, marks, limit)),
    }
}

/// What the host's answer to a filter expression, evaluated once over the columns of all rows, makes
/// of the rows.
pub open spec fn evaluation_gives<V: Fn(&Expr, &PayloadBlock) -> Option<FilterValue>>(
    rows: Seq<RowModel>,
    limit: Option<usize>,
    expr: Expr,
    columns: PayloadModel,
    evaluate: V,
    outcome: Result<Seq<RowModel>, BtreeScanError>,
) -> bool {
    exists|answer: Option<FilterValue>| #[trigger]
        may_answer(evaluate, expr, columns, answer) && outcome == answered_rows(
            rows,
            limit,
            opt_value_view(answer),
        )
}

/// What a filter that is an expression makes of rows, given their decoded values.
pub open spec fn expression_gives<V: Fn(&Expr, &PayloadBlock) -> Option<FilterValue>>(
    rows: Seq<RowModel>,
    table: Seq<Seq<ScalarModel>>,
    width: nat,
    limit: Option<usize>,
    expr: Option<Expr>,
    evaluate: V,
    outcome: Result<Seq<RowModel>, BtreeScanError>,
) -> bool {
    exists|block: Result<PayloadModel, BtreeScanError>|
        #[trigger] block_outcome(table, width, block) && match block {
            Err(e) => outcome == Err::<Seq<RowModel>, _>(e),
            Ok(columns) => match expr {
                None => outcome == Err::<Seq<RowModel>, _>(BtreeScanError::MissingExpression),
                Some(expr) => evaluation_gives(rows, limit, expr, columns, evaluate, outcome),
            },
        }
}

/// The rows of a result, or its error.
pub open spec fn rows_result(r: Result<Vec<BtreeIndexRow>, BtreeScanError>) -> Result<
    Seq<RowModel>,
    BtreeScanError,
> {
    match r {
        Ok(rows) => Ok(rows_view(rows@)),
        Err(e) => Err(e),
    }
}

/// Copies of the rows whose keys pass the filters, until the limit ends the search.
pub fn clone_matching_row_refs(
    rows: &Vec<&BtreeIndexRow>,
    limit: Option<usize>,
    key_predicates: &Vec<BtreeIndexKeyPredicate>,
) -> (r: Vec<BtreeIndexRow>)
    ensures
        searched(refs_view(rows@), key_pass(key_predicates_view(key_predicates@)), limit) == Ok::<
            _,
            BtreeScanError,
        >(rows_view(r@)),
{
    let ghost models = refs_view(rows@);
    let ghost pass = key_pass(key_predicates_view(key_predicates@));
    let mut r: Vec<BtreeIndexRow> = Vec::new();
    let mut i: usize = 0;
    assert(models.take(0) =~= Seq::<RowModel>::empty());
    assert(rows_view(r@) =~= Seq::<RowModel>::empty());
    while i < rows.len()
        invariant
            i <= rows@.len(),
            models == refs_view(rows@),
            pass == key_pass(key_predicates_view(key_predicates@)),
            searched(models.take(i as int), pass, limit) == Ok::<_, BtreeScanError>(
                rows_view(r@),
            ),
            !search_ends(r@.len(), limit),
        decreases rows@.len() - i,
    {
        let row: &BtreeIndexRow = rows[i];
        let ghost before = r@;
        proof {
            let t = models.take(i + 1);
            assert(t.drop_last() =~= models.take(i as int));
            assert(t.last() == row@);
            assert(rows_view(r@).len() == r@.len());
        }
        if evaluate_btree_key_predicates(key_predicates, row.encoded_key.as_slice()) {
            r.push(row.clone());
            assert(rows_view(r@) =~= rows_view(before).push(row@));
            assert(rows_view(r@).len() == r@.len());
            if let Some(n) = limit {
                if r.len() >= n {
                    proof {
                        lemma_searched_done(models, pass, limit, i + 1);
                    }
                    return r;
                }
            }
        }
        i = i + 1;
    }
    assert(models.take(models.len() as int) =~= models);
    r
}

/// Copies of the rows that pass the filters on key and payload, until the limit ends the search or a
/// payload cannot be decoded.
fn clone_passing_row_refs<
    P: Fn(&Vec<u8>, &Vec<usize>) -> Option<Vec<Scalar>>,
    D: Fn(&Scalar, &Scalar) -> Option<Ordering>,
    N: Fn(&Scalar, &Scalar) -> Option<Ordering>,
>(
    rows: &Vec<&BtreeIndexRow>,
    filter: &BtreeIndexFilter,
    predicates: &Vec<BtreeIndexFastPredicate>,
    limit: Option<usize>,
    decode: &P,
    direct: &D,
    as_float: &N,
) -> (r: Result<Vec<BtreeIndexRow>, BtreeScanError>)
    requires
        forall|a: &Vec<u8>, b: &Vec<usize>| call_requires(*decode, (a, b)),
        forall|a: &Scalar, b: &Scalar| call_requires(*direct, (a, b)),
        forall|a: &Scalar, b: &Scalar| call_requires(*as_float, (a, b)),
    ensures
        forall|
            c: spec_fn(Seq<u8>, Seq<usize>) -> Option<Seq<ScalarModel>>,
            d: spec_fn(ScalarModel, ScalarModel) -> Option<Ordering>,
            n: spec_fn(ScalarModel, ScalarModel) -> Option<Ordering>,
        |
            #[trigger] decodes_by(*decode, c) && #[trigger] asked_of_all(
                fast_predicates_view(predicates@),
                *direct,
                *as_float,
                d,
                n,
            ) ==> rows_result(r) == searched(
                refs_view(rows@),
                fast_pass(
                    key_predicates_view(filter.key_predicates@),
                    fast_predicates_view(predicates@),
                    filter.payload_field_indexes@,
                    c,
                    d,
                    n,
                ),
                limit,
            ),
{
    let ghost models = refs_view(rows@);
    let ghost keys = key_predicates_view(filter.key_predicates@);
    let ghost tests = fast_predicates_view(predicates@);
    let ghost columns = filter.payload_field_indexes@;
    let mut found: Vec<BtreeIndexRow> = Vec::new();
    let mut i: usize = 0;
    assert(models.take(0) =~= Seq::<RowModel>::empty());
    assert(rows_view(found@) =~= Seq::<RowModel>::empty());
    while i < rows.len()
        invariant
            forall|a: &Vec<u8>, b: &Vec<usize>| call_requires(*decode, (a, b)),
            forall|a: &Scalar, b: &Scalar| call_requires(*direct, (a, b)),
            forall|a: &Scalar, b: &Scalar| call_requires(*as_float, (a, b)),
            i <= rows@.len(),
            models == refs_view(rows@),
            keys == key_predicates_view(filter.key_predicates@),
            tests == fast_predicates_view(predicates@),
            columns == filter.payload_field_indexes@,
            !search_ends(found@.len(), limit),
            forall|
                c: spec_fn(Seq<u8>, Seq<usize>) -> Option<Seq<ScalarModel>>,
                d: spec_fn(ScalarModel, ScalarModel) -> Option<Ordering>,
                n: spec_fn(ScalarModel, ScalarModel) -> Option<Ordering>,
            |
                #[trigger] decodes_by(*decode, c) && #[trigger] asked_of_all(
                    tests,
                    *direct,
                    *as_float,
                    d,
                    n,
                ) ==> searched(
                    models.take(i + 0),
                    fast_pass(keys, tests, columns, c, d, n),
                    limit,
                ) == Ok::<_, BtreeScanError>(rows_view(found@)),
        decreases rows@.len() - i,
    {
        let row: &BtreeIndexRow = rows[i];
        let ghost before = found@;
        proof {
            let t = models.take(i + 1);
            assert(t.drop_last() =~= models.take(i + 0));
            assert(t.last() == row@);
            assert(rows_view(found@).len() == found@.len());
        }
        if evaluate_btree_key_predicates(&filter.key_predicates, row.encoded_key.as_slice()) {
            let answer = decode(&row.encoded_row_payload, &filter.payload_field_indexes);
            match answer {
                None => {
                    assert forall|
                        c: spec_fn(Seq<u8>, Seq<usize>) -> Option<Seq<ScalarModel>>,
                        d: spec_fn(ScalarModel, ScalarModel) -> Option<Ordering>,
                        n: spec_fn(ScalarModel, ScalarModel) -> Option<Ordering>,
                    |
                        #[trigger] decodes_by(*decode, c) && #[trigger] asked_of_all(
                            tests,
                            *direct,
                            *as_float,
                            d,
                            n,
                        ) implies searched(
                        models,
                        fast_pass(keys, tests, columns, c, d, n),
                        limit,
                    ) == Err::<Seq<RowModel>, _>(BtreeScanError::DecodePayload) by {
                        let pass = fast_pass(keys, tests, columns, c, d, n);
                        assert(pass(row@) == Err::<bool, _>(BtreeScanError::DecodePayload));
                        lemma_searched_done(models, pass, limit, i + 1);
                    }
                    return Err(BtreeScanError::DecodePayload);
                },
                Some(values) => {
                    if evaluate_btree_fast_predicates(predicates, &values, direct, as_float) {
                        found.push(row.clone());
                        assert(rows_view(found@) =~= rows_view(before).push(row@));
                        assert(rows_view(found@).len() == found@.len());
                        if let Some(most) = limit {
                            if found.len() >= most {
                                assert forall|
                                    c: spec_fn(Seq<u8>, Seq<usize>) -> Option<Seq<ScalarModel>>,
                                    d: spec_fn(ScalarModel, ScalarModel) -> Option<Ordering>,
                                    n: spec_fn(ScalarModel, ScalarModel) -> Option<Ordering>,
                                |
                                    #[trigger] decodes_by(*decode, c)
                                        && #[trigger] asked_of_all(
                                        tests,
                                        *direct,
                                        *as_float,
                                        d,
                                        n,
                                    ) implies searched(
                                    models,
                                    fast_pass(keys, tests, columns, c, d, n),
                                    limit,
                                ) == Ok::<_, BtreeScanError>(rows_view(found@)) by {
                                    let pass = fast_pass(keys, tests, columns, c, d, n);
                                    assert(pass(row@) == Ok::<bool, BtreeScanError>(true));
                                    lemma_searched_done(models, pass, limit, i + 1);
                                }
                                return Ok(found);
                            }
                        }
                    }
                },
            }
        }
        assert forall|
            c: spec_fn(Seq<u8>, Seq<usize>) -> Option<Seq<ScalarModel>>,
            d: spec_fn(ScalarModel, ScalarModel) -> Option<Ordering>,
            n: spec_fn(ScalarModel, ScalarModel) -> Option<Ordering>,
        |
            #[trigger] decodes_by(*decode, c) && #[trigger] asked_of_all(
                tests,
                *direct,
                *as_float,
                d,
                n,
            ) implies searched(
            models.take(i + 1),
            fast_pass(keys, tests, columns, c, d, n),
            limit,
        ) == Ok::<_, BtreeScanError>(rows_view(found@)) by {
            let pass = fast_pass(keys, tests, columns, c, d, n);
            assert(pass(row@) is Ok);
        }
        i = i + 1;
    }
    assert(models.take(i + 0) =~= models);
    Ok(found)
}

/// What a filter makes of rows. The host is asked to decode only where the filter reads payloads,
/// to compare only where it has tests on them, and to evaluate only where it is an expression.
pub open spec fn filtering_gives<
    P: Fn(&Vec<u8>, &Vec<usize>) -> Option<Vec<Scalar>>,
    D: Fn(&Scalar, &Scalar) -> Option<Ordering>,
    N: Fn(&Scalar, &Scalar) -> Option<Ordering>,
    V: Fn(&Expr, &PayloadBlock) -> Option<FilterValue>,
>(
    rows: Seq<RowModel>,
    filter: BtreeIndexFilter,
    limit: Option<usize>,
    decode: P,
    direct: D,
    as_float: N,
    evaluate: V,
    outcome: Result<Seq<RowModel>, BtreeScanError>,
) -> bool {
    let keys = key_predicates_view(filter.key_predicates@);
    let columns = filter.payload_field_indexes@;
    if rows.len() == 0 {
        outcome == Ok::<_, BtreeScanError>(Seq::<RowModel>::empty())
    } else {
        match filter.fast() {
            Some(predicates) => if predicates.len() == 0 {
                outcome == searched(rows, key_pass(keys), limit)
            } else {
                forall|
                    c: spec_fn(Seq<u8>, Seq<usize>) -> Option<Seq<ScalarModel>>,
                    d: spec_fn(ScalarModel, ScalarModel) -> Option<Ordering>,
                    n: spec_fn(ScalarModel, ScalarModel) -> Option<Ordering>,
                |
                    #[trigger] decodes_by(decode, c) && #[trigger] asked_of_all(
                        predicates,
                        direct,
                        as_float,
                        d,
                        n,
                    ) ==> outcome == searched(
                        rows,
                        fast_pass(keys, predicates, columns, c, d, n),
                        limit,
                    )
            },
            None => forall|c: spec_fn(Seq<u8>, Seq<usize>) -> Option<Seq<ScalarModel>>| #[trigger]
                decodes_by(decode, c) ==> match decoded_all(rows, columns, c) {
                    None => outcome == Err::<Seq<RowModel>, _>(BtreeScanError::DecodePayload),
                    Some(table) => expression_gives(
                        rows,
                        table,
                        filter.payload_fields@.len(),
                        limit,
                        filter.expr,
                        evaluate,
                        outcome,
                    ),
                },
        }
    }
}

/// The decoded columns of all rows; `None` where a payload cannot be decoded.
fn decode_all<P: Fn(&Vec<u8>, &Vec<usize>) -> Option<Vec<Scalar>>>(
    rows: &Vec<&BtreeIndexRow>,
    columns: &Vec<usize>,
    decode: &P,
) -> (r: Option<Vec<Vec<Scalar>>>)
    requires
        forall|a: &Vec<u8>, b: &Vec<usize>| call_requires(*decode, (a, b)),
    ensures
        forall|c: spec_fn(Seq<u8>, Seq<usize>) -> Option<Seq<ScalarModel>>| #[trigger]
            decodes_by(*decode, c) ==> match r {
                Some(table) => decoded_all(refs_view(rows@), columns@, c) == Some(
                    table_view(table@),
                ),
                None => decoded_all(refs_view(rows@), columns@, c) is None,
            },
{
    let ghost models = refs_view(rows@);
    let mut table: Vec<Vec<Scalar>> = Vec::new();
    let mut i: usize = 0;
    assert(models.take(0) =~= Seq::<RowModel>::empty());
    assert(table_view(table@) =~= Seq::<Seq<ScalarModel>>::empty());
    while i < rows.len()
        invariant
            forall|a: &Vec<u8>, b: &Vec<usize>| call_requires(*decode, (a, b)),
            i <= rows@.len(),
            models == refs_view(rows@),
            forall|c: spec_fn(Seq<u8>, Seq<usize>) -> Option<Seq<ScalarModel>>| #[trigger]
                decodes_by(*decode, c) ==> decoded_all(models.take(i as int), columns@, c) == Some(
                    table_view(table@),
                ),
        decreases rows@.len() - i,
    {
        let row: &BtreeIndexRow = rows[i];
        let ghost before = table@;
        proof {
            let t = models.take(i + 1);
            assert(t.drop_last() =~= models.take(i as int));
            assert(t.last() == row@);
        }
        match decode(&row.encoded_row_payload, columns) {
            None => {
                assert forall|c: spec_fn(Seq<u8>, Seq<usize>) -> Option<Seq<ScalarModel>>|
                    #[trigger] decodes_by(*decode, c) implies decoded_all(models, columns@, c)
                    is None by {
                    lemma_decoded_all_fails(models, columns@, c, i + 1);
                }
                return None;
            },
            Some(values) => {
                table.push(values);
                assert(table_view(table@) =~= table_view(before).push(scalars_view(values@)));
            },
        }
        i = i + 1;
    }
    assert(models.take(models.len() as int) =~= models);
    Some(table)
}

/// Copies of the rows that pass a filter that is an expression, given their decoded values.
fn filter_by_expression<V: Fn(&Expr, &PayloadBlock) -> Option<FilterValue>>(
    rows: &Vec<&BtreeIndexRow>,
    filter: &BtreeIndexFilter,
    table: &Vec<Vec<Scalar>>,
    limit: Option<usize>,
    evaluate: &V,
) -> (r: Result<Vec<BtreeIndexRow>, BtreeScanError>)
    requires
        forall|a: &Expr, b: &PayloadBlock| call_requires(*evaluate, (a, b)),
    ensures
        expression_gives(
            refs_view(rows@),
            table_view(table@),
            filter.payload_fields@.len(),
            limit,
            filter.expr,
            *evaluate,
            rows_result(r),
        ),
{
    let block = match payload_rows_to_block(&filter.payload_fields, table) {
        Err(e) => {
            assert(block_outcome(
                table_view(table@),
                filter.payload_fields@.len(),
                Err::<PayloadModel, _>(e),
            ));
            return Err(e);
        },
        Ok(block) => block,
    };
    assert(block_outcome(
        table_view(table@),
        filter.payload_fields@.len(),
        Ok::<PayloadModel, BtreeScanError>(block@),
    ));
    let expr = match &filter.expr {
        None => {
            return Err(BtreeScanError::MissingExpression);
        },
        Some(expr) => expr,
    };
    let answer = evaluate(expr, &block);
    assert(may_answer(*evaluate, *expr, block@, answer));
    let r = match &answer {
        None => Err(BtreeScanError::Evaluate),
        Some(FilterValue::All(true)) => Ok(clone_row_refs(rows, limit)),
        Some(FilterValue::All(false)) => {
            let none: Vec<BtreeIndexRow> = Vec::new();
            assert(rows_view(none@) =~= Seq::<RowModel>::empty());
            Ok(none)
        },
        Some(FilterValue::Each(marks)) => Ok(clone_marked_row_refs(rows, marks, limit)),
    };
    assert(rows_result(r) == answered_rows(refs_view(rows@), limit, opt_value_view(answer)));
    assert(evaluation_gives(refs_view(rows@), limit, *expr, block@, *evaluate, rows_result(r)));
    r
}

/// Copies of the rows that pass the filter. The host decodes columns of payloads, compares values,
/// and evaluates filter expressions.
pub fn filter_index_row_refs<
    P: Fn(&Vec<u8>, &Vec<usize>) -> Option<Vec<Scalar>>,
    D: Fn(&Scalar, &Scalar) -> Option<Ordering>,
    N: Fn(&Scalar, &Scalar) -> Option<Ordering>,
    V: Fn(&Expr, &PayloadBlock) -> Option<FilterValue>,
>(
    rows: &Vec<&BtreeIndexRow>,
    filter: &BtreeIndexFilter,
    limit: Option<usize>,
    decode: &P,
    direct: &D,
    as_float: &N,
    evaluate: &V,
) -> (r: Result<Vec<BtreeIndexRow>, BtreeScanError>)
    requires
        forall|a: &Vec<u8>, b: &Vec<usize>| call_requires(*decode, (a, b)),
        forall|a: &Scalar, b: &Scalar| call_requires(*direct, (a, b)),
        forall|a: &Scalar, b: &Scalar| call_requires(*as_float, (a, b)),
        forall|a: &Expr, b: &PayloadBlock| call_requires(*evaluate, (a, b)),
    ensures
        filtering_gives(
            refs_view(rows@),
            *filter,
            limit,
            *decode,
            *direct,
            *as_float,
            *evaluate,
            rows_result(r),
        ),
{
    let ghost models = refs_view(rows@);
    if rows.len() == 0 {
        let none: Vec<BtreeIndexRow> = Vec::new();
        assert(rows_view(none@) =~= Seq::<RowModel>::empty());
        return Ok(none);
    }
    if let Some(predicates) = &filter.fast_predicates {
        if predicates.len() == 0 {
            return Ok(clone_matching_row_refs(rows, limit, &filter.key_predicates));
        }
        return clone_passing_row_refs(rows, filter, predicates, limit, decode, direct, as_float);
    }
    let table = match decode_all(rows, &filter.payload_field_indexes, decode) {
        None => {
            return Err(BtreeScanError::DecodePayload);
        },
        Some(table) => table,
    };
    filter_by_expression(rows, filter, &table, limit, evaluate)
}

} // verus!
