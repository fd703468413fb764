//! Filters on the columns of a payload, and which of them the key can answer.

use std::cmp::Ordering;

use vstd::prelude::*;

use crate::error::BtreeIndexError;
use crate::key::{component_at, component_bytes, encode_key_component_value, framed};
use crate::normalize::{normalize_key_filter_constant, normalized};
use crate::predicate::{int_ordering, key_predicates_view, op_holds};
use crate::predicate::{evaluate_btree_ordering, BtreeIndexFastCompareOp, BtreeIndexKeyPredicate,
    BtreeIndexKeyPredicateKind, KeyPredicateKindModel, KeyPredicateModel};
use crate::scalar::{clone_scalar, integer_of, lemma_scalars_view, scalars_view};
use crate::scalar::{Scalar, ScalarModel, TableDataType};
use crate::types::BtreeIndexKeyOrder;

verus! {

/// A filter on a column of the payload.
#[derive(Debug)]
pub enum BtreeIndexFastPredicate {
    IsNull { column: usize },
    IsNotNull { column: usize },
    Compare { column: usize, op: BtreeIndexFastCompareOp, constant: Scalar },
}

/// The model of a filter on a column of the payload.
pub enum FastPredicateModel {
    IsNull { column: usize },
    IsNotNull { column: usize },
    Compare { column: usize, op: BtreeIndexFastCompareOp, constant: ScalarModel },
}

impl View for BtreeIndexFastPredicate {
    type V = FastPredicateModel;

    open spec fn view(&self) -> FastPredicateModel {
        match self {
            BtreeIndexFastPredicate::IsNull { column } => FastPredicateModel::IsNull {
                column: *column,
            },
            BtreeIndexFastPredicate::IsNotNull { column } => FastPredicateModel::IsNotNull {
                column: *column,
            },
            BtreeIndexFastPredicate::Compare { column, op, constant } =>
                FastPredicateModel::Compare { column: *column, op: *op, constant: constant@ },
        }
    }
}

impl Clone for BtreeIndexFastPredicate {
    fn clone(&self) -> (r: Self)
        ensures
            r@ == self@,
    {
        match self {
            BtreeIndexFastPredicate::IsNull { column } => BtreeIndexFastPredicate::IsNull {
                column: *column,
            },
            BtreeIndexFastPredicate::IsNotNull { column } => BtreeIndexFastPredicate::IsNotNull {
                column: *column,
            },
            BtreeIndexFastPredicate::Compare { column, op, constant } =>
                BtreeIndexFastPredicate::Compare {
                column: *column,
                op: *op,
                constant: clone_scalar(constant),
            },
        }
    }
}

/// The models of filters on the payload.
pub open spec fn fast_predicates_view(predicates: Seq<BtreeIndexFastPredicate>) -> Seq<
    FastPredicateModel,
> {
    Seq::new(predicates.len(), |i: int| predicates[i]@)
}

/// What the key says of a column that is one of its components.
#[derive(Clone, Copy, Debug, PartialEq, Eq, Structural)]
pub struct BtreeIndexKeyField {
    pub component_index: usize,
    pub order: BtreeIndexKeyOrder,
    pub data_type: TableDataType,
}

impl FastPredicateModel {
    /// The column that the filter is on.
    pub open spec fn column(self) -> usize {
        match self {
            FastPredicateModel::IsNull { column } => column,
            FastPredicateModel::IsNotNull { column } => column,
            FastPredicateModel::Compare { column, .. } => column,
        }
    }

    /// The same filter on another column.
    pub open spec fn on(self, column: usize) -> FastPredicateModel {
        match self {
            FastPredicateModel::IsNull { .. } => FastPredicateModel::IsNull { column },
            FastPredicateModel::IsNotNull { .. } => FastPredicateModel::IsNotNull { column },
            FastPredicateModel::Compare { op, constant, .. } => FastPredicateModel::Compare {
                column,
                op,
                constant,
            },
        }
    }
}

/// The first position at which an index stands.
pub open spec fn position_of(indexes: Seq<usize>, index: usize) -> Option<int>
    decreases indexes.len(),
{
    if indexes.len() == 0 {
        None
    } else if indexes[0] == index {
        Some(0)
    } else {
        match position_of(indexes.skip(1), index) {
            None => None,
            Some(i) => Some(i + 1),
        }
    }
}

/// An index that occurs has a position.
pub proof fn lemma_position_of(indexes: Seq<usize>, index: usize)
    ensures
        match position_of(indexes, index) {
            Some(i) => 0 <= i < indexes.len() && indexes[i] == index && forall|j: int|
                0 <= j < i ==> #[trigger] indexes[j] != index,
            None => !indexes.contains(index),
        },
    decreases indexes.len(),
{
    if indexes.len() > 0 && indexes[0] != index {
        let rest = indexes.skip(1);
        lemma_position_of(rest, index);
        match position_of(rest, index) {
            Some(i) => {
                assert forall|j: int| 0 <= j < i + 1 implies #[trigger] indexes[j] != index by {
                    if j > 0 {
                        assert(rest[j - 1] == indexes[j]);
                    }
                }
            },
            None => {
                if indexes.contains(index) {
                    let j = choose|j: int| 0 <= j < indexes.len() && indexes[j] == index;
                    assert(rest[j - 1] == index);
                }
            },
        }
    }
}

/// Finds the first position at which an index stands.
pub fn find_position(indexes: &Vec<usize>, index: usize) -> (r: Option<usize>)
    ensures
        match r {
            Some(i) => position_of(indexes@, index) == Some(i as int),
            None => position_of(indexes@, index) is None,
        },
{
    let mut i: usize = 0;
    proof {
        assert(indexes@.skip(0) =~= indexes@);
    }
    while i < indexes.len()
        invariant
            i <= indexes@.len(),
            position_of(indexes@, index) == (match position_of(indexes@.skip(i as int), index) {
                None => None,
                Some(k) => Some(k + i),
            }),
        decreases indexes@.len() - i,
    {
        if indexes[i] == index {
            return Some(i);
        }
        proof {
            assert(indexes@.skip(i as int).skip(1) =~= indexes@.skip(i + 1));
        }
        i = i + 1;
    }
    None
}

impl BtreeIndexFastPredicate {
    /// The column that the filter is on.
    pub fn column(&self) -> (r: usize)
        ensures
            r == self@.column(),
    {
        match self {
            BtreeIndexFastPredicate::IsNull { column } => *column,
            BtreeIndexFastPredicate::IsNotNull { column } => *column,
            BtreeIndexFastPredicate::Compare { column, .. } => *column,
        }
    }

    /// The filter on the position at which its column stands among the decoded ones; `None` where
    /// the column is not among them.
    pub fn remap(self, payload_field_indexes: &Vec<usize>) -> (r: Option<Self>)
        ensures
            match r {
                Some(predicate) => position_of(payload_field_indexes@, self@.column()) matches Some(
                    i,
                ) && 0 <= i <= usize::MAX && predicate@ == self@.on(i as usize),
                None => position_of(payload_field_indexes@, self@.column()) is None,
            },
    {
        let column: usize = match find_position(payload_field_indexes, self.column()) {
            Some(column) => column,
            None => {
                return None;
            },
        };
        match self {
            BtreeIndexFastPredicate::IsNull { .. } => Some(
                BtreeIndexFastPredicate::IsNull { column },
            ),
            BtreeIndexFastPredicate::IsNotNull { .. } => Some(
                BtreeIndexFastPredicate::IsNotNull { column },
            ),
            BtreeIndexFastPredicate::Compare { op, constant, .. } => Some(
                BtreeIndexFastPredicate::Compare { column, op, constant },
            ),
        }
    }
}

/// What a key holds for a value, by what is read back from its frame.
pub open spec fn encoded_component(scalar: ScalarModel, order: BtreeIndexKeyOrder) -> Result<
    Seq<u8>,
    BtreeIndexError,
> {
    match component_at(framed(component_bytes(scalar, order)), 0) {
        Some(component) => Ok(component),
        None => Err(BtreeIndexError::EncodeComponent),
    }
}

/// The filter on the key that stands for a filter on a column of the key; none where the column's
/// type cannot hold the constant.
pub open spec fn key_filter_of(predicate: FastPredicateModel, field: BtreeIndexKeyField) -> Result<
    Option<KeyPredicateModel>,
    BtreeIndexError,
> {
    match encoded_component(ScalarModel::Null, field.order) {
        Err(e) => Err(e),
        Ok(null_component) => match predicate {
            FastPredicateModel::IsNull { .. } => Ok(
                Some(
                    KeyPredicateModel {
                        component_index: field.component_index,
                        order: field.order,
                        kind: KeyPredicateKindModel::IsNull { null_component },
                    },
                ),
            ),
            FastPredicateModel::IsNotNull { .. } => Ok(
                Some(
                    KeyPredicateModel {
                        component_index: field.component_index,
                        order: field.order,
                        kind: KeyPredicateKindModel::IsNotNull { null_component },
                    },
                ),
            ),
            FastPredicateModel::Compare { op, constant, .. } => match normalized(
                constant,
                field.data_type.kind,
            ) {
                None => Ok(None),
                Some(c) => match encoded_component(c, field.order) {
                    Err(e) => Err(e),
                    Ok(constant_component) => Ok(
                        Some(
                            KeyPredicateModel {
                                component_index: field.component_index,
                                order: field.order,
                                kind: KeyPredicateKindModel::Compare {
                                    op,
                                    constant_component,
                                    null_component,
                                },
                            },
                        ),
                    ),
                },
            },
        },
    }
}

impl BtreeIndexFastPredicate {
    /// The filter on the key that stands for this filter; none where the column's type cannot hold
    /// the constant.
    pub fn try_into_key_predicate(self, key_field: &BtreeIndexKeyField) -> (r: Result<
        Option<BtreeIndexKeyPredicate>,
        BtreeIndexError,
    >)
        ensures
            match r {
                Ok(Some(predicate)) => key_filter_of(self@, *key_field) == Ok::<
                    _,
                    BtreeIndexError,
                >(Some(predicate@)),
                Ok(None) => key_filter_of(self@, *key_field) == Ok::<
                    Option<KeyPredicateModel>,
                    BtreeIndexError,
                >(None),
                Err(e) => key_filter_of(self@, *key_field) == Err::<Option<KeyPredicateModel>, _>(
                    e,
                ),
            },
    {
        let null_component = match encode_key_component_value(&Scalar::Null, key_field.order) {
            Ok(component) => component,
            Err(e) => {
                return Err(e);
            },
        };
        let kind = match self {
            BtreeIndexFastPredicate::IsNull { .. } => BtreeIndexKeyPredicateKind::IsNull {
                null_component,
            },
            BtreeIndexFastPredicate::IsNotNull { .. } => BtreeIndexKeyPredicateKind::IsNotNull {
                null_component,
            },
            BtreeIndexFastPredicate::Compare { op, constant, .. } => {
                let constant = match normalize_key_filter_constant(
                    &constant,
                    &key_field.data_type,
                ) {
                    Some(constant) => constant,
                    None => {
                        return Ok(None);
                    },
                };
                let constant_component = match encode_key_component_value(
                    &constant,
                    key_field.order,
                ) {
                    Ok(component) => component,
                    Err(e) => {
                        return Err(e);
                    },
                };
                BtreeIndexKeyPredicateKind::Compare { op, constant_component, null_component }
            },
        };
        Ok(
            Some(
                BtreeIndexKeyPredicate {
                    component_index: key_field.component_index,
                    order: key_field.order,
                    kind,
                },
            ),
        )
    }
}

/// What the key says of a column, where it is one of the components.
pub open spec fn key_field_at(key_fields: Seq<Option<BtreeIndexKeyField>>, column: usize) -> Option<
    BtreeIndexKeyField,
> {
    if column < key_fields.len() {
        key_fields[column as int]
    } else {
        None
    }
}

/// The filters parted into those that the key answers and those that are left to the payload, each
/// in their order.
pub open spec fn parted(
    predicates: Seq<FastPredicateModel>,
    key_fields: Seq<Option<BtreeIndexKeyField>>,
) -> Result<(Seq<KeyPredicateModel>, Seq<FastPredicateModel>), BtreeIndexError>
    decreases predicates.len(),
{
    if predicates.len() == 0 {
        Ok((Seq::empty(), Seq::empty()))
    } else {
        let last = predicates.last();
        match parted(predicates.drop_last(), key_fields) {
            Err(e) => Err(e),
            Ok(before) => match key_field_at(key_fields, last.column()) {
                None => Ok((before.0, before.1.push(last))),
                Some(field) => match key_filter_of(last, field) {
                    Err(e) => Err(e),
                    Ok(None) => Ok((before.0, before.1.push(last))),
                    Ok(Some(filter)) => Ok((before.0.push(filter), before.1)),
                },
            },
        }
    }
}

proof fn lemma_parted_fails(
    predicates: Seq<FastPredicateModel>,
    key_fields: Seq<Option<BtreeIndexKeyField>>,
    i: int,
)
    requires
        0 <= i <= predicates.len(),
        parted(predicates.take(i), key_fields) is Err,
    ensures
        parted(predicates, key_fields) is Err,
        parted(predicates, key_fields)->Err_0 == parted(predicates.take(i), key_fields)->Err_0,
    decreases predicates.len() - i,
{
    if i < predicates.len() {
        assert(predicates.take(i + 1).drop_last() =~= predicates.take(i));
        lemma_parted_fails(predicates, key_fields, i + 1);
    } else {
        assert(predicates.take(i) =~= predicates);
    }
}

/// Parts the filters into those that the key answers and those that are left to the payload.
pub fn split_btree_fast_predicates(
    predicates: &Vec<BtreeIndexFastPredicate>,
    key_fields: &Vec<Option<BtreeIndexKeyField>>,
) -> (r: Result<
    (Vec<BtreeIndexKeyPredicate>, Option<Vec<BtreeIndexFastPredicate>>),
    BtreeIndexError,
>)
    ensures
        match r {
            Ok(split) => split.1 is Some && parted(
                fast_predicates_view(predicates@),
                key_fields@,
            ) == Ok::<_, BtreeIndexError>(
                (key_predicates_view(split.0@), fast_predicates_view(split.1->0@)),
            ),
            Err(e) => parted(fast_predicates_view(predicates@), key_fields@) == Err::<
                (Seq<KeyPredicateModel>, Seq<FastPredicateModel>),
                _,
            >(e),
        },
{
    let ghost models = fast_predicates_view(predicates@);
    let mut key_predicates: Vec<BtreeIndexKeyPredicate> = Vec::new();
    let mut payload_predicates: Vec<BtreeIndexFastPredicate> = Vec::new();
    proof {
        assert(models.take(0) =~= Seq::<FastPredicateModel>::empty());
        assert(key_predicates_view(key_predicates@) =~= Seq::<KeyPredicateModel>::empty());
        assert(fast_predicates_view(payload_predicates@) =~= Seq::<FastPredicateModel>::empty());
    }
    let mut i: usize = 0;
    while i < predicates.len()
        invariant
            i <= predicates@.len(),
            models == fast_predicates_view(predicates@),
            parted(models.take(i as int), key_fields@) == Ok::<_, BtreeIndexError>(
                (
                    key_predicates_view(key_predicates@),
                    fast_predicates_view(payload_predicates@),
                ),
            ),
        decreases predicates@.len() - i,
    {
        let predicate = &predicates[i];
        let ghost keys_before = key_predicates@;
        let ghost rest_before = payload_predicates@;
        proof {
            let t = models.take(i + 1);
            assert(t.drop_last() =~= models.take(i as int));
            assert(t.last() == predicate@);
        }
        let column: usize = predicate.column();
        let field: Option<BtreeIndexKeyField> = if column < key_fields.len() {
            key_fields[column]
        } else {
            None
        };
        match field {
            None => {
                payload_predicates.push(predicate.clone());
                assert(fast_predicates_view(payload_predicates@) =~= fast_predicates_view(
                    rest_before,
                ).push(predicate@));
            },
            Some(key_field) => {
                match predicate.clone().try_into_key_predicate(&key_field) {
                    Err(e) => {
                        proof {
                            assert(parted(models.take(i + 1), key_fields@) is Err);
                            lemma_parted_fails(models, key_fields@, i + 1);
                        }
                        return Err(e);
                    },
                    Ok(Some(key_predicate)) => {
                        key_predicates.push(key_predicate);
                        assert(key_predicates_view(key_predicates@) =~= key_predicates_view(
                            keys_before,
                        ).push(key_predicate@));
                    },
                    Ok(None) => {
                        payload_predicates.push(predicate.clone());
                        assert(fast_predicates_view(payload_predicates@) =~= fast_predicates_view(
                            rest_before,
                        ).push(predicate@));
                    },
                }
            },
        }
        i = i + 1;
    }
    assert(models.take(models.len() as int) =~= models);
    Ok((key_predicates, Some(payload_predicates)))
}

/// The value of a column in a row that has it.
pub open spec fn cell(row: Seq<ScalarModel>, column: usize) -> Option<ScalarModel> {
    if column < row.len() {
        Some(row[column as int])
    } else {
        None
    }
}

/// The host compares values as this function does.
pub open spec fn compares_by<F: Fn(&Scalar, &Scalar) -> Option<Ordering>>(
    compare: F,
    rule: spec_fn(ScalarModel, ScalarModel) -> Option<Ordering>,
) -> bool {
    forall|a: &Scalar, b: &Scalar, o: Option<Ordering>| #[trigger]
        call_ensures(compare, (a, b), o) ==> o == rule(a@, b@)
}

/// How a value stands to another: as values of one type do, else as integers do, else as
/// floating-point numbers do.
pub open spec fn scalar_ordering(
    left: ScalarModel,
    right: ScalarModel,
    direct: spec_fn(ScalarModel, ScalarModel) -> Option<Ordering>,
    as_float: spec_fn(ScalarModel, ScalarModel) -> Option<Ordering>,
) -> Option<Ordering> {
    match direct(left, right) {
        Some(ordering) => Some(ordering),
        None => match (left, right) {
            (ScalarModel::Number(a), ScalarModel::Number(b)) => match (
                integer_of(a),
                integer_of(b),
            ) {
                (Some(x), Some(y)) => Some(int_ordering(x, y)),
                _ => as_float(left, right),
            },
            (ScalarModel::Decimal(_), ScalarModel::Decimal(_)) => as_float(left, right),
            (ScalarModel::Decimal(_), ScalarModel::Number(_)) => as_float(left, right),
            (ScalarModel::Number(_), ScalarModel::Decimal(_)) => as_float(left, right),
            _ => None,
        },
    }
}

/// A value may be found to stand to another so: the host is asked to compare them as values of one
/// type, and then, where they are no integers, by their floating-point values.
pub open spec fn may_order<
    D: Fn(&Scalar, &Scalar) -> Option<Ordering>,
    N: Fn(&Scalar, &Scalar) -> Option<Ordering>,
>(left: Scalar, right: Scalar, direct: D, as_float: N, found: Option<Ordering>) -> bool {
    exists|first: Option<Ordering>| #[trigger]
        call_ensures(direct, (&left, &right), first) && match first {
            Some(_) => found == first,
            None => match (left@, right@) {
                (ScalarModel::Number(a), ScalarModel::Number(b)) => match (
                    integer_of(a),
                    integer_of(b),
                ) {
                    (Some(x), Some(y)) => found == Some(int_ordering(x, y)),
                    _ => call_ensures(as_float, (&left, &right), found),
                },
                (ScalarModel::Decimal(_), ScalarModel::Decimal(_)) => call_ensures(
                    as_float,
                    (&left, &right),
                    found,
                ),
                (ScalarModel::Decimal(_), ScalarModel::Number(_)) => call_ensures(
                    as_float,
                    (&left, &right),
                    found,
                ),
                (ScalarModel::Number(_), ScalarModel::Decimal(_)) => call_ensures(
                    as_float,
                    (&left, &right),
                    found,
                ),
                _ => found is None,
            },
        }
}

/// How a value stands to another. The host compares values of one type (`direct`), and numbers and
/// decimals by their floating-point values (`as_float`).
pub fn compare_btree_filter_scalars<
    D: Fn(&Scalar, &Scalar) -> Option<Ordering>,
    N: Fn(&Scalar, &Scalar) -> Option<Ordering>,
>(left: &Scalar, right: &Scalar, direct: &D, as_float: &N) -> (r: Option<Ordering>)
    requires
        forall|a: &Scalar, b: &Scalar| call_requires(*direct, (a, b)),
        forall|a: &Scalar, b: &Scalar| call_requires(*as_float, (a, b)),
    ensures
        may_order(*left, *right, *direct, *as_float, r),
        forall|
            d: spec_fn(ScalarModel, ScalarModel) -> Option<Ordering>,
            n: spec_fn(ScalarModel, ScalarModel) -> Option<Ordering>,
        |
            #[trigger] compares_by(*direct, d) && #[trigger] compares_by(*as_float, n) ==> r
                == scalar_ordering(left@, right@, d, n),
{
    let first = direct(left, right);
    assert(call_ensures(*direct, (left, right), first));
    if let Some(ordering) = first {
        return Some(ordering);
    }
    match (left, right) {
        (Scalar::Number(a), Scalar::Number(b)) => match (
            a.integer_to_i128(),
            b.integer_to_i128(),
        ) {
            (Some(x), Some(y)) => Some(compare_integers(x, y)),
            _ => as_float(left, right),
        },
        (Scalar::Decimal(_), Scalar::Decimal(_)) => as_float(left, right),
        (Scalar::Decimal(_), Scalar::Number(_)) => as_float(left, right),
        (Scalar::Number(_), Scalar::Decimal(_)) => as_float(left, right),
        _ => None,
    }
}

fn compare_integers(x: i128, y: i128) -> (r: Ordering)
    ensures
        forall|a: int, b: int| a == x && b == y ==> r == #[trigger] int_ordering(a, b),
{
    if x < y {
        Ordering::Less
    } else if x == y {
        Ordering::Equal
    } else {
        Ordering::Greater
    }
}

/// A filter holds of a row of values.
pub open spec fn row_satisfies(
    predicate: FastPredicateModel,
    row: Seq<ScalarModel>,
    direct: spec_fn(ScalarModel, ScalarModel) -> Option<Ordering>,
    as_float: spec_fn(ScalarModel, ScalarModel) -> Option<Ordering>,
) -> bool {
    match cell(row, predicate.column()) {
        None => false,
        Some(value) => match predicate {
            FastPredicateModel::IsNull { .. } => value is Null,
            FastPredicateModel::IsNotNull { .. } => !(value is Null),
            FastPredicateModel::Compare { op, constant, .. } => {
                &&& !(value is Null)
                &&& !(constant is Null)
                &&& match scalar_ordering(value, constant, direct, as_float) {
                    None => false,
                    Some(ordering) => op_holds(op, ordering),
                }
            },
        },
    }
}

/// The value of a column in a row that has it.
pub open spec fn value_at(row: Seq<Scalar>, column: usize) -> Option<Scalar> {
    if column < row.len() {
        Some(row[column as int])
    } else {
        None
    }
}

/// A filter may be found to hold of a row of values, or not to hold: the host is asked only where a
/// value is compared, and neither it nor the constant is null.
pub open spec fn may_hold<
    D: Fn(&Scalar, &Scalar) -> Option<Ordering>,
    N: Fn(&Scalar, &Scalar) -> Option<Ordering>,
>(
    predicate: BtreeIndexFastPredicate,
    row: Seq<Scalar>,
    direct: D,
    as_float: N,
    holds: bool,
) -> bool {
    match value_at(row, predicate@.column()) {
        None => !holds,
        Some(value) => match predicate {
            BtreeIndexFastPredicate::IsNull { .. } => holds == (value@ is Null),
            BtreeIndexFastPredicate::IsNotNull { .. } => holds == !(value@ is Null),
            BtreeIndexFastPredicate::Compare { op, constant, .. } => if value@ is Null
                || constant@ is Null {
                !holds
            } else {
                exists|found: Option<Ordering>| #[trigger]
                    may_order(value, constant, direct, as_float, found) && holds == (found matches
                        Some(ordering) && op_holds(op, ordering))
            },
        },
    }
}

/// The host compares values as these functions do, where a filter has it compare values.
pub open spec fn asked_of<
    D: Fn(&Scalar, &Scalar) -> Option<Ordering>,
    N: Fn(&Scalar, &Scalar) -> Option<Ordering>,
>(
    predicate: FastPredicateModel,
    direct: D,
    as_float: N,
    d: spec_fn(ScalarModel, ScalarModel) -> Option<Ordering>,
    n: spec_fn(ScalarModel, ScalarModel) -> Option<Ordering>,
) -> bool {
    predicate is Compare ==> compares_by(direct, d) && compares_by(as_float, n)
}

/// The host compares values as these functions do, where one of the filters has it compare values.
pub open spec fn asked_of_all<
    D: Fn(&Scalar, &Scalar) -> Option<Ordering>,
    N: Fn(&Scalar, &Scalar) -> Option<Ordering>,
>(
    predicates: Seq<FastPredicateModel>,
    direct: D,
    as_float: N,
    d: spec_fn(ScalarModel, ScalarModel) -> Option<Ordering>,
    n: spec_fn(ScalarModel, ScalarModel) -> Option<Ordering>,
) -> bool {
    forall|i: int|
        0 <= i < predicates.len() ==> asked_of(#[trigger] predicates[i], direct, as_float, d, n)
}

/// All filters hold of a row of values.
pub open spec fn row_satisfies_all(
    predicates: Seq<FastPredicateModel>,
    row: Seq<ScalarModel>,
    direct: spec_fn(ScalarModel, ScalarModel) -> Option<Ordering>,
    as_float: spec_fn(ScalarModel, ScalarModel) -> Option<Ordering>,
) -> bool {
    forall|i: int|
        0 <= i < predicates.len() ==> row_satisfies(
            #[trigger] predicates[i],
            row,
            direct,
            as_float,
        )
}

/// Whether a filter holds of a row of values.
pub fn evaluate_btree_fast_predicate<
    D: Fn(&Scalar, &Scalar) -> Option<Ordering>,
    N: Fn(&Scalar, &Scalar) -> Option<Ordering>,
>(
    predicate: &BtreeIndexFastPredicate,
    payload_row: &Vec<Scalar>,
    direct: &D,
    as_float: &N,
) -> (r: bool)
    requires
        forall|a: &Scalar, b: &Scalar| call_requires(*direct, (a, b)),
        forall|a: &Scalar, b: &Scalar| call_requires(*as_float, (a, b)),
    ensures
        may_hold(*predicate, payload_row@, *direct, *as_float, r),
        forall|
            d: spec_fn(ScalarModel, ScalarModel) -> Option<Ordering>,
            n: spec_fn(ScalarModel, ScalarModel) -> Option<Ordering>,
        | #[trigger]
            asked_of(predicate@, *direct, *as_float, d, n) ==> r == row_satisfies(
                predicate@,
                scalars_view(payload_row@),
                d,
                n,
            ),
{
    proof {
        lemma_scalars_view(payload_row@);
    }
    let column: usize = predicate.column();
    if column >= payload_row.len() {
        return false;
    }
    let value = &payload_row[column];
    proof {
        lemma_cell(payload_row@, column);
    }
    match predicate {
        BtreeIndexFastPredicate::IsNull { .. } => matches!(value, Scalar::Null),
        BtreeIndexFastPredicate::IsNotNull { .. } => !matches!(value, Scalar::Null),
        BtreeIndexFastPredicate::Compare { op, constant, .. } => {
            if matches!(value, Scalar::Null) || matches!(constant, Scalar::Null) {
                return false;
            }
            match compare_btree_filter_scalars(value, constant, direct, as_float) {
                None => false,
                Some(ordering) => evaluate_btree_ordering(*op, ordering),
            }
        },
    }
}

proof fn lemma_cell(row: Seq<Scalar>, column: usize)
    requires
        column < row.len(),
    ensures
        cell(scalars_view(row), column) == Some(row[column as int]@),
{
    lemma_scalars_view(row);
}

/// Whether all filters hold of a row of values.
pub fn evaluate_btree_fast_predicates<
    D: Fn(&Scalar, &Scalar) -> Option<Ordering>,
    N: Fn(&Scalar, &Scalar) -> Option<Ordering>,
>(
    predicates: &Vec<BtreeIndexFastPredicate>,
    payload_row: &Vec<Scalar>,
    direct: &D,
    as_float: &N,
) -> (r: bool)
    requires
        forall|a: &Scalar, b: &Scalar| call_requires(*direct, (a, b)),
        forall|a: &Scalar, b: &Scalar| call_requires(*as_float, (a, b)),
    ensures
        r ==> forall|i: int|
            0 <= i < predicates@.len() ==> may_hold(
                #[trigger] predicates@[i],
                payload_row@,
                *direct,
                *as_float,
                true,
            ),
        !r ==> exists|i: int|
            0 <= i < predicates@.len() && may_hold(
                #[trigger] predicates@[i],
                payload_row@,
                *direct,
                *as_float,
                false,
            ),
        forall|
            d: spec_fn(ScalarModel, ScalarModel) -> Option<Ordering>,
            n: spec_fn(ScalarModel, ScalarModel) -> Option<Ordering>,
        | #[trigger]
            asked_of_all(fast_predicates_view(predicates@), *direct, *as_float, d, n) ==> r
                == row_satisfies_all(
                fast_predicates_view(predicates@),
                scalars_view(payload_row@),
                d,
                n,
            ),
{
    let ghost models = fast_predicates_view(predicates@);
    let ghost row = scalars_view(payload_row@);
    let mut i: usize = 0;
    while i < predicates.len()
        invariant
            forall|a: &Scalar, b: &Scalar| call_requires(*direct, (a, b)),
            forall|a: &Scalar, b: &Scalar| call_requires(*as_float, (a, b)),
            i <= predicates@.len(),
            models == fast_predicates_view(predicates@),
            row == scalars_view(payload_row@),
            forall|k: int|
                0 <= k < i ==> may_hold(
                    #[trigger] predicates@[k],
                    payload_row@,
                    *direct,
                    *as_float,
                    true,
                ),
            forall|
                d: spec_fn(ScalarModel, ScalarModel) -> Option<Ordering>,
                n: spec_fn(ScalarModel, ScalarModel) -> Option<Ordering>,
                k: int,
            |
                #[trigger] asked_of_all(models, *direct, *as_float, d, n) && 0 <= k < i
                    ==> row_satisfies(#[trigger] models[k], row, d, n),
        decreases predicates@.len() - i,
    {
        let holds = evaluate_btree_fast_predicate(&predicates[i], payload_row, direct, as_float);
        assert(models[i + 0] == predicates@[i + 0]@);
        assert forall|
            d: spec_fn(ScalarModel, ScalarModel) -> Option<Ordering>,
            n: spec_fn(ScalarModel, ScalarModel) -> Option<Ordering>,
        | #[trigger] asked_of_all(models, *direct, *as_float, d, n) implies holds == row_satisfies(
            models[i + 0],
            row,
            d,
            n,
        ) by {
            assert(asked_of(models[i + 0], *direct, *as_float, d, n));
        }
        if !holds {
            assert(may_hold(predicates@[i + 0], payload_row@, *direct, *as_float, false));
            return false;
        }
        i = i + 1;
    }
    true
}

} // verus!
