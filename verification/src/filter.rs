//! The filter of an index scan.

use vstd::prelude::*;

use crate::error::BtreeIndexError;
use crate::expr::{clone_expr, collect_columns, columns_of, compile_btree_fast_predicates, compiled,
    equalities_view, lemma_projected_ok, project_column_ref, projected, settles, Expr, ExprModel};
use crate::fast::{fast_predicates_view, find_position, lemma_position_of, parted, position_of,
    split_btree_fast_predicates};
use crate::fast::{BtreeIndexFastPredicate, BtreeIndexKeyField, FastPredicateModel};
use crate::key::{btree_equality_prefix, components_end, encode_btree_key_component, key_bytes};
use crate::predicate::{key_predicates_view, BtreeIndexKeyPredicate, KeyPredicateModel};
use crate::scalar::{clone_scalar, Scalar, ScalarModel, TableField};
use crate::sort::{is_sorted, lemma_stable_sort_items, lemma_stable_sort_sorted, sort_stably,
    Ranked};
use crate::text::{clone_texts, text_eq, texts_view};
use crate::types::BtreeIndexKeyOrder;

verus! {

/// The direction in which a column of an index is ordered.
#[derive(Clone, Copy, Debug, PartialEq, Eq, Structural)]
pub enum BtreeIndexColumnOrder {
    Asc,
    Desc,
}

/// A column of the key of an index.
#[derive(Debug)]
pub struct BtreeIndexKeyColumn {
    pub field: TableField,
    pub order: BtreeIndexColumnOrder,
}

/// A filter expression. Its columns are numbered by their places in `columns`.
#[derive(Debug)]
pub struct Filters {
    pub expr: Expr,
    pub columns: Vec<String>,
}

/// The model of a filter.
pub struct FiltersModel {
    pub expr: ExprModel,
    pub columns: Seq<Seq<char>>,
}

impl View for Filters {
    type V = FiltersModel;

    open spec fn view(&self) -> FiltersModel {
        FiltersModel { expr: self.expr@, columns: texts_view(self.columns@) }
    }
}

/// The model of a filter, where there is one.
pub open spec fn opt_filters_view(filters: Option<Filters>) -> Option<FiltersModel> {
    match filters {
        Some(filters) => Some(filters@),
        None => None,
    }
}

/// A copy of a filter.
pub fn clone_filters(filters: &Filters) -> (r: Filters)
    ensures
        r@ == filters@,
{
    Filters { expr: clone_expr(&filters.expr), columns: clone_texts(&filters.columns) }
}

/// A copy of a filter, where there is one.
pub fn clone_opt_filters(filters: &Option<Filters>) -> (r: Option<Filters>)
    ensures
        opt_filters_view(r) == opt_filters_view(*filters),
{
    match filters {
        Some(filters) => Some(clone_filters(filters)),
        None => None,
    }
}

/// A scan of an index.
#[derive(Debug)]
pub struct BtreeIndexInfo {
    pub index_name: String,
    pub index_version: String,
    pub key_columns: Vec<BtreeIndexKeyColumn>,
    pub payload_fields: Vec<TableField>,
    pub equality_prefix: Vec<Scalar>,
    pub limit: Option<usize>,
    pub filters: Option<Filters>,
    pub use_block_btree_index_size_hint: bool,
}

/// An error of an index scan.
#[derive(Clone, Copy, Debug, PartialEq, Eq, Structural)]
pub enum BtreeScanError {
    /// The filter is over a column that the payload does not hold, by its number in the filter.
    UnknownFilterColumn { column: usize },
    /// A component of the key is a column that the payload does not hold.
    UnknownKeyColumn { component: usize },
    /// A filter is on a column past the payload's last.
    MissingPayloadColumn { column: usize, width: usize },
    /// A column of the output is not in the payload, by its place in the output.
    UnknownOutputColumn { column: usize },
    /// A row of the payload has values where no columns are read.
    UnexpectedPayload,
    /// A row of the payload does not have one value for each column that is read.
    InvalidPayloadWidth { width: usize, expected: usize },
    /// There is neither a simple filter nor an expression.
    MissingExpression,
    /// The payload of a row could not be decoded.
    DecodePayload,
    /// The host could not evaluate the filter.
    Evaluate,
    /// An error of the index.
    Index { error: BtreeIndexError },
}

/// The order of a key component.
pub open spec fn key_order_of(order: BtreeIndexColumnOrder) -> BtreeIndexKeyOrder {
    match order {
        BtreeIndexColumnOrder::Asc => BtreeIndexKeyOrder::Asc,
        BtreeIndexColumnOrder::Desc => BtreeIndexKeyOrder::Desc,
    }
}

impl BtreeIndexColumnOrder {
    /// The order of a key component.
    pub fn key_order(self) -> (r: BtreeIndexKeyOrder)
        ensures
            r == key_order_of(self),
    {
        match self {
            BtreeIndexColumnOrder::Asc => BtreeIndexKeyOrder::Asc,
            BtreeIndexColumnOrder::Desc => BtreeIndexKeyOrder::Desc,
        }
    }
}

/// The values of the equality prefix, each in the order of its key column.
pub open spec fn prefix_values(info: BtreeIndexInfo) -> Seq<(ScalarModel, BtreeIndexKeyOrder)> {
    Seq::new(
        if info.equality_prefix@.len() <= info.key_columns@.len() {
            info.equality_prefix@.len()
        } else {
            info.key_columns@.len()
        },
        |i: int| (info.equality_prefix@[i]@, key_order_of(info.key_columns@[i].order)),
    )
}

/// The bytes that every key of the scan begins with.
pub fn encode_prefix(btree_index: &BtreeIndexInfo) -> (r: Result<Vec<u8>, BtreeIndexError>)
    ensures
        ({
            let key = key_bytes(prefix_values(*btree_index));
            let end = components_end(key, btree_index.equality_prefix@.len());
            match r {
                Ok(prefix) => end matches Ok(n) && 0 <= n <= key.len() && prefix@ == key.subrange(
                    0,
                    n,
                ),
                Err(e) => end == Err::<int, _>(e),
            }
        }),
{
    let ghost values = prefix_values(*btree_index);
    let mut key: Vec<u8> = Vec::new();
    let mut i: usize = 0;
    assert(values.take(0) =~= Seq::<(ScalarModel, BtreeIndexKeyOrder)>::empty());
    while i < btree_index.equality_prefix.len() && i < btree_index.key_columns.len()
        invariant
            i <= values.len(),
            values == prefix_values(*btree_index),
            key@ == key_bytes(values.take(i as int)),
        decreases values.len() - i,
    {
        let order = btree_index.key_columns[i].order.key_order();
        match encode_btree_key_component(&mut key, &btree_index.equality_prefix[i], order) {
            Ok(_) => {},
            Err(e) => {
                return Err(e);
            },
        }
        proof {
            let t = values.take(i + 1);
            assert(t.drop_last() =~= values.take(i as int));
            assert(t.last() == values[i as int]);
        }
        i = i + 1;
    }
    assert(values.take(values.len() as int) =~= values);
    btree_equality_prefix(key.as_slice(), btree_index.equality_prefix.len())
}

/// The place of the first field with a name.
pub open spec fn field_index(fields: Seq<TableField>, name: Seq<char>) -> Option<int>
    decreases fields.len(),
{
    if fields.len() == 0 {
        None
    } else if fields[0].name@ == name {
        Some(0)
    } else {
        match field_index(fields.skip(1), name) {
            None => None,
            Some(i) => Some(i + 1),
        }
    }
}

/// A field that is found stands among the fields and has the name.
pub proof fn lemma_field_index(fields: Seq<TableField>, name: Seq<char>)
    ensures
        field_index(fields, name) matches Some(i) ==> 0 <= i < fields.len() && fields[i].name@
            == name,
    decreases fields.len(),
{
    if fields.len() > 0 && fields[0].name@ != name {
        lemma_field_index(fields.skip(1), name);
    }
}

/// Finds the first field with a name.
pub fn index_of(fields: &Vec<TableField>, name: &str) -> (r: Option<usize>)
    ensures
        match r {
            Some(i) => field_index(fields@, name@) == Some(i as int) && i < fields@.len(),
            None => field_index(fields@, name@) is None,
        },
{
    let mut i: usize = 0;
    proof {
        assert(fields@.skip(0) =~= fields@);
    }
    while i < fields.len()
        invariant
            i <= fields@.len(),
            field_index(fields@, name@) == (match field_index(fields@.skip(i as int), name@) {
                None => None,
                Some(k) => Some(k + i),
            }),
        decreases fields@.len() - i,
    {
        if text_eq(fields[i].name.as_str(), name) {
            return Some(i);
        }
        proof {
            assert(fields@.skip(i as int)[0] == fields@[i as int]);
            assert(fields@.skip(i as int).skip(1) =~= fields@.skip(i + 1));
        }
        i = i + 1;
    }
    None
}

/// Where the columns of a filter stand in the payload.
pub open spec fn resolved(columns: Seq<String>, fields: Seq<TableField>) -> Seq<Option<usize>> {
    Seq::new(
        columns.len(),
        |i: int|
            match field_index(fields, columns[i]@) {
                Some(k) => Some(k as usize),
                None => None,
            },
    )
}

fn resolve_columns(columns: &Vec<String>, fields: &Vec<TableField>) -> (r: Vec<Option<usize>>)
    ensures
        r@ == resolved(columns@, fields@),
{
    let mut r: Vec<Option<usize>> = Vec::new();
    let mut i: usize = 0;
    while i < columns.len()
        invariant
            i <= columns@.len(),
            r@.len() == i,
            forall|k: int| 0 <= k < i ==> #[trigger] r@[k] == resolved(columns@, fields@)[k],
        decreases columns@.len() - i,
    {
        r.push(index_of(fields, columns[i].as_str()));
        i = i + 1;
    }
    assert(r@ =~= resolved(columns@, fields@));
    r
}

/// The columns of the payload that the equality prefix fixes, with their values; the first key
/// column that the payload does not hold is an error.
pub open spec fn prefix_equalities(info: BtreeIndexInfo, count: int) -> Result<
    Seq<(usize, ScalarModel)>,
    BtreeScanError,
>
    decreases count,
{
    if count <= 0 {
        Ok(Seq::empty())
    } else {
        match prefix_equalities(info, count - 1) {
            Err(e) => Err(e),
            Ok(before) => match field_index(
                info.payload_fields@,
                info.key_columns@[count - 1].field.name@,
            ) {
                None => Err(
                    BtreeScanError::UnknownKeyColumn { component: (count - 1) as usize },
                ),
                Some(k) => Ok(before.push((k as usize, info.equality_prefix@[count - 1]@))),
            },
        }
    }
}

proof fn lemma_prefix_equalities_fails(info: BtreeIndexInfo, m: int, n: int)
    requires
        0 <= m <= n,
        prefix_equalities(info, m) is Err,
    ensures
        prefix_equalities(info, n) == prefix_equalities(info, m),
    decreases n,
{
    if m < n {
        lemma_prefix_equalities_fails(info, m, n - 1);
    }
}

/// The columns of the payload that the equality prefix fixes, with their values.
pub fn btree_prefix_payload_equalities(info: &BtreeIndexInfo) -> (r: Result<
    Vec<(usize, Scalar)>,
    BtreeScanError,
>)
    ensures
        match r {
            Ok(equalities) => prefix_equalities(*info, prefix_values(*info).len() as int) == Ok::<
                _,
                BtreeScanError,
            >(equalities_view(equalities@)),
            Err(e) => prefix_equalities(*info, prefix_values(*info).len() as int) == Err::<
                Seq<(usize, ScalarModel)>,
                _,
            >(e),
        },
{
    let mut equalities: Vec<(usize, Scalar)> = Vec::new();
    let mut i: usize = 0;
    assert(equalities_view(equalities@) =~= Seq::<(usize, ScalarModel)>::empty());
    while i < info.key_columns.len() && i < info.equality_prefix.len()
        invariant
            i <= prefix_values(*info).len(),
            prefix_equalities(*info, i as int) == Ok::<_, BtreeScanError>(
                equalities_view(equalities@),
            ),
        decreases prefix_values(*info).len() - i,
    {
        let ghost before = equalities@;
        match index_of(&info.payload_fields, info.key_columns[i].field.name.as_str()) {
            None => {
                proof {
                    lemma_prefix_equalities_fails(
                        *info,
                        i + 1,
                        prefix_values(*info).len() as int,
                    );
                }
                return Err(BtreeScanError::UnknownKeyColumn { component: i });
            },
            Some(payload_index) => {
                equalities.push((payload_index, clone_scalar(&info.equality_prefix[i])));
                assert(equalities_view(equalities@) =~= equalities_view(before).push(
                    (payload_index, info.equality_prefix@[i as int]@),
                ));
            },
        }
        i = i + 1;
    }
    Ok(equalities)
}

/// What the key says of the columns of the payload, after its first `count` components; a later
/// component of the same column counts. The first one that the payload does not hold is an error.
pub open spec fn key_fields(info: BtreeIndexInfo, count: int) -> Result<
    Seq<Option<BtreeIndexKeyField>>,
    BtreeScanError,
>
    decreases count,
{
    if count <= 0 {
        Ok(Seq::new(info.payload_fields@.len(), |i: int| None))
    } else {
        let column = info.key_columns@[count - 1];
        match key_fields(info, count - 1) {
            Err(e) => Err(e),
            Ok(before) => match field_index(info.payload_fields@, column.field.name@) {
                None => Err(
                    BtreeScanError::UnknownKeyColumn { component: (count - 1) as usize },
                ),
                Some(k) => Ok(
                    before.update(
                        k,
                        Some(
                            BtreeIndexKeyField {
                                component_index: (count - 1) as usize,
                                order: key_order_of(column.order),
                                data_type: column.field.data_type,
                            },
                        ),
                    ),
                ),
            },
        }
    }
}

proof fn lemma_key_fields_fails(info: BtreeIndexInfo, m: int, n: int)
    requires
        0 <= m <= n,
        key_fields(info, m) is Err,
    ensures
        key_fields(info, n) == key_fields(info, m),
    decreases n,
{
    if m < n {
        lemma_key_fields_fails(info, m, n - 1);
    }
}

/// What the key says of the columns of the payload.
pub fn btree_key_fields_by_payload_index(info: &BtreeIndexInfo) -> (r: Result<
    Vec<Option<BtreeIndexKeyField>>,
    BtreeScanError,
>)
    ensures
        match r {
            Ok(fields) => key_fields(*info, info.key_columns@.len() as int) == Ok::<
                _,
                BtreeScanError,
            >(fields@),
            Err(e) => key_fields(*info, info.key_columns@.len() as int) == Err::<
                Seq<Option<BtreeIndexKeyField>>,
                _,
            >(e),
        },
{
    let mut fields: Vec<Option<BtreeIndexKeyField>> = Vec::new();
    while fields.len() < info.payload_fields.len()
        invariant
            fields@.len() <= info.payload_fields@.len(),
            forall|k: int| 0 <= k < fields@.len() ==> #[trigger] fields@[k] is None,
        decreases info.payload_fields@.len() - fields@.len(),
    {
        fields.push(None);
    }
    assert(fields@ =~= key_fields(*info, 0)->Ok_0);
    let mut i: usize = 0;
    while i < info.key_columns.len()
        invariant
            i <= info.key_columns@.len(),
            fields@.len() == info.payload_fields@.len(),
            key_fields(*info, i as int) == Ok::<_, BtreeScanError>(fields@),
        decreases info.key_columns@.len() - i,
    {
        let column = &info.key_columns[i];
        match index_of(&info.payload_fields, column.field.name.as_str()) {
            None => {
                proof {
                    lemma_key_fields_fails(*info, i + 1, info.key_columns@.len() as int);
                }
                return Err(BtreeScanError::UnknownKeyColumn { component: i });
            },
            Some(payload_index) => {
                fields.set(
                    payload_index,
                    Some(
                        BtreeIndexKeyField {
                            component_index: i,
                            order: column.order.key_order(),
                            data_type: column.field.data_type,
                        },
                    ),
                );
            },
        }
        i = i + 1;
    }
    Ok(fields)
}

/// The numbers stand in strictly ascending order.
pub open spec fn increasing(numbers: Seq<usize>) -> bool {
    forall|i: int, j: int| 0 <= i < j < numbers.len() ==> #[trigger] numbers[i] < #[trigger] numbers[j]
}

/// `distinct` holds the numbers of `numbers`, each once, in ascending order.
pub open spec fn is_index_set(distinct: Seq<usize>, numbers: Seq<usize>) -> bool {
    &&& increasing(distinct)
    &&& forall|x: usize| #[trigger] distinct.contains(x) <==> numbers.contains(x)
}

/// The numbers, each once, in ascending order.
pub fn distinct_indexes(numbers: Vec<usize>) -> (r: Vec<usize>)
    ensures
        is_index_set(r@, numbers@),
{
    let sorted = sort_stably(numbers);
    proof {
        lemma_stable_sort_sorted(numbers@, sorted@);
        assert forall|x: usize| #[trigger] sorted@.contains(x) <==> numbers@.contains(x) by {
            lemma_stable_sort_items(numbers@, sorted@, x);
        }
    }
    let mut r: Vec<usize> = Vec::new();
    let mut i: usize = 0;
    while i < sorted.len()
        invariant
            i <= sorted@.len(),
            is_sorted(sorted@),
            increasing(r@),
            i > 0 ==> r@.len() > 0 && r@.last() == sorted@[i - 1],
            i == 0 ==> r@.len() == 0,
            forall|x: usize| #[trigger] r@.contains(x) <==> sorted@.take(i as int).contains(x),
        decreases sorted@.len() - i,
    {
        let x: usize = sorted[i];
        let ghost before = r@;
        if r.len() == 0 || r[r.len() - 1] != x {
            proof {
                if i > 0 {
                    assert(!sorted@[i as int].ranks_before(sorted@[i - 1]));
                }
            }
            r.push(x);
        }
        proof {
            let t = sorted@.take(i as int);
            let u = sorted@.take(i + 1);
            assert(u =~= t.push(x));
            assert forall|y: usize| #[trigger] r@.contains(y) <==> u.contains(y) by {
                if r@.contains(y) {
                    if before.contains(y) {
                        let k = choose|k: int| 0 <= k < t.len() && t[k] == y;
                        assert(u[k] == y);
                    } else {
                        let k = choose|k: int| 0 <= k < r@.len() && r@[k] == y;
                        if k < before.len() {
                            assert(before[k] == y);
                        }
                        assert(u[i as int] == y);
                    }
                }
                if u.contains(y) {
                    let k = choose|k: int| 0 <= k < u.len() && u[k] == y;
                    if k < i {
                        assert(t[k] == y);
                        assert(before.contains(y));
                        let m = choose|m: int| 0 <= m < before.len() && before[m] == y;
                        assert(r@[m] == y);
                    } else {
                        assert(r@.last() == y);
                        assert(r@[r@.len() - 1] == y);
                    }
                }
            }
        }
        i = i + 1;
    }
    assert(sorted@.take(sorted@.len() as int) =~= sorted@);
    r
}

/// The models of optional filters on the payload.
pub open spec fn opt_fast_view(predicates: Option<Vec<BtreeIndexFastPredicate>>) -> Option<
    Seq<FastPredicateModel>,
> {
    match predicates {
        Some(predicates) => Some(fast_predicates_view(predicates@)),
        None => None,
    }
}

/// The filter of a scan, made ready: filters on the key, filters on decoded columns of the payload,
/// or an expression over them where the filter is no conjunction of simple ones.
#[derive(Debug)]
pub struct BtreeIndexFilter {
    pub expr: Option<Expr>,
    pub payload_field_indexes: Vec<usize>,
    pub payload_fields: Vec<TableField>,
    pub key_predicates: Vec<BtreeIndexKeyPredicate>,
    pub fast_predicates: Option<Vec<BtreeIndexFastPredicate>>,
}

/// The filter as an expression over the payload, the filters that the key answers, and the simple
/// filters that are left, where it is a conjunction of simple ones.
pub open spec fn filter_plan(
    info: BtreeIndexInfo,
    filters: Filters,
    same: spec_fn(ScalarModel, ScalarModel) -> bool,
) -> Result<
    (ExprModel, Seq<KeyPredicateModel>, Option<Seq<FastPredicateModel>>),
    BtreeScanError,
> {
    match projected(filters.expr@, resolved(filters.columns@, info.payload_fields@)) {
        Err(column) => Err(BtreeScanError::UnknownFilterColumn { column }),
        Ok(expr) => match prefix_equalities(info, prefix_values(info).len() as int) {
            Err(e) => Err(e),
            Ok(equalities) => match key_fields(info, info.key_columns@.len() as int) {
                Err(e) => Err(e),
                Ok(fields) => match compiled(expr, equalities, same) {
                    None => Ok((expr, Seq::empty(), None)),
                    Some(predicates) => match parted(predicates, fields) {
                        Err(error) => Err(BtreeScanError::Index { error }),
                        Ok(split) => Ok((expr, split.0, Some(split.1))),
                    },
                },
            },
        },
    }
}

/// The host finds values equal as this function does, where it is asked to make the filter ready.
pub open spec fn filter_settled<E: Fn(&Scalar, &Scalar) -> bool>(
    info: BtreeIndexInfo,
    filters: Filters,
    equal: E,
    same: spec_fn(ScalarModel, ScalarModel) -> bool,
) -> bool {
    match projected(filters.expr@, resolved(filters.columns@, info.payload_fields@)) {
        Err(_) => true,
        Ok(expr) => match prefix_equalities(info, prefix_values(info).len() as int) {
            Err(_) => true,
            Ok(equalities) => compiled(expr, equalities, same) is None || settles(
                expr,
                equalities,
                equal,
                same,
            ),
        },
    }
}

/// The columns that the filters are on.
pub open spec fn predicate_columns(predicates: Seq<FastPredicateModel>) -> Seq<usize> {
    Seq::new(predicates.len(), |i: int| predicates[i].column())
}

/// The columns of the payload that a filter has to read.
pub open spec fn wanted_columns(
    expr: ExprModel,
    predicates: Option<Seq<FastPredicateModel>>,
) -> Seq<usize> {
    match predicates {
        Some(predicates) => predicate_columns(predicates),
        None => columns_of(expr),
    }
}

/// The positions of the columns among those that are read.
pub open spec fn position_table(indexes: Seq<usize>, width: nat) -> Seq<Option<usize>> {
    Seq::new(
        width,
        |i: int|
            match position_of(indexes, i as usize) {
                Some(k) => Some(k as usize),
                None => None,
            },
    )
}

/// The simple filters on the positions of their columns among those that are read.
pub open spec fn on_positions(
    predicates: Seq<FastPredicateModel>,
    indexes: Seq<usize>,
) -> Seq<FastPredicateModel> {
    Seq::new(
        predicates.len(),
        |i: int| predicates[i].on(position_of(indexes, predicates[i].column())->0 as usize),
    )
}

impl BtreeIndexFilter {
    /// The simple filters on decoded columns, where the filter is a conjunction of simple ones.
    pub open spec fn fast(self) -> Option<Seq<FastPredicateModel>> {
        opt_fast_view(self.fast_predicates)
    }

    /// The filter follows the plan: it reads the columns that it has to, each once, and its filters
    /// and its expression speak of them by their positions.
    pub open spec fn follows(
        self,
        info: BtreeIndexInfo,
        expr: ExprModel,
        keys: Seq<KeyPredicateModel>,
        predicates: Option<Seq<FastPredicateModel>>,
    ) -> bool {
        let indexes = self.payload_field_indexes@;
        &&& key_predicates_view(self.key_predicates@) == keys
        &&& is_index_set(indexes, wanted_columns(expr, predicates))
        &&& self.payload_fields@.len() == indexes.len()
        &&& forall|i: int|
            0 <= i < indexes.len() ==> (#[trigger] indexes[i]) < info.payload_fields@.len()
                && self.payload_fields@[i] == info.payload_fields@[indexes[i] as int]
        &&& match predicates {
            Some(predicates) => {
                &&& self.expr is None
                &&& self.fast() == Some(on_positions(predicates, indexes))
            },
            None => {
                &&& self.fast_predicates is None
                &&& self.expr matches Some(e) && projected(
                    expr,
                    position_table(indexes, info.payload_fields@.len()),
                ) == Ok::<_, usize>(e@)
            },
        }
    }
}

/// The first wanted column that the payload does not have.
pub open spec fn is_first_missing(wanted: Seq<usize>, width: nat, column: usize) -> bool {
    &&& wanted.contains(column)
    &&& column >= width
    &&& forall|c: usize| #[trigger] wanted.contains(c) && c >= width ==> column <= c
}

fn remap_all(predicates: Vec<BtreeIndexFastPredicate>, indexes: &Vec<usize>) -> (r: Vec<
    BtreeIndexFastPredicate,
>)
    requires
        forall|c: usize| #[trigger]
            predicate_columns(fast_predicates_view(predicates@)).contains(c)
                ==> indexes@.contains(c),
    ensures
        fast_predicates_view(r@) == on_positions(fast_predicates_view(predicates@), indexes@),
{
    let ghost models = fast_predicates_view(predicates@);
    let mut r: Vec<BtreeIndexFastPredicate> = Vec::new();
    let mut i: usize = 0;
    while i < predicates.len()
        invariant
            i <= predicates@.len(),
            models == fast_predicates_view(predicates@),
            forall|c: usize| #[trigger]
                predicate_columns(models).contains(c) ==> indexes@.contains(c),
            r@.len() == i,
            forall|k: int| 0 <= k < i ==> (#[trigger] r@[k])@ == on_positions(models, indexes@)[k],
        decreases predicates@.len() - i,
    {
        let predicate = predicates[i].clone();
        proof {
            let c = models[i as int].column();
            assert(predicate_columns(models)[i as int] == c);
            assert(predicate_columns(models).contains(c));
            lemma_position_of(indexes@, c);
        }
        match predicate.remap(indexes) {
            Some(remapped) => {
                r.push(remapped);
            },
            None => {},
        }
        i = i + 1;
    }
    assert(fast_predicates_view(r@) =~= on_positions(models, indexes@));
    r
}

fn columns_of_predicates(predicates: &Vec<BtreeIndexFastPredicate>) -> (r: Vec<usize>)
    ensures
        r@ == predicate_columns(fast_predicates_view(predicates@)),
{
    let mut r: Vec<usize> = Vec::new();
    let mut i: usize = 0;
    while i < predicates.len()
        invariant
            i <= predicates@.len(),
            r@.len() == i,
            forall|k: int|
                0 <= k < i ==> #[trigger] r@[k] == predicate_columns(
                    fast_predicates_view(predicates@),
                )[k],
        decreases predicates@.len() - i,
    {
        r.push(predicates[i].column());
        i = i + 1;
    }
    assert(r@ =~= predicate_columns(fast_predicates_view(predicates@)));
    r
}

fn positions(indexes: &Vec<usize>, width: usize) -> (r: Vec<Option<usize>>)
    ensures
        r@ == position_table(indexes@, width as nat),
{
    let mut r: Vec<Option<usize>> = Vec::new();
    let mut i: usize = 0;
    while i < width
        invariant
            i <= width,
            r@.len() == i,
            forall|k: int|
                0 <= k < i ==> #[trigger] r@[k] == position_table(indexes@, width as nat)[k],
        decreases width - i,
    {
        r.push(find_position(indexes, i));
        i = i + 1;
    }
    assert(r@ =~= position_table(indexes@, width as nat));
    r
}

/// The filter of a scan is made ready as planned, or fails so.
pub open spec fn filter_readied(
    info: BtreeIndexInfo,
    filters: Filters,
    same: spec_fn(ScalarModel, ScalarModel) -> bool,
    r: Result<Option<BtreeIndexFilter>, BtreeScanError>,
) -> bool {
    match filter_plan(info, filters, same) {
        Err(e) => r == Err::<Option<BtreeIndexFilter>, _>(e),
        Ok(plan) => match r {
            Ok(Some(filter)) => filter.follows(info, plan.0, plan.1, plan.2),
            Err(BtreeScanError::MissingPayloadColumn { column, width }) => width
                == info.payload_fields@.len() && is_first_missing(
                wanted_columns(plan.0, plan.2),
                width as nat,
                column,
            ),
            _ => false,
        },
    }
}

/// Makes the filter of a scan ready. The host says which values are equal.
pub fn build_filter_expr<E: Fn(&Scalar, &Scalar) -> bool>(
    info: &BtreeIndexInfo,
    filters: Option<&Filters>,
    equal: &E,
) -> (r: Result<Option<BtreeIndexFilter>, BtreeScanError>)
    requires
        forall|a: &Scalar, b: &Scalar| call_requires(*equal, (a, b)),
    ensures
        filters is None ==> r == Ok::<Option<BtreeIndexFilter>, BtreeScanError>(None),
        filters matches Some(f) ==> forall|same: spec_fn(ScalarModel, ScalarModel) -> bool|
            #[trigger] filter_settled(*info, *f, *equal, same) ==> filter_readied(
                *info,
                *f,
                same,
                r,
            ),
{
    let given = match filters {
        None => {
            return Ok(None);
        },
        Some(given) => given,
    };
    let columns = resolve_columns(&given.columns, &info.payload_fields);
    let expr = match project_column_ref(&given.expr, &columns) {
        Err(column) => {
            return Err(BtreeScanError::UnknownFilterColumn { column });
        },
        Ok(expr) => expr,
    };
    let equalities = match btree_prefix_payload_equalities(info) {
        Err(e) => {
            return Err(e);
        },
        Ok(equalities) => equalities,
    };
    let compiled_predicates = compile_btree_fast_predicates(&expr, &equalities, equal);
    let fields = match btree_key_fields_by_payload_index(info) {
        Err(e) => {
            return Err(e);
        },
        Ok(fields) => fields,
    };
    let (key_predicates, fast_predicates) = match compiled_predicates {
        None => {
            let none: Vec<BtreeIndexKeyPredicate> = Vec::new();
            assert(key_predicates_view(none@) =~= Seq::<KeyPredicateModel>::empty());
            (none, None)
        },
        Some(predicates) => match split_btree_fast_predicates(&predicates, &fields) {
            Err(error) => {
                return Err(BtreeScanError::Index { error });
            },
            Ok(split) => split,
        },
    };
    let ghost rest = opt_fast_view(fast_predicates);
    let ghost keys = key_predicates_view(key_predicates@);
    assert(forall|same: spec_fn(ScalarModel, ScalarModel) -> bool| #[trigger]
        filter_settled(*info, *given, *equal, same) ==> filter_plan(*info, *given, same) == Ok::<
            _,
            BtreeScanError,
        >(
            (expr@, keys, rest),
        ));
    let wanted: Vec<usize> = match &fast_predicates {
        Some(predicates) => columns_of_predicates(predicates),
        None => {
            let mut columns: Vec<usize> = Vec::new();
            collect_columns(&expr, &mut columns);
            assert(columns@ =~= columns_of(expr@));
            columns
        },
    };
    assert(wanted@ == wanted_columns(expr@, rest));
    let indexes = distinct_indexes(wanted);
    let mut payload_fields: Vec<TableField> = Vec::new();
    let mut i: usize = 0;
    while i < indexes.len()
        invariant
            i <= indexes@.len(),
            payload_fields@.len() == i,
            filters == Some(given),
            is_index_set(indexes@, wanted@),
            wanted@ == wanted_columns(expr@, rest),
            forall|same: spec_fn(ScalarModel, ScalarModel) -> bool| #[trigger]
                filter_settled(*info, *given, *equal, same) ==> filter_plan(*info, *given, same)
                    == Ok::<_, BtreeScanError>((expr@, keys, rest)),
            forall|k: int|
                0 <= k < i ==> (#[trigger] indexes@[k]) < info.payload_fields@.len()
                    && payload_fields@[k] == info.payload_fields@[indexes@[k] as int],
        decreases indexes@.len() - i,
    {
        let index: usize = indexes[i];
        if index >= info.payload_fields.len() {
            proof {
                assert(indexes@.contains(index));
                assert forall|c: usize| #[trigger]
                    wanted@.contains(c) && c >= info.payload_fields@.len() implies index <= c by {
                    assert(indexes@.contains(c));
                    let k = choose|k: int| 0 <= k < indexes@.len() && indexes@[k] == c;
                    if k < i {
                        assert(indexes@[k] < info.payload_fields@.len());
                    }
                }
            }
            return Err(
                BtreeScanError::MissingPayloadColumn {
                    column: index,
                    width: info.payload_fields.len(),
                },
            );
        }
        payload_fields.push(info.payload_fields[index].clone());
        i = i + 1;
    }
    match fast_predicates {
        Some(predicates) => {
            let fast = remap_all(predicates, &indexes);
            Ok(
                Some(
                    BtreeIndexFilter {
                        expr: None,
                        payload_field_indexes: indexes,
                        payload_fields,
                        key_predicates,
                        fast_predicates: Some(fast),
                    },
                ),
            )
        },
        None => {
            let table = positions(&indexes, info.payload_fields.len());
            proof {
                assert forall|c: usize| #[trigger] columns_of(expr@).contains(c) implies c
                    < table@.len() && table@[c as int] is Some by {
                    assert(wanted@.contains(c));
                    assert(indexes@.contains(c));
                    let k = choose|k: int| 0 <= k < indexes@.len() && indexes@[k] == c;
                    assert(indexes@[k] < info.payload_fields@.len());
                    lemma_position_of(indexes@, c);
                }
                lemma_projected_ok(expr@, table@);
            }
            match project_column_ref(&expr, &table) {
                Ok(e) => Ok(
                    Some(
                        BtreeIndexFilter {
                            expr: Some(e),
                            payload_field_indexes: indexes,
                            payload_fields,
                            key_predicates,
                            fast_predicates: None,
                        },
                    ),
                ),
                Err(column) => Err(BtreeScanError::UnknownFilterColumn { column }),
            }
        },
    }
}

} // verus!
