//! Filters on keys and payloads.

use std::cmp::Ordering;

use vstd::prelude::*;

use crate::key::{btree_equality_prefix, component_at, components_end, encoded_key_component};
use crate::lex::{bytes_clone, bytes_eq, bytes_le, bytes_lt, bytes_start_with, has_prefix, lex_le,
    lex_lt};
use crate::text::text_eq;
use crate::types::{BtreeIndexDataBlockMeta, BtreeIndexKeyOrder};

verus! {

/// A comparison of a column with a constant.
#[derive(Clone, Copy, Debug, PartialEq, Eq, Structural)]
pub enum BtreeIndexFastCompareOp {
    Eq,
    NotEq,
    Gt,
    Gte,
    Lt,
    Lte,
}

/// The comparison of the same name, by its name in expressions.
pub open spec fn op_named(name: Seq<char>) -> Option<BtreeIndexFastCompareOp> {
    if name == "eq"@ {
        Some(BtreeIndexFastCompareOp::Eq)
    } else if name == "noteq"@ {
        Some(BtreeIndexFastCompareOp::NotEq)
    } else if name == "gt"@ {
        Some(BtreeIndexFastCompareOp::Gt)
    } else if name == "gte"@ {
        Some(BtreeIndexFastCompareOp::Gte)
    } else if name == "lt"@ {
        Some(BtreeIndexFastCompareOp::Lt)
    } else if name == "lte"@ {
        Some(BtreeIndexFastCompareOp::Lte)
    } else {
        None
    }
}

/// The comparison with its two sides exchanged.
pub open spec fn mirrored(op: BtreeIndexFastCompareOp) -> BtreeIndexFastCompareOp {
    match op {
        BtreeIndexFastCompareOp::Eq => BtreeIndexFastCompareOp::Eq,
        BtreeIndexFastCompareOp::NotEq => BtreeIndexFastCompareOp::NotEq,
        BtreeIndexFastCompareOp::Gt => BtreeIndexFastCompareOp::Lt,
        BtreeIndexFastCompareOp::Gte => BtreeIndexFastCompareOp::Lte,
        BtreeIndexFastCompareOp::Lt => BtreeIndexFastCompareOp::Gt,
        BtreeIndexFastCompareOp::Lte => BtreeIndexFastCompareOp::Gte,
    }
}

/// The comparison that a name stands for, with the column on its left; `reverse` where the column
/// stands on the right.
pub open spec fn op_for(name: Seq<char>, reverse: bool) -> Option<BtreeIndexFastCompareOp> {
    match op_named(name) {
        None => None,
        Some(op) => Some(
            if reverse {
                mirrored(op)
            } else {
                op
            },
        ),
    }
}

/// The comparison holds of a value that stands so to the constant.
pub open spec fn op_holds(op: BtreeIndexFastCompareOp, ordering: Ordering) -> bool {
    match op {
        BtreeIndexFastCompareOp::Eq => ordering == Ordering::Equal,
        BtreeIndexFastCompareOp::NotEq => ordering != Ordering::Equal,
        BtreeIndexFastCompareOp::Gt => ordering == Ordering::Greater,
        BtreeIndexFastCompareOp::Gte => ordering != Ordering::Less,
        BtreeIndexFastCompareOp::Lt => ordering == Ordering::Less,
        BtreeIndexFastCompareOp::Lte => ordering != Ordering::Greater,
    }
}

/// How an integer stands to another.
pub open spec fn int_ordering(a: int, b: int) -> Ordering {
    if a < b {
        Ordering::Less
    } else if a == b {
        Ordering::Equal
    } else {
        Ordering::Greater
    }
}

/// How a byte string stands to another.
pub open spec fn lex_ordering(a: Seq<u8>, b: Seq<u8>) -> Ordering {
    if lex_lt(a, b) {
        Ordering::Less
    } else if a == b {
        Ordering::Equal
    } else {
        Ordering::Greater
    }
}

/// The ordering turned around.
pub open spec fn reversed(ordering: Ordering) -> Ordering {
    match ordering {
        Ordering::Less => Ordering::Greater,
        Ordering::Equal => Ordering::Equal,
        Ordering::Greater => Ordering::Less,
    }
}

/// How the bytes of a component stand to those of another in the component's order.
pub open spec fn component_ordering(
    component: Seq<u8>,
    constant: Seq<u8>,
    order: BtreeIndexKeyOrder,
) -> Ordering {
    match order {
        BtreeIndexKeyOrder::Asc => lex_ordering(component, constant),
        BtreeIndexKeyOrder::Desc => reversed(lex_ordering(component, constant)),
    }
}

/// Finds the comparison that a name stands for.
pub fn fast_compare_op(op_name: &str, reverse: bool) -> (r: Option<BtreeIndexFastCompareOp>)
    ensures
        r == op_for(op_name@, reverse),
{
    if text_eq(op_name, "eq") {
        Some(BtreeIndexFastCompareOp::Eq)
    } else if text_eq(op_name, "noteq") {
        Some(BtreeIndexFastCompareOp::NotEq)
    } else if text_eq(op_name, "gt") {
        if reverse {
            Some(BtreeIndexFastCompareOp::Lt)
        } else {
            Some(BtreeIndexFastCompareOp::Gt)
        }
    } else if text_eq(op_name, "gte") {
        if reverse {
            Some(BtreeIndexFastCompareOp::Lte)
        } else {
            Some(BtreeIndexFastCompareOp::Gte)
        }
    } else if text_eq(op_name, "lt") {
        if reverse {
            Some(BtreeIndexFastCompareOp::Gt)
        } else {
            Some(BtreeIndexFastCompareOp::Lt)
        }
    } else if text_eq(op_name, "lte") {
        if reverse {
            Some(BtreeIndexFastCompareOp::Gte)
        } else {
            Some(BtreeIndexFastCompareOp::Lte)
        }
    } else {
        None
    }
}

/// Whether a comparison holds of a value that stands so to the constant.
pub fn evaluate_btree_ordering(op: BtreeIndexFastCompareOp, ordering: Ordering) -> (r: bool)
    ensures
        r == op_holds(op, ordering),
{
    match op {
        BtreeIndexFastCompareOp::Eq => matches!(ordering, Ordering::Equal),
        BtreeIndexFastCompareOp::NotEq => !matches!(ordering, Ordering::Equal),
        BtreeIndexFastCompareOp::Gt => matches!(ordering, Ordering::Greater),
        BtreeIndexFastCompareOp::Gte => matches!(ordering, Ordering::Greater | Ordering::Equal),
        BtreeIndexFastCompareOp::Lt => matches!(ordering, Ordering::Less),
        BtreeIndexFastCompareOp::Lte => matches!(ordering, Ordering::Less | Ordering::Equal),
    }
}

/// A filter on a component of the key.
#[derive(Debug)]
pub struct BtreeIndexKeyPredicate {
    pub component_index: usize,
    pub order: BtreeIndexKeyOrder,
    pub kind: BtreeIndexKeyPredicateKind,
}

/// What a filter asks of a component.
#[derive(Debug)]
pub enum BtreeIndexKeyPredicateKind {
    IsNull { null_component: Vec<u8> },
    IsNotNull { null_component: Vec<u8> },
    Compare { op: BtreeIndexFastCompareOp, constant_component: Vec<u8>, null_component: Vec<u8> },
}

/// The model of a filter on a component of the key.
pub struct KeyPredicateModel {
    pub component_index: usize,
    pub order: BtreeIndexKeyOrder,
    pub kind: KeyPredicateKindModel,
}

/// The model of what a filter asks of a component.
pub enum KeyPredicateKindModel {
    IsNull { null_component: Seq<u8> },
    IsNotNull { null_component: Seq<u8> },
    Compare { op: BtreeIndexFastCompareOp, constant_component: Seq<u8>, null_component: Seq<u8> },
}

impl View for BtreeIndexKeyPredicate {
    type V = KeyPredicateModel;

    open spec fn view(&self) -> KeyPredicateModel {
        KeyPredicateModel {
            component_index: self.component_index,
            order: self.order,
            kind: match self.kind {
                BtreeIndexKeyPredicateKind::IsNull { null_component } =>
                    KeyPredicateKindModel::IsNull { null_component: null_component@ },
                BtreeIndexKeyPredicateKind::IsNotNull { null_component } =>
                    KeyPredicateKindModel::IsNotNull { null_component: null_component@ },
                BtreeIndexKeyPredicateKind::Compare {
                    op,
                    constant_component,
                    null_component,
                } => KeyPredicateKindModel::Compare {
                    op,
                    constant_component: constant_component@,
                    null_component: null_component@,
                },
            },
        }
    }
}

impl Clone for BtreeIndexKeyPredicate {
    fn clone(&self) -> (r: Self)
        ensures
            r@ == self@,
    {
        let kind = match &self.kind {
            BtreeIndexKeyPredicateKind::IsNull { null_component } =>
                BtreeIndexKeyPredicateKind::IsNull {
                null_component: bytes_clone(null_component.as_slice()),
            },
            BtreeIndexKeyPredicateKind::IsNotNull { null_component } =>
                BtreeIndexKeyPredicateKind::IsNotNull {
                null_component: bytes_clone(null_component.as_slice()),
            },
            BtreeIndexKeyPredicateKind::Compare { op, constant_component, null_component } =>
                BtreeIndexKeyPredicateKind::Compare {
                op: *op,
                constant_component: bytes_clone(constant_component.as_slice()),
                null_component: bytes_clone(null_component.as_slice()),
            },
        };
        BtreeIndexKeyPredicate { component_index: self.component_index, order: self.order, kind }
    }
}

/// The models of filters on the key.
pub open spec fn key_predicates_view(predicates: Seq<BtreeIndexKeyPredicate>) -> Seq<
    KeyPredicateModel,
> {
    Seq::new(predicates.len(), |i: int| predicates[i]@)
}

/// A filter holds of the bytes of a component.
pub open spec fn component_satisfies(predicate: KeyPredicateModel, component: Seq<u8>) -> bool {
    match predicate.kind {
        KeyPredicateKindModel::IsNull { null_component } => component == null_component,
        KeyPredicateKindModel::IsNotNull { null_component } => component != null_component,
        KeyPredicateKindModel::Compare { op, constant_component, null_component } => {
            &&& component != null_component
            &&& constant_component != null_component
            &&& op_holds(op, component_ordering(component, constant_component, predicate.order))
        },
    }
}

/// A filter holds of a key: the key has the component, and the filter holds of it.
pub open spec fn key_satisfies(predicate: KeyPredicateModel, key: Seq<u8>) -> bool {
    match component_at(key, predicate.component_index as nat) {
        None => false,
        Some(component) => component_satisfies(predicate, component),
    }
}

/// All filters hold of a key.
pub open spec fn key_satisfies_all(predicates: Seq<KeyPredicateModel>, key: Seq<u8>) -> bool {
    forall|i: int| 0 <= i < predicates.len() ==> key_satisfies(#[trigger] predicates[i], key)
}

/// How a byte string stands to another.
fn compare_bytes(a: &[u8], b: &[u8]) -> (r: Ordering)
    ensures
        r == lex_ordering(a@, b@),
{
    if bytes_lt(a, b) {
        Ordering::Less
    } else if bytes_eq(a, b) {
        Ordering::Equal
    } else {
        Ordering::Greater
    }
}

/// Whether a filter holds of a key.
pub fn evaluate_btree_key_predicate(predicate: &BtreeIndexKeyPredicate, encoded_key: &[u8]) -> (r:
    bool)
    ensures
        r == key_satisfies(predicate@, encoded_key@),
{
    let component = match encoded_key_component(encoded_key, predicate.component_index) {
        Some(component) => component,
        None => {
            return false;
        },
    };
    match &predicate.kind {
        BtreeIndexKeyPredicateKind::IsNull { null_component } => bytes_eq(
            component,
            null_component.as_slice(),
        ),
        BtreeIndexKeyPredicateKind::IsNotNull { null_component } => !bytes_eq(
            component,
            null_component.as_slice(),
        ),
        BtreeIndexKeyPredicateKind::Compare { op, constant_component, null_component } => {
            if bytes_eq(component, null_component.as_slice()) || bytes_eq(
                constant_component.as_slice(),
                null_component.as_slice(),
            ) {
                return false;
            }
            let plain = compare_bytes(component, constant_component.as_slice());
            let ordering = match (predicate.order, plain) {
                (BtreeIndexKeyOrder::Asc, _) => plain,
                (BtreeIndexKeyOrder::Desc, Ordering::Less) => Ordering::Greater,
                (BtreeIndexKeyOrder::Desc, Ordering::Equal) => Ordering::Equal,
                (BtreeIndexKeyOrder::Desc, Ordering::Greater) => Ordering::Less,
            };
            evaluate_btree_ordering(*op, ordering)
        },
    }
}

/// Whether all filters hold of a key.
pub fn evaluate_btree_key_predicates(
    predicates: &Vec<BtreeIndexKeyPredicate>,
    encoded_key: &[u8],
) -> (r: bool)
    ensures
        r == key_satisfies_all(key_predicates_view(predicates@), encoded_key@),
{
    let ghost models = key_predicates_view(predicates@);
    let mut i: usize = 0;
    while i < predicates.len()
        invariant
            i <= predicates@.len(),
            models == key_predicates_view(predicates@),
            forall|k: int| 0 <= k < i ==> key_satisfies(#[trigger] models[k], encoded_key@),
        decreases predicates@.len() - i,
    {
        if !evaluate_btree_key_predicate(&predicates[i], encoded_key) {
            assert(models[i as int] == predicates@[i as int]@);
            return false;
        }
        i = i + 1;
    }
    true
}

/// The bytes of a component lie between two others.
pub open spec fn in_component_range(component: Seq<u8>, first: Seq<u8>, last: Seq<u8>) -> bool {
    lex_le(first, component) && lex_le(component, last)
}

/// Whether the bytes of a component lie between two others.
pub fn component_in_range(component: &[u8], first_component: &[u8], last_component: &[u8]) -> (r:
    bool)
    ensures
        r == in_component_range(component@, first_component@, last_component@),
{
    bytes_le(first_component, component) && bytes_le(component, last_component)
}

/// A filter may hold of a component between `first` and `last`. Where these are out of order nothing
/// is known.
pub open spec fn range_may_satisfy(
    predicate: KeyPredicateModel,
    first: Seq<u8>,
    last: Seq<u8>,
) -> bool {
    lex_lt(last, first) || match predicate.kind {
        KeyPredicateKindModel::IsNull { null_component } => in_component_range(
            null_component,
            first,
            last,
        ),
        KeyPredicateKindModel::IsNotNull { null_component } => !(first == null_component && last
            == null_component),
        KeyPredicateKindModel::Compare { op, constant_component, null_component } => {
            &&& !(first == null_component && last == null_component)
            &&& match (op, predicate.order) {
                (BtreeIndexFastCompareOp::Eq, _) => in_component_range(
                    constant_component,
                    first,
                    last,
                ),
                (BtreeIndexFastCompareOp::NotEq, _) => first != constant_component || last
                    != constant_component,
                (BtreeIndexFastCompareOp::Gt, BtreeIndexKeyOrder::Asc) => lex_lt(
                    constant_component,
                    last,
                ),
                (BtreeIndexFastCompareOp::Gt, BtreeIndexKeyOrder::Desc) => lex_lt(
                    first,
                    constant_component,
                ),
                (BtreeIndexFastCompareOp::Gte, BtreeIndexKeyOrder::Asc) => lex_le(
                    constant_component,
                    last,
                ),
                (BtreeIndexFastCompareOp::Gte, BtreeIndexKeyOrder::Desc) => lex_le(
                    first,
                    constant_component,
                ),
                (BtreeIndexFastCompareOp::Lt, BtreeIndexKeyOrder::Asc) => lex_lt(
                    first,
                    constant_component,
                ),
                (BtreeIndexFastCompareOp::Lt, BtreeIndexKeyOrder::Desc) => lex_lt(
                    constant_component,
                    last,
                ),
                (BtreeIndexFastCompareOp::Lte, BtreeIndexKeyOrder::Asc) => lex_le(
                    first,
                    constant_component,
                ),
                (BtreeIndexFastCompareOp::Lte, BtreeIndexKeyOrder::Desc) => lex_le(
                    constant_component,
                    last,
                ),
            }
        },
    }
}

/// Whether a filter may hold of a component between two others.
pub fn key_component_range_may_match_predicate(
    predicate: &BtreeIndexKeyPredicate,
    first_component: &[u8],
    last_component: &[u8],
) -> (r: bool)
    ensures
        r == range_may_satisfy(predicate@, first_component@, last_component@),
{
    if bytes_lt(last_component, first_component) {
        return true;
    }
    match &predicate.kind {
        BtreeIndexKeyPredicateKind::IsNull { null_component } => component_in_range(
            null_component.as_slice(),
            first_component,
            last_component,
        ),
        BtreeIndexKeyPredicateKind::IsNotNull { null_component } => !(bytes_eq(
            first_component,
            null_component.as_slice(),
        ) && bytes_eq(last_component, null_component.as_slice())),
        BtreeIndexKeyPredicateKind::Compare { op, constant_component, null_component } => {
            let constant = constant_component.as_slice();
            if bytes_eq(first_component, null_component.as_slice()) && bytes_eq(
                last_component,
                null_component.as_slice(),
            ) {
                return false;
            }
            match (*op, predicate.order) {
                (BtreeIndexFastCompareOp::Eq, _) => component_in_range(
                    constant,
                    first_component,
                    last_component,
                ),
                (BtreeIndexFastCompareOp::NotEq, _) => !bytes_eq(first_component, constant)
                    || !bytes_eq(last_component, constant),
                (BtreeIndexFastCompareOp::Gt, BtreeIndexKeyOrder::Asc) => bytes_lt(
                    constant,
                    last_component,
                ),
                (BtreeIndexFastCompareOp::Gt, BtreeIndexKeyOrder::Desc) => bytes_lt(
                    first_component,
                    constant,
                ),
                (BtreeIndexFastCompareOp::Gte, BtreeIndexKeyOrder::Asc) => bytes_le(
                    constant,
                    last_component,
                ),
                (BtreeIndexFastCompareOp::Gte, BtreeIndexKeyOrder::Desc) => bytes_le(
                    first_component,
                    constant,
                ),
                (BtreeIndexFastCompareOp::Lt, BtreeIndexKeyOrder::Asc) => bytes_lt(
                    first_component,
                    constant,
                ),
                (BtreeIndexFastCompareOp::Lt, BtreeIndexKeyOrder::Desc) => bytes_lt(
                    constant,
                    last_component,
                ),
                (BtreeIndexFastCompareOp::Lte, BtreeIndexKeyOrder::Asc) => bytes_le(
                    first_component,
                    constant,
                ),
                (BtreeIndexFastCompareOp::Lte, BtreeIndexKeyOrder::Desc) => bytes_le(
                    constant,
                    last_component,
                ),
            }
        },
    }
}

/// The first and the last key agree in all components before this one: it is the first after the
/// equality prefix, or both keys are well formed up to it and start alike.
pub open spec fn constant_before(
    first_key: Seq<u8>,
    last_key: Seq<u8>,
    prefix_component_count: usize,
    component_index: usize,
) -> bool {
    component_index == prefix_component_count || (component_index > prefix_component_count && (
    components_end(first_key, component_index as nat) matches Ok(a) && components_end(
        last_key,
        component_index as nat,
    ) matches Ok(b) && first_key.subrange(0, a) == last_key.subrange(0, b)))
}

/// Whether the first and the last key of a block agree in all components before this one.
pub fn candidate_block_has_constant_prefix_before_component(
    block_meta: &BtreeIndexDataBlockMeta,
    prefix_component_count: usize,
    component_index: usize,
) -> (r: bool)
    ensures
        r == constant_before(
            block_meta.first_key@,
            block_meta.last_key@,
            prefix_component_count,
            component_index,
        ),
{
    if component_index == prefix_component_count {
        return true;
    }
    if component_index < prefix_component_count {
        return false;
    }
    match (
        btree_equality_prefix(block_meta.first_key.as_slice(), component_index),
        btree_equality_prefix(block_meta.last_key.as_slice(), component_index),
    ) {
        (Ok(first_prefix), Ok(last_prefix)) => bytes_eq(
            first_prefix.as_slice(),
            last_prefix.as_slice(),
        ),
        _ => false,
    }
}

/// One filter does not rule the block out.
pub open spec fn filter_allows_block(
    first_key: Seq<u8>,
    last_key: Seq<u8>,
    prefix_component_count: usize,
    predicate: KeyPredicateModel,
) -> bool {
    constant_before(
        first_key,
        last_key,
        prefix_component_count,
        predicate.component_index,
    ) ==> match (
        component_at(first_key, predicate.component_index as nat),
        component_at(last_key, predicate.component_index as nat),
    ) {
        (Some(first), Some(last)) => range_may_satisfy(predicate, first, last),
        _ => true,
    }
}

/// A block may hold keys that begin with `prefix` and of which all filters hold.
pub open spec fn block_may_satisfy(
    first_key: Seq<u8>,
    last_key: Seq<u8>,
    prefix: Seq<u8>,
    prefix_component_count: usize,
    predicates: Seq<KeyPredicateModel>,
) -> bool {
    ||| !has_prefix(first_key, prefix)
    ||| !has_prefix(last_key, prefix)
    ||| forall|i: int|
        0 <= i < predicates.len() ==> filter_allows_block(
            first_key,
            last_key,
            prefix_component_count,
            #[trigger] predicates[i],
        )
}

/// Whether a block may hold keys that begin with `prefix` and of which all filters hold.
pub fn candidate_block_may_match_key_predicates(
    block_meta: &BtreeIndexDataBlockMeta,
    prefix: &[u8],
    prefix_component_count: usize,
    key_predicates: &Vec<BtreeIndexKeyPredicate>,
) -> (r: bool)
    ensures
        r == block_may_satisfy(
            block_meta.first_key@,
            block_meta.last_key@,
            prefix@,
            prefix_component_count,
            key_predicates_view(key_predicates@),
        ),
{
    let first_key = block_meta.first_key.as_slice();
    let last_key = block_meta.last_key.as_slice();
    if key_predicates.len() == 0 || !bytes_start_with(first_key, prefix) || !bytes_start_with(
        last_key,
        prefix,
    ) {
        return true;
    }
    let ghost models = key_predicates_view(key_predicates@);
    let mut i: usize = 0;
    while i < key_predicates.len()
        invariant
            i <= key_predicates@.len(),
            first_key@ == block_meta.first_key@,
            last_key@ == block_meta.last_key@,
            has_prefix(first_key@, prefix@),
            has_prefix(last_key@, prefix@),
            models == key_predicates_view(key_predicates@),
            forall|k: int|
                0 <= k < i ==> filter_allows_block(
                    first_key@,
                    last_key@,
                    prefix_component_count,
                    #[trigger] models[k],
                ),
        decreases key_predicates@.len() - i,
    {
        let predicate = &key_predicates[i];
        assert(models[i as int] == predicate@);
        if candidate_block_has_constant_prefix_before_component(
            block_meta,
            prefix_component_count,
            predicate.component_index,
        ) {
            match (
                encoded_key_component(first_key, predicate.component_index),
                encoded_key_component(last_key, predicate.component_index),
            ) {
                (Some(first_component), Some(last_component)) => {
                    if !key_component_range_may_match_predicate(
                        predicate,
                        first_component,
                        last_component,
                    ) {
                        return false;
                    }
                },
                _ => {},
            }
        }
        i = i + 1;
    }
    true
}

} // verus!
