//! That a key tells values of every kind apart.

use vstd::prelude::*;

use crate::key::{component_bytes, fields_bytes, key_bytes, ordered_bytes, value_bytes,
    variable_bytes};
use crate::key_laws::lemma_component_injective;
use crate::lex::lemma_be_bytes_len;
use crate::scalar::ScalarModel;
use crate::types::BtreeIndexKeyOrder;

verus! {

/// What a key holds for byte strings of one kind differs where they do.
pub open spec fn tells_apart(
    kind: spec_fn(Seq<u8>) -> ScalarModel,
    a: Seq<u8>,
    b: Seq<u8>,
    order: BtreeIndexKeyOrder,
) -> bool {
    component_bytes(kind(a), order) == component_bytes(kind(b), order) <==> a == b
}

proof fn lemma_variable_tells(a: Seq<u8>, b: Seq<u8>)
    ensures
        variable_bytes(a) == variable_bytes(b) <==> a == b,
{
    lemma_be_bytes_len(a.len() as int, 4);
    lemma_be_bytes_len(b.len() as int, 4);
    if variable_bytes(a) == variable_bytes(b) {
        assert(a =~= variable_bytes(a).skip(4));
        assert(b =~= variable_bytes(b).skip(4));
    }
}

/// Values of one kind that are byte strings are told apart by their components in a key, ascending
/// or descending.
pub proof fn law_byte_strings_are_told_apart(a: Seq<u8>, b: Seq<u8>, order: BtreeIndexKeyOrder)
    ensures
        tells_apart(|v: Seq<u8>| ScalarModel::Binary(v), a, b, order),
        tells_apart(|v: Seq<u8>| ScalarModel::Bitmap(v), a, b, order),
        tells_apart(|v: Seq<u8>| ScalarModel::Variant(v), a, b, order),
        tells_apart(|v: Seq<u8>| ScalarModel::Geometry(v), a, b, order),
        tells_apart(|v: Seq<u8>| ScalarModel::Geography(v), a, b, order),
        tells_apart(|v: Seq<u8>| ScalarModel::Array(v), a, b, order),
        tells_apart(|v: Seq<u8>| ScalarModel::Mapping(v), a, b, order),
        tells_apart(|v: Seq<u8>| ScalarModel::Vector(v), a, b, order),
        tells_apart(|v: Seq<u8>| ScalarModel::Opaque(v), a, b, order),
        tells_apart(|v: Seq<u8>| ScalarModel::TimestampTz(v), a, b, order),
        tells_apart(|v: Seq<u8>| ScalarModel::Interval(v), a, b, order),
{
    lemma_variable_tells(a, b);
    lemma_component_injective(ScalarModel::Binary(a), ScalarModel::Binary(b), order);
    lemma_component_injective(ScalarModel::Bitmap(a), ScalarModel::Bitmap(b), order);
    lemma_component_injective(ScalarModel::Variant(a), ScalarModel::Variant(b), order);
    lemma_component_injective(ScalarModel::Geometry(a), ScalarModel::Geometry(b), order);
    lemma_component_injective(ScalarModel::Geography(a), ScalarModel::Geography(b), order);
    lemma_component_injective(ScalarModel::Array(a), ScalarModel::Array(b), order);
    lemma_component_injective(ScalarModel::Mapping(a), ScalarModel::Mapping(b), order);
    lemma_component_injective(ScalarModel::Vector(a), ScalarModel::Vector(b), order);
    lemma_component_injective(ScalarModel::Opaque(a), ScalarModel::Opaque(b), order);
    lemma_component_injective(ScalarModel::TimestampTz(a), ScalarModel::TimestampTz(b), order);
    lemma_component_injective(ScalarModel::Interval(a), ScalarModel::Interval(b), order);
}

/// A tuple stands in a key as the key of its fields, all ascending, stands by itself.
pub proof fn law_tuple_is_the_key_of_its_fields(fields: Seq<ScalarModel>)
    ensures
        value_bytes(ScalarModel::Tuple(fields)) == key_bytes(
            Seq::new(fields.len(), |i: int| (fields[i], BtreeIndexKeyOrder::Asc)),
        ),
    decreases fields.len(),
{
    let values = Seq::new(fields.len(), |i: int| (fields[i], BtreeIndexKeyOrder::Asc));
    assert(value_bytes(ScalarModel::Tuple(fields)) == fields_bytes(fields));
    if fields.len() > 0 {
        let head = fields.drop_last();
        law_tuple_is_the_key_of_its_fields(head);
        let before = Seq::new(head.len(), |i: int| (head[i], BtreeIndexKeyOrder::Asc));
        assert(values.drop_last() =~= before);
        assert(value_bytes(ScalarModel::Tuple(head)) == fields_bytes(head));
        assert(component_bytes(fields.last(), BtreeIndexKeyOrder::Asc) == ordered_bytes(
            value_bytes(fields.last()),
            BtreeIndexKeyOrder::Asc,
        ));
    }
}

} // verus!
