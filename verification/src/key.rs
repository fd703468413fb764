//! Index keys: a key is a sequence of components, each framed by its length and a separator.

use vstd::prelude::*;
use vstd::utf8::encode_utf8;

use crate::error::BtreeIndexError;
use crate::lex::{append_bytes, be32, be_bytes, byte_range, bytes_clone, lex_lt, lex_lt_at, push_be,
    read_be32};
use crate::lex::{lemma_be32_round_trip, lemma_lex_lt_by, lemma_lex_witness};
use crate::scalar::{lemma_scalars_view, scalar_view, scalars_view};
use crate::scalar::{DecimalScalar, DecimalSize, NumberScalar, Scalar, ScalarModel};
use crate::types::BtreeIndexKeyOrder;
use crate::wide::two128;

verus! {

/// The byte that ends a component.
pub const COMPONENT_SEPARATOR: u8 = 0xff;

/// Half of the numbers that `width` bytes spell: what is added to a signed number so that the
/// smallest becomes zero.
pub open spec fn half_range(width: nat) -> int {
    byte_range(width) / 2
}

/// The bytes of a signed number, ordered as the numbers are.
pub open spec fn signed_bytes(n: int, width: nat) -> Seq<u8> {
    be_bytes(n + half_range(width), width)
}

/// The bytes of a number, ordered as the numbers of one type are.
pub open spec fn number_bytes(number: NumberScalar) -> Seq<u8> {
    match number {
        NumberScalar::UInt8(v) => be_bytes(v as int, 1),
        NumberScalar::UInt16(v) => be_bytes(v as int, 2),
        NumberScalar::UInt32(v) => be_bytes(v as int, 4),
        NumberScalar::UInt64(v) => be_bytes(v as int, 8),
        NumberScalar::Int8(v) => signed_bytes(v as int, 1),
        NumberScalar::Int16(v) => signed_bytes(v as int, 2),
        NumberScalar::Int32(v) => signed_bytes(v as int, 4),
        NumberScalar::Int64(v) => signed_bytes(v as int, 8),
        NumberScalar::Float32(v) => be_bytes(v.rank as int, 4),
        NumberScalar::Float64(v) => be_bytes(v.rank as int, 8),
    }
}

/// The bytes of a decimal: its size and its digits.
pub open spec fn decimal_bytes(decimal: DecimalScalar) -> Seq<u8> {
    match decimal {
        DecimalScalar::Decimal64(v, size) => size_bytes(size) + signed_bytes(v as int, 8),
        DecimalScalar::Decimal128(v, size) => size_bytes(size) + signed_bytes(v as int, 16),
        DecimalScalar::Decimal256(v, size) => size_bytes(size) + signed_bytes(v@, 32),
    }
}

/// The bytes of a decimal's size.
pub open spec fn size_bytes(size: DecimalSize) -> Seq<u8> {
    seq![size.precision, size.scale]
}

/// A byte string of any length, behind its length.
pub open spec fn variable_bytes(bytes: Seq<u8>) -> Seq<u8> {
    be_bytes(bytes.len() as int, 4) + bytes
}

/// The bytes of a value in a key.
pub open spec fn value_bytes(scalar: ScalarModel) -> Seq<u8>
    decreases scalar,
{
    match scalar {
        ScalarModel::Null => seq![0u8],
        ScalarModel::EmptyArray => seq![1u8],
        ScalarModel::EmptyMap => seq![2u8],
        ScalarModel::Boolean(v) => seq![if v { 1u8 } else { 0u8 }],
        ScalarModel::Number(v) => number_bytes(v),
        ScalarModel::Decimal(v) => decimal_bytes(v),
        ScalarModel::Timestamp(v) => signed_bytes(v as int, 8),
        ScalarModel::TimestampTz(v) => v,
        ScalarModel::Date(v) => signed_bytes(v as int, 4),
        ScalarModel::Interval(v) => v,
        ScalarModel::String(v) => variable_bytes(encode_utf8(v)),
        ScalarModel::Binary(v) => variable_bytes(v),
        ScalarModel::Bitmap(v) => variable_bytes(v),
        ScalarModel::Variant(v) => variable_bytes(v),
        ScalarModel::Geometry(v) => variable_bytes(v),
        ScalarModel::Tuple(fields) => fields_bytes(fields),
        ScalarModel::Array(v) => variable_bytes(v),
        ScalarModel::Mapping(v) => variable_bytes(v),
        ScalarModel::Geography(v) => variable_bytes(v),
        ScalarModel::Vector(v) => variable_bytes(v),
        ScalarModel::Opaque(v) => variable_bytes(v),
    }
}

/// The bytes of the fields of a tuple: one ascending component after the other.
pub open spec fn fields_bytes(fields: Seq<ScalarModel>) -> Seq<u8>
    decreases fields,
{
    if fields.len() == 0 {
        Seq::empty()
    } else {
        fields_bytes(fields.drop_last()) + framed(value_bytes(fields.last()))
    }
}

/// The bytes with every bit flipped.
pub open spec fn inverted(bytes: Seq<u8>) -> Seq<u8> {
    Seq::new(bytes.len(), |i: int| (255 - bytes[i]) as u8)
}

/// The bytes of a component in its order: a descending one has every bit flipped.
pub open spec fn ordered_bytes(bytes: Seq<u8>, order: BtreeIndexKeyOrder) -> Seq<u8> {
    match order {
        BtreeIndexKeyOrder::Asc => bytes,
        BtreeIndexKeyOrder::Desc => inverted(bytes),
    }
}

/// What a key holds for a value, without its frame.
pub open spec fn component_bytes(scalar: ScalarModel, order: BtreeIndexKeyOrder) -> Seq<u8> {
    ordered_bytes(value_bytes(scalar), order)
}

/// A component in its frame: its length, its bytes, the separator.
pub open spec fn framed(bytes: Seq<u8>) -> Seq<u8> {
    be_bytes(bytes.len() as int, 4) + bytes + seq![COMPONENT_SEPARATOR]
}

/// The key of values in their orders.
pub open spec fn key_bytes(values: Seq<(ScalarModel, BtreeIndexKeyOrder)>) -> Seq<u8>
    decreases values.len(),
{
    if values.len() == 0 {
        Seq::empty()
    } else {
        key_bytes(values.drop_last()) + framed(component_bytes(values.last().0, values.last().1))
    }
}

/// Where the component that starts at `offset` ends, separator and all.
pub open spec fn component_end(key: Seq<u8>, offset: int) -> Result<int, BtreeIndexError> {
    if offset + 4 > key.len() {
        Err(BtreeIndexError::MissingComponentLength)
    } else {
        let separator = offset + 4 + be32(key.subrange(offset, offset + 4));
        if separator >= key.len() || key[separator] != COMPONENT_SEPARATOR {
            Err(BtreeIndexError::MissingComponentSeparator)
        } else {
            Ok(separator + 1)
        }
    }
}

/// Where the first `count` components of a key end.
pub open spec fn components_end(key: Seq<u8>, count: nat) -> Result<int, BtreeIndexError>
    decreases count,
{
    if count == 0 {
        Ok(0)
    } else {
        match components_end(key, (count - 1) as nat) {
            Err(e) => Err(e),
            Ok(offset) => component_end(key, offset),
        }
    }
}

/// The bytes of the component at `index`, where the key is well formed up to there.
pub open spec fn component_at(key: Seq<u8>, index: nat) -> Option<Seq<u8>> {
    match components_end(key, index) {
        Err(_) => None,
        Ok(offset) => match component_end(key, offset) {
            Err(_) => None,
            Ok(end) => Some(key.subrange(offset + 4, end - 1)),
        },
    }
}

/// The components of a key end within it.
pub proof fn lemma_components_end_bounds(key: Seq<u8>, count: nat)
    ensures
        components_end(key, count) matches Ok(end) ==> 0 <= end <= key.len(),
        count > 0 ==> (components_end(key, count) is Ok ==> components_end(
            key,
            (count - 1) as nat,
        ) is Ok),
    decreases count,
{
    if count > 0 {
        lemma_components_end_bounds(key, (count - 1) as nat);
    }
}

/// A key that is malformed early stays malformed.
proof fn lemma_components_end_fails(key: Seq<u8>, m: nat, n: nat)
    requires
        m <= n,
        components_end(key, m) is Err,
    ensures
        components_end(key, n) == components_end(key, m),
    decreases n,
{
    if m < n {
        lemma_components_end_fails(key, m, (n - 1) as nat);
    }
}

/// Finds the end of the component that starts at `offset`.
fn find_component_end(key: &[u8], offset: usize) -> (r: Result<usize, BtreeIndexError>)
    requires
        offset <= key@.len(),
    ensures
        match r {
            Ok(end) => component_end(key@, offset as int) == Ok::<_, BtreeIndexError>(end as int)
                && offset + 4 < end <= key@.len(),
            Err(e) => component_end(key@, offset as int) == Err::<int, _>(e),
        },
{
    let remaining: usize = key.len() - offset;
    if remaining < 4 {
        return Err(BtreeIndexError::MissingComponentLength);
    }
    let len: u32 = read_be32(key, offset);
    if len as u64 >= (remaining - 4) as u64 {
        return Err(BtreeIndexError::MissingComponentSeparator);
    }
    let separator: usize = offset + 4 + len as usize;
    if key[separator] != COMPONENT_SEPARATOR {
        return Err(BtreeIndexError::MissingComponentSeparator);
    }
    Ok(separator + 1)
}

/// The bytes of the first `component_count` components of a key.
pub fn btree_equality_prefix(key: &[u8], component_count: usize) -> (r: Result<
    Vec<u8>,
    BtreeIndexError,
>)
    ensures
        match r {
            Ok(prefix) => components_end(key@, component_count as nat) matches Ok(end) && 0 <= end
                <= key@.len() && prefix@ == key@.subrange(0, end),
            Err(e) => components_end(key@, component_count as nat) == Err::<int, _>(e),
        },
{
    let mut offset: usize = 0;
    let mut i: usize = 0;
    while i < component_count
        invariant
            i <= component_count,
            offset <= key@.len(),
            components_end(key@, i as nat) == Ok::<_, BtreeIndexError>(offset as int),
        decreases component_count - i,
    {
        match find_component_end(key, offset) {
            Err(e) => {
                proof {
                    assert(components_end(key@, (i + 1) as nat) == Err::<int, _>(e));
                    lemma_components_end_fails(key@, (i + 1) as nat, component_count as nat);
                }
                return Err(e);
            },
            Ok(end) => {
                offset = end;
            },
        }
        i = i + 1;
    }
    Ok(bytes_clone(vstd::slice::slice_subrange(key, 0, offset)))
}

/// The bytes of a component of a key, without its frame.
pub fn encoded_key_component(encoded_key: &[u8], component_index: usize) -> (r: Option<&[u8]>)
    ensures
        match r {
            Some(component) => component_at(encoded_key@, component_index as nat) == Some(
                component@,
            ),
            None => component_at(encoded_key@, component_index as nat) is None,
        },
{
    let mut offset: usize = 0;
    let mut i: usize = 0;
    loop
        invariant
            i <= component_index,
            offset <= encoded_key@.len(),
            components_end(encoded_key@, i as nat) == Ok::<_, BtreeIndexError>(offset as int),
        decreases component_index - i,
    {
        let end: usize = match find_component_end(encoded_key, offset) {
            Err(_) => {
                proof {
                    if i < component_index {
                        lemma_components_end_fails(
                            encoded_key@,
                            (i + 1) as nat,
                            component_index as nat,
                        );
                    }
                }
                return None;
            },
            Ok(end) => end,
        };
        if i == component_index {
            return Some(vstd::slice::slice_subrange(encoded_key, offset + 4, end - 1));
        }
        offset = end;
        i = i + 1;
    }
}

/// Appends a byte string behind its length.
fn encode_variable(buf: &mut Vec<u8>, bytes: &[u8])
    ensures
        final(buf)@ == old(buf)@ + variable_bytes(bytes@),
{
    push_be(buf, bytes.len() as u128, 4);
    append_bytes(buf, bytes);
    assert(buf@ =~= old(buf)@ + variable_bytes(bytes@));
}

/// How many numbers so many bytes spell.
pub proof fn lemma_byte_ranges()
    ensures
        byte_range(1) == 0x100,
        byte_range(2) == 0x1_0000,
        byte_range(4) == 0x1_0000_0000,
        byte_range(8) == 0x1_0000_0000_0000_0000,
        byte_range(16) == two128(),
        byte_range(32) == two128() * two128(),
{
    reveal_with_fuel(byte_range, 33);
}

/// The bytes of a wide number are the bytes of its two halves.
proof fn lemma_be_bytes_split(high: int, low: int, width: nat)
    requires
        0 <= low < byte_range(width),
    ensures
        be_bytes(high * byte_range(width) + low, (16 + width) as nat) == be_bytes(high, 16)
            + be_bytes(low, width),
    decreases width,
{
    if width == 0 {
        assert(be_bytes(high, 16) + be_bytes(low, 0) =~= be_bytes(high, 16));
    } else {
        let w = (width - 1) as nat;
        let n = high * byte_range(width) + low;
        assert(byte_range(width) == 256 * byte_range(w));
        assert(n == 256 * (high * byte_range(w)) + low) by (nonlinear_arith)
            requires
                n == high * byte_range(width) + low,
                byte_range(width) == 256 * byte_range(w),
        ;
        assert(n / 256 == high * byte_range(w) + low / 256);
        assert(n % 256 == low % 256);
        lemma_be_bytes_split(high, low / 256, w);
        assert((16 + width) as nat - 1 == (16 + w) as nat);
        assert(be_bytes(n, (16 + width) as nat) == be_bytes(n / 256, (16 + w) as nat).push(
            (n % 256) as u8,
        ));
        assert(be_bytes(n, (16 + width) as nat) =~= be_bytes(high, 16) + be_bytes(low, width));
    }
}

/// Appends the bytes of a number.
fn encode_number(buf: &mut Vec<u8>, number: NumberScalar)
    ensures
        final(buf)@ == old(buf)@ + number_bytes(number),
{
    proof {
        lemma_byte_ranges();
    }
    match number {
        NumberScalar::UInt8(v) => push_be(buf, v as u128, 1),
        NumberScalar::UInt16(v) => push_be(buf, v as u128, 2),
        NumberScalar::UInt32(v) => push_be(buf, v as u128, 4),
        NumberScalar::UInt64(v) => push_be(buf, v as u128, 8),
        NumberScalar::Int8(v) => push_be(buf, (v as i128 + 0x80) as u128, 1),
        NumberScalar::Int16(v) => push_be(buf, (v as i128 + 0x8000) as u128, 2),
        NumberScalar::Int32(v) => push_be(buf, (v as i128 + 0x8000_0000) as u128, 4),
        NumberScalar::Int64(v) => push_be(buf, (v as i128 + 0x8000_0000_0000_0000) as u128, 8),
        NumberScalar::Float32(v) => push_be(buf, v.rank as u128, 4),
        NumberScalar::Float64(v) => push_be(buf, v.rank as u128, 8),
    }
}

/// A signed number with the smallest put at zero.
fn lifted(n: i128) -> (r: u128)
    ensures
        r == n + 0x8000_0000_0000_0000_0000_0000_0000_0000,
{
    if n < 0 {
        0x8000_0000_0000_0000_0000_0000_0000_0000 - ((-(n + 1)) as u128) - 1
    } else {
        n as u128 + 0x8000_0000_0000_0000_0000_0000_0000_0000
    }
}

/// Appends the bytes of a decimal.
fn encode_decimal(buf: &mut Vec<u8>, decimal: DecimalScalar)
    ensures
        final(buf)@ == old(buf)@ + decimal_bytes(decimal),
{
    let ghost start = buf@;
    let size: DecimalSize = decimal.size();
    buf.push(size.precision);
    buf.push(size.scale);
    proof {
        lemma_byte_ranges();
        assert(buf@ =~= start + size_bytes(size));
    }
    match decimal {
        DecimalScalar::Decimal64(v, _) => {
            push_be(buf, (v as i128 + 0x8000_0000_0000_0000) as u128, 8);
        },
        DecimalScalar::Decimal128(v, _) => {
            push_be(buf, lifted(v), 16);
        },
        DecimalScalar::Decimal256(v, _) => {
            push_be(buf, lifted(v.high), 16);
            push_be(buf, v.low, 16);
            proof {
                let high = v.high + 0x8000_0000_0000_0000_0000_0000_0000_0000;
                lemma_be_bytes_split(high, v.low as int, 16);
                assert(v@ + half_range(32) == high * two128() + v.low);
                assert(be_bytes(v@ + half_range(32), 32) == be_bytes(high, 16) + be_bytes(
                    v.low as int,
                    16,
                ));
            }
        },
    }
    assert(buf@ =~= start + decimal_bytes(decimal));
}

/// Appends the bytes of a value.
fn encode_value(buf: &mut Vec<u8>, scalar: &Scalar)
    ensures
        final(buf)@ == old(buf)@ + value_bytes(scalar@),
    decreases scalar, 0nat,
{
    let ghost start = buf@;
    proof {
        lemma_byte_ranges();
    }
    match scalar {
        Scalar::Null => buf.push(0),
        Scalar::EmptyArray => buf.push(1),
        Scalar::EmptyMap => buf.push(2),
        Scalar::Boolean(v) => buf.push(
            if *v {
                1
            } else {
                0
            },
        ),
        Scalar::Number(v) => encode_number(buf, *v),
        Scalar::Decimal(v) => encode_decimal(buf, *v),
        Scalar::Timestamp(v) => push_be(buf, (*v as i128 + 0x8000_0000_0000_0000) as u128, 8),
        Scalar::TimestampTz(v) => append_bytes(buf, v.as_slice()),
        Scalar::Date(v) => push_be(buf, (*v as i128 + 0x8000_0000) as u128, 4),
        Scalar::Interval(v) => append_bytes(buf, v.as_slice()),
        Scalar::String(v) => encode_variable(buf, v.as_str().as_bytes()),
        Scalar::Binary(v) => encode_variable(buf, v.as_slice()),
        Scalar::Bitmap(v) => encode_variable(buf, v.as_slice()),
        Scalar::Variant(v) => encode_variable(buf, v.as_slice()),
        Scalar::Geometry(v) => encode_variable(buf, v.as_slice()),
        Scalar::Tuple(fields) => encode_fields(buf, fields),
        Scalar::Array(v) => encode_variable(buf, v.as_slice()),
        Scalar::Mapping(v) => encode_variable(buf, v.as_slice()),
        Scalar::Geography(v) => encode_variable(buf, v.as_slice()),
        Scalar::Vector(v) => encode_variable(buf, v.as_slice()),
        Scalar::Opaque(v) => encode_variable(buf, v.as_slice()),
    }
    assert(buf@ =~= start + value_bytes(scalar@));
}

/// Appends the fields of a tuple, one ascending component after the other.
fn encode_fields(buf: &mut Vec<u8>, fields: &Vec<Scalar>)
    ensures
        final(buf)@ == old(buf)@ + fields_bytes(scalars_view(fields@)),
    decreases fields, 0nat,
{
    let ghost start = buf@;
    let ghost models = scalars_view(fields@);
    proof {
        lemma_scalars_view(fields@);
        assert(models.take(0) =~= Seq::<ScalarModel>::empty());
        assert(start + fields_bytes(models.take(0)) =~= start);
    }
    let mut i: usize = 0;
    while i < fields.len()
        invariant
            i <= fields@.len(),
            models.len() == fields@.len(),
            forall|k: int|
                0 <= k < fields@.len() ==> #[trigger] models[k] == scalar_view(fields@[k]),
            buf@ == start + fields_bytes(models.take(i as int)),
        decreases fields@.len() - i,
    {
        assert(decreases_to!(fields => fields[i as int]));
        encode_component(buf, &fields[i], BtreeIndexKeyOrder::Asc);
        proof {
            let t = models.take(i + 1);
            assert(t.drop_last() =~= models.take(i as int));
            assert(t.last() == fields@[i as int]@);
            assert(buf@ =~= start + fields_bytes(t));
        }
        i = i + 1;
    }
    assert(models.take(fields@.len() as int) =~= models);
}

/// Flips every bit of the bytes.
fn invert(bytes: &mut Vec<u8>)
    ensures
        final(bytes)@ == inverted(old(bytes)@),
{
    let ghost start = bytes@;
    let mut i: usize = 0;
    while i < bytes.len()
        invariant
            i <= bytes@.len(),
            bytes@.len() == start.len(),
            forall|k: int| 0 <= k < i ==> #[trigger] bytes@[k] == (255 - start[k]) as u8,
            forall|k: int| i <= k < bytes@.len() ==> #[trigger] bytes@[k] == start[k],
        decreases bytes@.len() - i,
    {
        let b: u8 = bytes[i];
        bytes.set(i, 255 - b);
        i = i + 1;
    }
    assert(bytes@ =~= inverted(start));
}

/// Appends a value as a framed component.
fn encode_component(buf: &mut Vec<u8>, scalar: &Scalar, order: BtreeIndexKeyOrder)
    ensures
        final(buf)@ == old(buf)@ + framed(component_bytes(scalar@, order)),
    decreases scalar, 1nat,
{
    let mut bytes: Vec<u8> = Vec::new();
    encode_value(&mut bytes, scalar);
    assert(bytes@ =~= value_bytes(scalar@));
    if let BtreeIndexKeyOrder::Desc = order {
        invert(&mut bytes);
    }
    push_be(buf, bytes.len() as u128, 4);
    append_bytes(buf, bytes.as_slice());
    buf.push(COMPONENT_SEPARATOR);
    assert(buf@ =~= old(buf)@ + framed(component_bytes(scalar@, order)));
}

/// Appends a value to a key as a component in its order.
pub fn encode_btree_key_component(
    buf: &mut Vec<u8>,
    scalar: &Scalar,
    order: BtreeIndexKeyOrder,
) -> (r: Result<(), BtreeIndexError>)
    ensures
        r is Ok,
        final(buf)@ == old(buf)@ + framed(component_bytes(scalar@, order)),
{
    encode_component(buf, scalar, order);
    Ok(())
}

/// What a key holds for a value, without its frame.
pub fn encode_key_component_value(scalar: &Scalar, order: BtreeIndexKeyOrder) -> (r: Result<
    Vec<u8>,
    BtreeIndexError,
>)
    ensures
        match r {
            Ok(component) => component_at(framed(component_bytes(scalar@, order)), 0) == Some(
                component@,
            ),
            Err(e) => e == BtreeIndexError::EncodeComponent && component_at(
                framed(component_bytes(scalar@, order)),
                0,
            ) is None,
        },
        component_bytes(scalar@, order).len() < 0x1_0000_0000 ==> r is Ok && r->Ok_0@
            == component_bytes(scalar@, order),
{
    let mut key: Vec<u8> = Vec::new();
    encode_component(&mut key, scalar, order);
    proof {
        assert(key@ =~= framed(component_bytes(scalar@, order)));
        if component_bytes(scalar@, order).len() < 0x1_0000_0000 {
            lemma_framed_component(Seq::empty(), component_bytes(scalar@, order), Seq::empty());
            assert(Seq::<u8>::empty() + framed(component_bytes(scalar@, order)) + Seq::<u8>::empty()
                =~= key@);
        }
    }
    match encoded_key_component(key.as_slice(), 0) {
        Some(component) => Ok(bytes_clone(component)),
        None => Err(BtreeIndexError::EncodeComponent),
    }
}

/// A framed component is found where it stands.
pub proof fn lemma_framed_component(before: Seq<u8>, bytes: Seq<u8>, after: Seq<u8>)
    requires
        bytes.len() < 0x1_0000_0000,
    ensures
        component_end(before + framed(bytes) + after, before.len() as int) == Ok::<
            int,
            BtreeIndexError,
        >((before + framed(bytes)).len() as int),
        (before + framed(bytes) + after).subrange(
            before.len() as int + 4,
            (before + framed(bytes)).len() - 1,
        ) == bytes,
{
    let key = before + framed(bytes) + after;
    let o = before.len() as int;
    lemma_be32_round_trip(bytes.len() as int);
    assert(key.subrange(o, o + 4) =~= be_bytes(bytes.len() as int, 4));
    assert(key[o + 4 + bytes.len()] == COMPONENT_SEPARATOR);
    assert(key.subrange(o + 4, o + 4 + bytes.len()) =~= bytes);
}

/// The components of a key are shorter than what a frame's length can say.
pub open spec fn components_fit(values: Seq<(ScalarModel, BtreeIndexKeyOrder)>) -> bool {
    forall|i: int|
        0 <= i < values.len() ==> value_bytes((#[trigger] values[i]).0).len() < 0x1_0000_0000
}

/// The key of values is made of the key of the first ones, one component, and the rest.
pub proof fn lemma_key_bytes_split(values: Seq<(ScalarModel, BtreeIndexKeyOrder)>, i: int) -> (after:
    Seq<u8>)
    requires
        0 <= i < values.len(),
    ensures
        key_bytes(values) == key_bytes(values.take(i)) + framed(
            component_bytes(values[i].0, values[i].1),
        ) + after,
        key_bytes(values.take(i + 1)) == key_bytes(values.take(i)) + framed(
            component_bytes(values[i].0, values[i].1),
        ),
    decreases values.len(),
{
    let one = framed(component_bytes(values[i].0, values[i].1));
    assert(values.take(i + 1).drop_last() =~= values.take(i));
    if i == values.len() - 1 {
        assert(values.take(i + 1) =~= values);
        assert(key_bytes(values) =~= key_bytes(values.take(i)) + one + Seq::<u8>::empty());
        Seq::empty()
    } else {
        let head = values.drop_last();
        let rest = lemma_key_bytes_split(head, i);
        assert(head.take(i) =~= values.take(i));
        let last = framed(component_bytes(values.last().0, values.last().1));
        assert(key_bytes(values) =~= key_bytes(values.take(i)) + one + (rest + last));
        rest + last
    }
}

/// A key gives its parts back: its first components are the key of the first values, and each of its
/// components is what was put there.
pub proof fn law_key_gives_components_back(
    values: Seq<(ScalarModel, BtreeIndexKeyOrder)>,
    count: nat,
)
    requires
        components_fit(values),
        count <= values.len(),
    ensures
        components_end(key_bytes(values), count) == Ok::<int, BtreeIndexError>(
            key_bytes(values.take(count as int)).len() as int,
        ),
        key_bytes(values).subrange(0, key_bytes(values.take(count as int)).len() as int)
            == key_bytes(values.take(count as int)),
        count < values.len() ==> component_at(key_bytes(values), count) == Some(
            component_bytes(values[count as int].0, values[count as int].1),
        ),
    decreases count,
{
    let key = key_bytes(values);
    if count == 0 {
        assert(values.take(0) =~= Seq::<(ScalarModel, BtreeIndexKeyOrder)>::empty());
        assert(key.subrange(0, 0) =~= key_bytes(values.take(0)));
    } else {
        let i = (count - 1) as int;
        law_key_gives_components_back(values, i as nat);
        let bytes = component_bytes(values[i].0, values[i].1);
        assert(bytes.len() == value_bytes(values[i].0).len());
        let after = lemma_key_bytes_split(values, i);
        lemma_framed_component(key_bytes(values.take(i)), bytes, after);
        assert(key.subrange(0, key_bytes(values.take(i + 1)).len() as int) =~= key_bytes(
            values.take(i + 1),
        ));
    }
    if count < values.len() {
        let i = count as int;
        let bytes = component_bytes(values[i].0, values[i].1);
        assert(bytes.len() == value_bytes(values[i].0).len());
        let after = lemma_key_bytes_split(values, i);
        lemma_framed_component(key_bytes(values.take(i)), bytes, after);
    }
}

/// Flipping every bit turns the order of byte strings of one length around.
pub proof fn lemma_inverted_order(a: Seq<u8>, b: Seq<u8>)
    requires
        a.len() == b.len(),
    ensures
        lex_lt(inverted(a), inverted(b)) == lex_lt(b, a),
        inverted(a) == inverted(b) ==> a == b,
{
    if lex_lt(b, a) {
        let k = lemma_lex_witness(b, a);
        assert forall|j: int| 0 <= j < k implies #[trigger] inverted(a)[j] == inverted(b)[j] by {
            assert(b[j] == a[j]);
        }
        assert(lex_lt_at(inverted(a), inverted(b), k));
        lemma_lex_lt_by(inverted(a), inverted(b), k);
    }
    if lex_lt(inverted(a), inverted(b)) {
        let k = lemma_lex_witness(inverted(a), inverted(b));
        assert forall|j: int| 0 <= j < k implies #[trigger] b[j] == a[j] by {
            assert(inverted(a)[j] == inverted(b)[j]);
        }
        assert(lex_lt_at(b, a, k));
        lemma_lex_lt_by(b, a, k);
    }
    if inverted(a) == inverted(b) {
        assert forall|j: int| 0 <= j < a.len() implies a[j] == b[j] by {
            assert(inverted(a)[j] == inverted(b)[j]);
        }
        assert(a =~= b);
    }
}

} // verus!
