//! What the bytes of keys say of the values in them.

use std::cmp::Ordering;

use vstd::prelude::*;
use vstd::utf8::encode_utf8;

use crate::error::BtreeIndexError;
use crate::filter::{prefix_values, BtreeIndexInfo};
use crate::key::{component_at, component_bytes, component_end, components_end, components_fit,
    framed, half_range, inverted, key_bytes, law_key_gives_components_back, lemma_byte_ranges,
    lemma_components_end_bounds, lemma_inverted_order, lemma_key_bytes_split, size_bytes,
    value_bytes, variable_bytes, COMPONENT_SEPARATOR};
use crate::lex::{be_bytes, byte_range, has_prefix, lemma_be_bytes_len, lemma_be_bytes_order,
    lemma_lex_common_head, lemma_lex_irreflexive, lemma_lex_lt_by, lemma_lex_total,
    lemma_lex_transitive, lemma_lex_witness, lex_lt, lex_lt_at};
use crate::predicate::{component_ordering, component_satisfies, int_ordering, lex_ordering, op_holds,
    BtreeIndexFastCompareOp, KeyPredicateKindModel, KeyPredicateModel};
use crate::scalar::{DecimalScalar, NumberScalar, ScalarModel};
use crate::text::lemma_utf8_injective;
use crate::types::BtreeIndexKeyOrder;
use crate::wide::{two128, I256};

verus! {

/// The type of a value whose bytes in a key are of one length: a tag, the bytes that all values of
/// the type begin with, and how many bytes follow.
pub struct FixedType {
    pub tag: int,
    pub head: Seq<u8>,
    pub width: nat,
}

/// A value of a type whose bytes in a key are of one length: its type, and the number that orders
/// it among the values of the type. A floating-point number is ordered by its rank.
pub open spec fn fixed_value(scalar: ScalarModel) -> Option<(FixedType, int)> {
    match scalar {
        ScalarModel::Boolean(v) => Some(
            (plain_type(0, 1), if v {
                1
            } else {
                0
            }),
        ),
        ScalarModel::Number(number) => Some(fixed_number(number)),
        ScalarModel::Decimal(decimal) => Some(fixed_decimal(decimal)),
        ScalarModel::Timestamp(v) => Some((plain_type(20, 8), v as int)),
        ScalarModel::Date(v) => Some((plain_type(21, 4), v as int)),
        _ => None,
    }
}

/// A type whose values have no common bytes.
pub open spec fn plain_type(tag: int, width: nat) -> FixedType {
    FixedType { tag, head: Seq::empty(), width }
}

/// The type and the order of a number.
pub open spec fn fixed_number(number: NumberScalar) -> (FixedType, int) {
    match number {
        NumberScalar::UInt8(v) => (plain_type(1, 1), v as int),
        NumberScalar::UInt16(v) => (plain_type(2, 2), v as int),
        NumberScalar::UInt32(v) => (plain_type(3, 4), v as int),
        NumberScalar::UInt64(v) => (plain_type(4, 8), v as int),
        NumberScalar::Int8(v) => (plain_type(5, 1), v as int),
        NumberScalar::Int16(v) => (plain_type(6, 2), v as int),
        NumberScalar::Int32(v) => (plain_type(7, 4), v as int),
        NumberScalar::Int64(v) => (plain_type(8, 8), v as int),
        NumberScalar::Float32(v) => (plain_type(9, 4), v.rank as int),
        NumberScalar::Float64(v) => (plain_type(10, 8), v.rank as int),
    }
}

/// The type and the order of a decimal: decimals of one size are ordered by their digits.
pub open spec fn fixed_decimal(decimal: DecimalScalar) -> (FixedType, int) {
    match decimal {
        DecimalScalar::Decimal64(v, size) => (
            FixedType { tag: 30, head: size_bytes(size), width: 8 },
            v as int,
        ),
        DecimalScalar::Decimal128(v, size) => (
            FixedType { tag: 31, head: size_bytes(size), width: 16 },
            v as int,
        ),
        DecimalScalar::Decimal256(v, size) => (
            FixedType { tag: 32, head: size_bytes(size), width: 32 },
            v@,
        ),
    }
}

/// What is added to the number that orders a value so that it is never negative.
pub open spec fn lift(fixed: FixedType) -> int {
    if 5 <= fixed.tag <= 8 || fixed.tag >= 20 {
        half_range(fixed.width)
    } else {
        0
    }
}

/// The bytes of a value of a type whose bytes are of one length.
proof fn lemma_fixed_bytes(scalar: ScalarModel)
    requires
        fixed_value(scalar) is Some,
    ensures
        ({
            let (fixed, n) = fixed_value(scalar)->Some_0;
            &&& value_bytes(scalar) == fixed.head + be_bytes(n + lift(fixed), fixed.width)
            &&& 0 <= n + lift(fixed) < byte_range(fixed.width)
        }),
{
    lemma_byte_ranges();
    let (fixed, n) = fixed_value(scalar)->Some_0;
    let bytes = be_bytes(n + lift(fixed), fixed.width);
    match scalar {
        ScalarModel::Boolean(v) => {
            reveal_with_fuel(be_bytes, 2);
            assert(value_bytes(scalar) =~= fixed.head + bytes);
        },
        ScalarModel::Decimal(decimal) => {
            match decimal {
                DecimalScalar::Decimal256(v, size) => {
                    lemma_wide_fits(v);
                },
                _ => {},
            }
        },
        _ => {
            assert(value_bytes(scalar) == bytes);
            assert(value_bytes(scalar) =~= fixed.head + bytes);
        },
    }
}

proof fn lemma_wide_fits(v: I256)
    ensures
        0 <= v@ + half_range(32) < byte_range(32),
{
    lemma_byte_ranges();
    let half = 0x8000_0000_0000_0000_0000_0000_0000_0000int;
    assert(two128() == 2 * half);
    assert(byte_range(32) == 2 * (half * two128()));
    assert(half_range(32) == half * two128());
    assert(-half <= v.high < half);
    assert(0 <= v.low < two128());
    assert(v.high * two128() >= -half * two128()) by (nonlinear_arith)
        requires
            v.high >= -half,
            two128() >= 0,
    ;
    assert(v.high * two128() <= (half - 1) * two128()) by (nonlinear_arith)
        requires
            v.high <= half - 1,
            two128() >= 0,
    ;
    assert((half - 1) * two128() == half * two128() - two128()) by (nonlinear_arith);
    assert(-half * two128() == -(half * two128())) by (nonlinear_arith);
}

/// The bytes of values of one type are of one length, order as the values do, and tell them apart.
pub proof fn lemma_fixed_order(a: ScalarModel, b: ScalarModel)
    requires
        fixed_value(a) is Some,
        fixed_value(b) is Some,
        fixed_value(a)->Some_0.0 == fixed_value(b)->Some_0.0,
    ensures
        value_bytes(a).len() == value_bytes(b).len(),
        lex_lt(value_bytes(a), value_bytes(b)) == (fixed_value(a)->Some_0.1
            < fixed_value(b)->Some_0.1),
        value_bytes(a) == value_bytes(b) <==> fixed_value(a)->Some_0.1
            == fixed_value(b)->Some_0.1,
{
    let (fixed, m) = fixed_value(a)->Some_0;
    let n = fixed_value(b)->Some_0.1;
    lemma_fixed_bytes(a);
    lemma_fixed_bytes(b);
    let x = be_bytes(m + lift(fixed), fixed.width);
    let y = be_bytes(n + lift(fixed), fixed.width);
    lemma_be_bytes_len(m + lift(fixed), fixed.width);
    lemma_be_bytes_len(n + lift(fixed), fixed.width);
    lemma_be_bytes_order(m + lift(fixed), n + lift(fixed), fixed.width);
    lemma_lex_common_head(fixed.head, x, y);
    if value_bytes(a) == value_bytes(b) {
        assert(x =~= (fixed.head + x).skip(fixed.head.len() as int));
        assert(y =~= (fixed.head + y).skip(fixed.head.len() as int));
    }
}

/// Values of one type stand in a key, ascending or descending, as they stand to each other.
pub proof fn law_components_order_as_values(
    a: ScalarModel,
    b: ScalarModel,
    order: BtreeIndexKeyOrder,
)
    requires
        fixed_value(a) is Some,
        fixed_value(b) is Some,
        fixed_value(a)->Some_0.0 == fixed_value(b)->Some_0.0,
    ensures
        component_ordering(component_bytes(a, order), component_bytes(b, order), order)
            == int_ordering(fixed_value(a)->Some_0.1, fixed_value(b)->Some_0.1),
{
    lemma_fixed_order(a, b);
    lemma_fixed_order(b, a);
    let x = value_bytes(a);
    let y = value_bytes(b);
    lemma_lex_total(x, y);
    match order {
        BtreeIndexKeyOrder::Asc => {},
        BtreeIndexKeyOrder::Desc => {
            lemma_inverted_order(x, y);
            lemma_inverted_order(y, x);
        },
    }
}

/// A filter on a key column is the comparison of its values with the constant, where both are of
/// the type of the column and neither is spelled as null is.
pub proof fn law_key_filter_compares_values(
    value: ScalarModel,
    constant: ScalarModel,
    op: BtreeIndexFastCompareOp,
    order: BtreeIndexKeyOrder,
    component_index: usize,
)
    requires
        fixed_value(value) is Some,
        fixed_value(constant) is Some,
        fixed_value(value)->Some_0.0 == fixed_value(constant)->Some_0.0,
        value_bytes(value) != value_bytes(ScalarModel::Null),
        value_bytes(constant) != value_bytes(ScalarModel::Null),
    ensures
        component_satisfies(
            KeyPredicateModel {
                component_index,
                order,
                kind: KeyPredicateKindModel::Compare {
                    op,
                    constant_component: component_bytes(constant, order),
                    null_component: component_bytes(ScalarModel::Null, order),
                },
            },
            component_bytes(value, order),
        ) == op_holds(
            op,
            int_ordering(fixed_value(value)->Some_0.1, fixed_value(constant)->Some_0.1),
        ),
{
    law_components_order_as_values(value, constant, order);
    lemma_component_injective(value, ScalarModel::Null, order);
    lemma_component_injective(constant, ScalarModel::Null, order);
}

/// Components are equal only where the bytes of the values are.
pub proof fn lemma_component_injective(a: ScalarModel, b: ScalarModel, order: BtreeIndexKeyOrder)
    ensures
        component_bytes(a, order) == component_bytes(b, order) <==> value_bytes(a)
            == value_bytes(b),
{
    let x = value_bytes(a);
    let y = value_bytes(b);
    if order is Desc && inverted(x) == inverted(y) {
        assert(inverted(x).len() == x.len() && inverted(y).len() == y.len());
        lemma_inverted_order(x, y);
    }
}

/// A filter on a key column for null, or for a value that is not null, is that test of its values,
/// where the value is not one that is spelled as null is.
pub proof fn law_key_filter_tests_for_null(
    value: ScalarModel,
    order: BtreeIndexKeyOrder,
    component_index: usize,
)
    requires
        value is Null || value_bytes(value) != value_bytes(ScalarModel::Null),
    ensures
        component_satisfies(
            KeyPredicateModel {
                component_index,
                order,
                kind: KeyPredicateKindModel::IsNull {
                    null_component: component_bytes(ScalarModel::Null, order),
                },
            },
            component_bytes(value, order),
        ) == (value is Null),
        component_satisfies(
            KeyPredicateModel {
                component_index,
                order,
                kind: KeyPredicateKindModel::IsNotNull {
                    null_component: component_bytes(ScalarModel::Null, order),
                },
            },
            component_bytes(value, order),
        ) == !(value is Null),
{
    lemma_component_injective(value, ScalarModel::Null, order);
}

/// The bytes of a shorter byte string stand before those of a longer one, and after them where the
/// bits are flipped.
proof fn lemma_shorter_is_before(a: Seq<u8>, b: Seq<u8>)
    requires
        a.len() < b.len() < 0x1_0000_0000,
    ensures
        lex_lt(variable_bytes(a), variable_bytes(b)),
        lex_lt(inverted(variable_bytes(b)), inverted(variable_bytes(a))),
{
    let x = be_bytes(a.len() as int, 4);
    let y = be_bytes(b.len() as int, 4);
    lemma_byte_ranges();
    lemma_be_bytes_len(a.len() as int, 4);
    lemma_be_bytes_len(b.len() as int, 4);
    lemma_be_bytes_order(a.len() as int, b.len() as int, 4);
    let k = lemma_lex_witness(x, y);
    let p = variable_bytes(a);
    let q = variable_bytes(b);
    assert forall|j: int| 0 <= j <= k implies #[trigger] p[j] == x[j] && q[j] == y[j] by {}
    assert forall|j: int| 0 <= j < k implies #[trigger] p[j] == q[j] by {
        assert(x[j] == y[j]);
    }
    assert(p[k] == x[k] && q[k] == y[k]);
    assert(lex_lt_at(p, q, k));
    lemma_lex_lt_by(p, q, k);
    assert forall|j: int| 0 <= j < k implies #[trigger] inverted(q)[j] == inverted(p)[j] by {
        assert(p[j] == q[j]);
    }
    assert(lex_lt_at(inverted(q), inverted(p), k));
    lemma_lex_lt_by(inverted(q), inverted(p), k);
}

/// How texts stand to each other by their components: the shorter is first, and of one length they
/// stand as their bytes do.
pub open spec fn text_key_ordering(a: Seq<char>, b: Seq<char>) -> Ordering {
    if encode_utf8(a).len() < encode_utf8(b).len() {
        Ordering::Less
    } else if encode_utf8(b).len() < encode_utf8(a).len() {
        Ordering::Greater
    } else {
        lex_ordering(encode_utf8(a), encode_utf8(b))
    }
}

/// The components of texts, ascending or descending, stand to each other by the lengths of the texts
/// and then by their bytes.
pub proof fn law_components_of_texts_order_by_length(
    a: Seq<char>,
    b: Seq<char>,
    order: BtreeIndexKeyOrder,
)
    requires
        encode_utf8(a).len() < 0x1_0000_0000,
        encode_utf8(b).len() < 0x1_0000_0000,
    ensures
        component_ordering(
            component_bytes(ScalarModel::String(a), order),
            component_bytes(ScalarModel::String(b), order),
            order,
        ) == text_key_ordering(a, b),
{
    let s = encode_utf8(a);
    let t = encode_utf8(b);
    let x = variable_bytes(s);
    let y = variable_bytes(t);
    if s.len() < t.len() {
        lemma_shorter_is_before(s, t);
        lemma_lex_asymmetric(x, y);
        lemma_lex_asymmetric(inverted(y), inverted(x));
    } else if t.len() < s.len() {
        lemma_shorter_is_before(t, s);
        lemma_lex_asymmetric(y, x);
        lemma_lex_asymmetric(inverted(x), inverted(y));
    } else {
        lemma_variable_order(s, t);
        lemma_variable_order(t, s);
        lemma_lex_total(s, t);
        lemma_lex_asymmetric(s, t);
        lemma_lex_asymmetric(t, s);
        lemma_inverted_order(x, y);
        lemma_inverted_order(y, x);
    }
}

proof fn lemma_lex_asymmetric(a: Seq<u8>, b: Seq<u8>)
    ensures
        lex_lt(a, b) ==> !lex_lt(b, a) && a != b,
{
    lemma_lex_irreflexive(a);
    if lex_lt(a, b) && lex_lt(b, a) {
        lemma_lex_transitive(a, b, a);
    }
}

/// The bytes of byte strings of one length stand to each other as the byte strings do.
proof fn lemma_variable_order(a: Seq<u8>, b: Seq<u8>)
    requires
        a.len() == b.len(),
    ensures
        variable_bytes(a).len() == variable_bytes(b).len(),
        lex_lt(variable_bytes(a), variable_bytes(b)) == lex_lt(a, b),
        variable_bytes(a) == variable_bytes(b) ==> a == b,
{
    let head = be_bytes(a.len() as int, 4);
    lemma_be_bytes_len(a.len() as int, 4);
    lemma_lex_common_head(head, a, b);
    if variable_bytes(a) == variable_bytes(b) {
        assert(a =~= variable_bytes(a).skip(4));
        assert(b =~= variable_bytes(b).skip(4));
    }
}

/// Texts are told apart by their components in a key, so that a filter for equality on a text column
/// of the key is equality of the texts.
pub proof fn law_text_components_tell_apart(
    a: Seq<char>,
    b: Seq<char>,
    order: BtreeIndexKeyOrder,
)
    ensures
        component_bytes(ScalarModel::String(a), order) == component_bytes(
            ScalarModel::String(b),
            order,
        ) <==> a == b,
{
    lemma_component_injective(ScalarModel::String(a), ScalarModel::String(b), order);
    let x = variable_bytes(encode_utf8(a));
    let y = variable_bytes(encode_utf8(b));
    if x == y {
        lemma_be_bytes_len(encode_utf8(a).len() as int, 4);
        lemma_be_bytes_len(encode_utf8(b).len() as int, 4);
        assert(encode_utf8(a) =~= x.skip(4));
        assert(encode_utf8(b) =~= y.skip(4));
        lemma_utf8_injective(a, b);
    }
}

/// The prefix that a scan looks for is the key of the values that it fixes, whole.
pub proof fn law_prefix_is_the_key_of_its_values(info: BtreeIndexInfo)
    requires
        info.equality_prefix@.len() <= info.key_columns@.len(),
        components_fit(prefix_values(info)),
    ensures
        components_end(key_bytes(prefix_values(info)), info.equality_prefix@.len()) == Ok::<
            int,
            BtreeIndexError,
        >(key_bytes(prefix_values(info)).len() as int),
{
    let values = prefix_values(info);
    law_key_gives_components_back(values, values.len());
    assert(values.take(values.len() as int) =~= values);
}

/// The first components of a key end where they do in a longer one.
pub proof fn lemma_components_end_extends(short: Seq<u8>, long: Seq<u8>, count: nat)
    requires
        has_prefix(long, short),
        components_end(short, count) is Ok,
    ensures
        components_end(long, count) == components_end(short, count),
    decreases count,
{
    if count > 0 {
        lemma_components_end_bounds(short, count);
        lemma_components_end_bounds(short, (count - 1) as nat);
        lemma_components_end_extends(short, long, (count - 1) as nat);
        let offset = components_end(short, (count - 1) as nat)->Ok_0;
        assert(short.subrange(offset, offset + 4) =~= long.subrange(offset, offset + 4));
    }
}

/// Two byte strings that begin alike but for a run of equal length are ordered by the run, where it
/// differs.
pub proof fn lemma_run_decides(head: Seq<u8>, a: Seq<u8>, at: Seq<u8>, b: Seq<u8>, bt: Seq<u8>)
    requires
        a.len() == b.len(),
        lex_lt(a, b),
    ensures
        lex_lt(head + a + at, head + b + bt),
{
    let k = lemma_lex_witness(a, b);
    assert(lex_lt_at(a + at, b + bt, k));
    lemma_lex_lt_by(a + at, b + bt, k);
    lemma_lex_common_head(head, a + at, b + bt);
    assert(head + (a + at) =~= head + a + at);
    assert(head + (b + bt) =~= head + b + bt);
}

/// A key in front of which the components of another stand has those components.
proof fn lemma_component_extends(short: Seq<u8>, long: Seq<u8>, index: nat)
    requires
        has_prefix(long, short),
        components_end(short, index + 1) is Ok,
    ensures
        component_at(long, index) == component_at(short, index),
{
    lemma_components_end_bounds(short, index + 1);
    lemma_components_end_bounds(short, index);
    lemma_components_end_extends(short, long, index);
    lemma_components_end_extends(short, long, index + 1);
    let offset = components_end(short, index)->Ok_0;
    let end = components_end(short, index + 1)->Ok_0;
    assert(components_end(short, index + 1) == component_end(short, offset));
    assert(components_end(long, index + 1) == component_end(long, offset));
    assert(short.subrange(offset, offset + 4) =~= long.subrange(offset, offset + 4));
    assert(short.subrange(offset + 4, end - 1) =~= long.subrange(offset + 4, end - 1));
}

proof fn lemma_same_components_same_key(
    a: Seq<(ScalarModel, BtreeIndexKeyOrder)>,
    b: Seq<(ScalarModel, BtreeIndexKeyOrder)>,
)
    requires
        a.len() == b.len(),
        forall|i: int|
            0 <= i < a.len() ==> component_bytes((#[trigger] a[i]).0, a[i].1) == component_bytes(
                b[i].0,
                b[i].1,
            ),
    ensures
        key_bytes(a) == key_bytes(b),
    decreases a.len(),
{
    if a.len() > 0 {
        let n = a.len() - 1;
        let x = a.drop_last();
        let y = b.drop_last();
        assert forall|i: int| 0 <= i < x.len() implies component_bytes(
            (#[trigger] x[i]).0,
            x[i].1,
        ) == component_bytes(y[i].0, y[i].1) by {
            assert(x[i] == a[i] && y[i] == b[i]);
        }
        lemma_same_components_same_key(x, y);
        assert(component_bytes(a[n].0, a[n].1) == component_bytes(b[n].0, b[n].1));
    }
}

/// The keys that begin with the key of other values are those whose first components are the
/// components of these values.
pub proof fn law_prefix_matches_by_components(
    values: Seq<(ScalarModel, BtreeIndexKeyOrder)>,
    prefix: Seq<(ScalarModel, BtreeIndexKeyOrder)>,
)
    requires
        components_fit(values),
        components_fit(prefix),
        prefix.len() <= values.len(),
    ensures
        has_prefix(key_bytes(values), key_bytes(prefix)) <==> forall|i: int|
            0 <= i < prefix.len() ==> component_bytes((#[trigger] prefix[i]).0, prefix[i].1)
                == component_bytes(values[i].0, values[i].1),
{
    let long = key_bytes(values);
    let short = key_bytes(prefix);
    let n = prefix.len();
    if has_prefix(long, short) {
        assert forall|i: int| 0 <= i < n implies component_bytes(
            (#[trigger] prefix[i]).0,
            prefix[i].1,
        ) == component_bytes(values[i].0, values[i].1) by {
            law_key_gives_components_back(prefix, i as nat);
            law_key_gives_components_back(prefix, (i + 1) as nat);
            law_key_gives_components_back(values, i as nat);
            lemma_component_extends(short, long, i as nat);
        }
    }
    if forall|i: int|
        0 <= i < n ==> component_bytes((#[trigger] prefix[i]).0, prefix[i].1) == component_bytes(
            values[i].0,
            values[i].1,
        ) {
        let head = values.take(n as int);
        assert forall|i: int| 0 <= i < n implies component_bytes(
            (#[trigger] prefix[i]).0,
            prefix[i].1,
        ) == component_bytes(head[i].0, head[i].1) by {
            assert(head[i] == values[i]);
        }
        lemma_same_components_same_key(prefix, head);
        law_key_gives_components_back(values, n);
        let end = key_bytes(head).len() as int;
        assert forall|i: int| 0 <= i < short.len() implies #[trigger] long[i] == short[i] by {
            assert(long.subrange(0, end)[i] == long[i]);
        }
        assert(end <= long.len()) by {
            lemma_components_end_bounds(long, n);
        }
    }
}

/// The bytes of a key from one component on: what stands before it, the component, and the rest.
proof fn lemma_key_parts(values: Seq<(ScalarModel, BtreeIndexKeyOrder)>, n: int) -> (rest: Seq<u8>)
    requires
        0 <= n < values.len(),
    ensures
        key_bytes(values) == key_bytes(values.take(n)) + framed(
            component_bytes(values[n].0, values[n].1),
        ) + rest,
{
    lemma_key_bytes_split(values, n)
}

/// Two keys agree before a component.
pub open spec fn agree_before(
    a: Seq<(ScalarModel, BtreeIndexKeyOrder)>,
    b: Seq<(ScalarModel, BtreeIndexKeyOrder)>,
    n: int,
) -> bool {
    &&& 0 <= n < a.len()
    &&& n < b.len()
    &&& forall|i: int|
        0 <= i < n ==> component_bytes((#[trigger] a[i]).0, a[i].1) == component_bytes(
            b[i].0,
            b[i].1,
        )
}

proof fn lemma_agree_before(
    a: Seq<(ScalarModel, BtreeIndexKeyOrder)>,
    b: Seq<(ScalarModel, BtreeIndexKeyOrder)>,
    n: int,
)
    requires
        agree_before(a, b, n),
    ensures
        key_bytes(a.take(n)) == key_bytes(b.take(n)),
{
    let x = a.take(n);
    let y = b.take(n);
    assert forall|i: int| 0 <= i < x.len() implies component_bytes((#[trigger] x[i]).0, x[i].1)
        == component_bytes(y[i].0, y[i].1) by {
        assert(x[i] == a[i] && y[i] == b[i]);
    }
    lemma_same_components_same_key(x, y);
}

/// Keys that agree before a component are ordered by it: ascending or descending, as its values
/// are.
pub proof fn law_keys_order_by_first_difference(
    a: Seq<(ScalarModel, BtreeIndexKeyOrder)>,
    b: Seq<(ScalarModel, BtreeIndexKeyOrder)>,
    n: int,
)
    requires
        agree_before(a, b, n),
        a[n].1 == b[n].1,
        fixed_value(a[n].0) is Some,
        fixed_value(b[n].0) is Some,
        fixed_value(a[n].0)->Some_0.0 == fixed_value(b[n].0)->Some_0.0,
        fixed_value(a[n].0)->Some_0.1 != fixed_value(b[n].0)->Some_0.1,
    ensures
        lex_lt(key_bytes(a), key_bytes(b)) == (match a[n].1 {
            BtreeIndexKeyOrder::Asc => fixed_value(a[n].0)->Some_0.1 < fixed_value(
                b[n].0,
            )->Some_0.1,
            BtreeIndexKeyOrder::Desc => fixed_value(a[n].0)->Some_0.1 > fixed_value(
                b[n].0,
            )->Some_0.1,
        }),
{
    let x = component_bytes(a[n].0, a[n].1);
    let y = component_bytes(b[n].0, b[n].1);
    lemma_fixed_order(a[n].0, b[n].0);
    lemma_fixed_order(b[n].0, a[n].0);
    lemma_inverted_order(value_bytes(a[n].0), value_bytes(b[n].0));
    lemma_inverted_order(value_bytes(b[n].0), value_bytes(a[n].0));
    assert(x.len() == y.len());
    lemma_agree_before(a, b, n);
    let head = key_bytes(a.take(n)) + be_bytes(x.len() as int, 4);
    let ra = lemma_key_parts(a, n);
    let rb = lemma_key_parts(b, n);
    let separator = seq![COMPONENT_SEPARATOR];
    assert(key_bytes(a) =~= head + x + (separator + ra));
    assert(key_bytes(b) =~= head + y + (separator + rb));
    if lex_lt(x, y) {
        lemma_run_decides(head, x, separator + ra, y, separator + rb);
    } else {
        lemma_run_decides(head, y, separator + rb, x, separator + ra);
        lemma_lex_irreflexive(key_bytes(a));
        if lex_lt(key_bytes(a), key_bytes(b)) {
            lemma_lex_transitive(key_bytes(a), key_bytes(b), key_bytes(a));
        }
    }
}

/// Of keys that agree before a component, one with null there comes before one with a value that
/// takes more than a byte, whether the component is ascending or descending.
pub proof fn law_null_comes_first(
    a: Seq<(ScalarModel, BtreeIndexKeyOrder)>,
    b: Seq<(ScalarModel, BtreeIndexKeyOrder)>,
    n: int,
)
    requires
        agree_before(a, b, n),
        a[n].0 is Null,
        1 < value_bytes(b[n].0).len() < 0x1_0000_0000,
    ensures
        lex_lt(key_bytes(a), key_bytes(b)),
{
    let x = component_bytes(a[n].0, a[n].1);
    let y = component_bytes(b[n].0, b[n].1);
    lemma_agree_before(a, b, n);
    lemma_byte_ranges();
    let head = key_bytes(a.take(n));
    let ra = lemma_key_parts(a, n);
    let rb = lemma_key_parts(b, n);
    let separator = seq![COMPONENT_SEPARATOR];
    let p = be_bytes(x.len() as int, 4);
    let q = be_bytes(y.len() as int, 4);
    lemma_be_bytes_order(x.len() as int, y.len() as int, 4);
    lemma_be_bytes_len(x.len() as int, 4);
    lemma_be_bytes_len(y.len() as int, 4);
    assert(key_bytes(a) =~= head + p + (x + separator + ra));
    assert(key_bytes(b) =~= head + q + (y + separator + rb));
    lemma_run_decides(head, p, x + separator + ra, q, y + separator + rb);
}

} // verus!
