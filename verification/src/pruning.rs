//! Data blocks that key filters rule out hold no row of which they hold.

use vstd::prelude::*;

use crate::error::BtreeIndexError;
use crate::key::{component_at, component_bytes, components_end, components_fit, inverted, key_bytes,
    law_key_gives_components_back, lemma_byte_ranges, lemma_components_end_bounds,
    lemma_inverted_order, value_bytes, variable_bytes};
use crate::key_laws::{lemma_components_end_extends, lemma_run_decides};
use crate::lex::{be32, be_bytes, has_prefix, lemma_be_bytes_len,
    lemma_be_bytes_order, lemma_lex_le_transitive, lemma_lex_lt_by, lemma_lex_lt_is_le, lemma_lex_total,
    lemma_prefix_interval, lemma_prefix_is_le, lex_le, lex_lt, lex_lt_at};
use crate::predicate::{block_may_satisfy, component_satisfies, constant_before, filter_allows_block,
    in_component_range, key_satisfies, key_satisfies_all, range_may_satisfy, KeyPredicateKindModel,
    KeyPredicateModel};
use crate::scalar::ScalarModel;
use crate::types::BtreeIndexKeyOrder;

verus! {

/// A filter that holds of a component between two others is not ruled out by them.
pub proof fn law_range_holds_what_satisfies(
    predicate: KeyPredicateModel,
    first: Seq<u8>,
    last: Seq<u8>,
    component: Seq<u8>,
)
    requires
        in_component_range(component, first, last),
        component_satisfies(predicate, component),
    ensures
        range_may_satisfy(predicate, first, last),
{
    lemma_lex_le_transitive(first, component, last);
    lemma_lex_total(first, component);
    lemma_lex_total(component, last);
    match predicate.kind {
        KeyPredicateKindModel::IsNull { null_component } => {},
        KeyPredicateKindModel::IsNotNull { null_component } => {},
        KeyPredicateKindModel::Compare { op, constant_component, null_component } => {
            let c = constant_component;
            lemma_lex_total(component, c);
            if lex_lt(component, c) {
                lemma_lex_lt_is_le(component, c);
                lemma_lex_le_transitive(first, component, c);
                lemma_lex_lt_is_le(first, c);
            }
            if lex_lt(c, component) {
                lemma_lex_lt_is_le(c, component);
                lemma_lex_le_transitive(c, component, last);
                lemma_lex_lt_is_le(c, last);
            }
        },
    }
}

/// The first components of a key end where they do once the rest is cut off.
proof fn lemma_components_end_cut(key: Seq<u8>, count: nat, end: int)
    requires
        components_end(key, count) is Ok,
        components_end(key, count)->Ok_0 <= end <= key.len(),
    ensures
        components_end(key.subrange(0, end), count) == components_end(key, count),
    decreases count,
{
    if count > 0 {
        lemma_components_end_bounds(key, count);
        lemma_components_end_bounds(key, (count - 1) as nat);
        let offset = components_end(key, (count - 1) as nat)->Ok_0;
        let stop = components_end(key, count)->Ok_0;
        let spelled = key.subrange(offset, offset + 4);
        assert(be32(spelled) >= 0);
        assert(offset < stop);
        lemma_components_end_cut(key, (count - 1) as nat, end);
        let cut = key.subrange(0, end);
        assert(cut.subrange(offset, offset + 4) =~= spelled);
    }
}

/// Four bytes are spelled by the number that they spell.
proof fn lemma_be32_spells(s: Seq<u8>)
    requires
        s.len() == 4,
    ensures
        be_bytes(be32(s), 4) == s,
        0 <= be32(s) < 0x1_0000_0000,
{
    reveal_with_fuel(be_bytes, 5);
    let n = be32(s);
    assert(n / 256 == s[0] * 0x1_0000 + s[1] * 0x100 + s[2]);
    assert(n % 256 == s[3]);
    assert(n / 256 / 256 == s[0] * 0x100 + s[1]);
    assert(n / 256 % 256 == s[2]);
    assert(n / 256 / 256 / 256 == s[0]);
    assert(n / 256 / 256 % 256 == s[1]);
    assert(n / 256 / 256 / 256 % 256 == s[0]);
    assert(be_bytes(n, 4) =~= s);
}

/// Of two keys that agree before a component, the one that is not after the other has the shorter
/// component there, or one of equal length that is not after the other's.
proof fn lemma_component_order(small: Seq<u8>, large: Seq<u8>, index: nat, at: int)
    requires
        lex_le(small, large),
        components_end(small, index) == Ok::<int, BtreeIndexError>(at),
        components_end(large, index) == Ok::<int, BtreeIndexError>(at),
        0 <= at <= small.len(),
        0 <= at <= large.len(),
        small.subrange(0, at) == large.subrange(0, at),
        component_at(small, index) is Some,
        component_at(large, index) is Some,
    ensures
        ({
            let a = component_at(small, index)->Some_0;
            let b = component_at(large, index)->Some_0;
            a.len() < b.len() || (a.len() == b.len() && lex_le(a, b))
        }),
{
    let head = small.subrange(0, at);
    let a = component_at(small, index)->Some_0;
    let b = component_at(large, index)->Some_0;
    let x = small.subrange(at, at + 4);
    let y = large.subrange(at, at + 4);
    lemma_be32_spells(x);
    lemma_be32_spells(y);
    assert(a.len() == be32(x));
    assert(b.len() == be32(y));
    let x_rest = small.subrange(at + 4, small.len() as int);
    let y_rest = large.subrange(at + 4, large.len() as int);
    assert(small =~= head + x + x_rest);
    assert(large =~= head + y + y_rest);
    lemma_byte_ranges();
    if b.len() < a.len() {
        lemma_be_bytes_order(be32(y), be32(x), 4);
        lemma_run_decides(head, y, y_rest, x, x_rest);
    } else if a.len() == b.len() && lex_lt(b, a) {
        assert(x == y);
        let longer = head + x;
        let a_rest = small.subrange(at + 4 + a.len(), small.len() as int);
        let b_rest = large.subrange(at + 4 + b.len(), large.len() as int);
        assert(small =~= longer + a + a_rest);
        assert(large =~= longer + b + b_rest);
        lemma_run_decides(longer, b, b_rest, a, a_rest);
    }
}

proof fn lemma_null_first(null: Seq<u8>, other: Seq<u8>)
    requires
        null == seq![0u8],
        null.len() < other.len(),
    ensures
        lex_le(null, other),
{
    if other[0] == 0 {
        assert(has_prefix(other, null));
        lemma_prefix_is_le(other, null);
    } else {
        assert(lex_lt_at(null, other, 0));
        lemma_lex_lt_by(null, other, 0);
        lemma_lex_lt_is_le(null, other);
    }
}

/// The components of the first and of the last key of a block do not mislead about a component of a
/// key between them: they are out of order, so that nothing is concluded from them, or the component
/// lies between them.
pub open spec fn bounds_hold(first: Seq<u8>, component: Seq<u8>, last: Seq<u8>) -> bool {
    lex_lt(last, first) || in_component_range(component, first, last)
}

/// Where the filter is tried on a block by the components of its first and last key, these do not
/// mislead about the component of a key.
pub open spec fn filter_bounds_hold(
    first_key: Seq<u8>,
    key: Seq<u8>,
    last_key: Seq<u8>,
    prefix_component_count: usize,
    predicate: KeyPredicateModel,
) -> bool {
    let index = predicate.component_index as nat;
    constant_before(first_key, last_key, prefix_component_count, predicate.component_index)
        && component_at(first_key, index) is Some && component_at(last_key, index) is Some
        && component_at(key, index) is Some ==> bounds_hold(
        component_at(first_key, index)->Some_0,
        component_at(key, index)->Some_0,
        component_at(last_key, index)->Some_0,
    )
}

proof fn lemma_bounds_allow(
    first_key: Seq<u8>,
    key: Seq<u8>,
    last_key: Seq<u8>,
    prefix_component_count: usize,
    predicate: KeyPredicateModel,
)
    requires
        filter_bounds_hold(first_key, key, last_key, prefix_component_count, predicate),
        key_satisfies(predicate, key),
    ensures
        filter_allows_block(first_key, last_key, prefix_component_count, predicate),
{
    let index = predicate.component_index as nat;
    if constant_before(
        first_key,
        last_key,
        prefix_component_count,
        predicate.component_index,
    ) && component_at(first_key, index) is Some && component_at(last_key, index) is Some {
        let first = component_at(first_key, index)->Some_0;
        let component = component_at(key, index)->Some_0;
        let last = component_at(last_key, index)->Some_0;
        if in_component_range(component, first, last) {
            law_range_holds_what_satisfies(predicate, first, last, component);
        }
    }
}

/// A block that holds a key of which all filters hold is not ruled out by them, where the bounds
/// that each filter is tried by do not mislead.
pub proof fn law_pruning_keeps_matching_blocks(
    first_key: Seq<u8>,
    key: Seq<u8>,
    last_key: Seq<u8>,
    prefix: Seq<u8>,
    prefix_component_count: usize,
    predicates: Seq<KeyPredicateModel>,
)
    requires
        forall|i: int|
            0 <= i < predicates.len() ==> filter_bounds_hold(
                first_key,
                key,
                last_key,
                prefix_component_count,
                #[trigger] predicates[i],
            ),
        key_satisfies_all(predicates, key),
    ensures
        block_may_satisfy(first_key, last_key, prefix, prefix_component_count, predicates),
{
    assert forall|i: int| 0 <= i < predicates.len() implies filter_allows_block(
        first_key,
        last_key,
        prefix_component_count,
        #[trigger] predicates[i],
    ) by {
        lemma_bounds_allow(first_key, key, last_key, prefix_component_count, predicates[i]);
    }
}

/// The value is null, or takes so many bytes in a key.
pub open spec fn is_null_or_wide(value: ScalarModel, width: nat) -> bool {
    value is Null || value_bytes(value).len() == width
}

/// The value is null, or stands in a key behind its length.
pub open spec fn is_null_or_variable(value: ScalarModel) -> bool {
    value is Null || exists|bytes: Seq<u8>| value_bytes(value) == #[trigger] variable_bytes(bytes)
}

/// Values of one column: all that are not null take as many bytes in a key, or stand behind their
/// length.
pub open spec fn of_one_column(a: ScalarModel, b: ScalarModel, c: ScalarModel) -> bool {
    ||| exists|width: nat| #[trigger]
        is_null_or_wide(a, width) && is_null_or_wide(b, width) && is_null_or_wide(c, width) && width
            > 0
    ||| is_null_or_variable(a) && is_null_or_variable(b) && is_null_or_variable(c)
}

/// The component is shorter, or as long and not after the other in byte order.
pub open spec fn is_held_before(a: Seq<u8>, b: Seq<u8>) -> bool {
    a.len() < b.len() || a.len() == b.len() && lex_le(a, b)
}

/// Of byte strings behind their lengths, the shorter comes before the longer; with every bit flipped
/// it comes behind it.
proof fn lemma_shorter_first(a: Seq<u8>, b: Seq<u8>)
    requires
        a.len() < b.len() < 0x1_0000_0000,
    ensures
        lex_lt(variable_bytes(a), variable_bytes(b)),
        lex_lt(inverted(variable_bytes(b)), inverted(variable_bytes(a))),
{
    let x = be_bytes(a.len() as int, 4);
    let y = be_bytes(b.len() as int, 4);
    let none = Seq::<u8>::empty();
    lemma_byte_ranges();
    lemma_be_bytes_order(a.len() as int, b.len() as int, 4);
    lemma_be_bytes_len(a.len() as int, 4);
    lemma_be_bytes_len(b.len() as int, 4);
    lemma_inverted_order(y, x);
    lemma_run_decides(none, x, a, y, b);
    lemma_run_decides(none, inverted(y), inverted(b), inverted(x), inverted(a));
    assert(none + x + a =~= variable_bytes(a));
    assert(none + y + b =~= variable_bytes(b));
    assert(none + inverted(x) + inverted(a) =~= inverted(variable_bytes(a)));
    assert(none + inverted(y) + inverted(b) =~= inverted(variable_bytes(b)));
}

/// The components that keys hold for three values of one column, each before the next, do not
/// mislead, but where the column is descending and the first is null.
proof fn lemma_column_bounds_hold(
    first: ScalarModel,
    value: ScalarModel,
    last: ScalarModel,
    order: BtreeIndexKeyOrder,
)
    requires
        of_one_column(first, value, last),
        value_bytes(last).len() < 0x1_0000_0000,
        !(order is Desc && first is Null),
        is_held_before(component_bytes(first, order), component_bytes(value, order)),
        is_held_before(component_bytes(value, order), component_bytes(last, order)),
    ensures
        bounds_hold(
            component_bytes(first, order),
            component_bytes(value, order),
            component_bytes(last, order),
        ),
{
    let f = component_bytes(first, order);
    let c = component_bytes(value, order);
    let l = component_bytes(last, order);
    if f.len() == l.len() {
        assert(in_component_range(c, f, l));
    } else if first is Null {
        assert(f == seq![0u8]);
        if f.len() < c.len() {
            lemma_null_first(f, c);
        }
        if c.len() < l.len() {
            if value is Null {
                lemma_null_first(c, l);
            } else {
                lemma_longer_follows(value, last);
            }
        }
    } else if order is Asc {
        lemma_lengths_differ(first, value, last);
        if f.len() < c.len() {
            lemma_longer_follows(first, value);
        }
        if c.len() < l.len() {
            lemma_longer_follows(value, last);
        }
    } else {
        lemma_longer_follows(first, last);
    }
}

/// A value that is not null and that takes fewer bytes than another of its column stands behind its
/// length.
proof fn lemma_lengths_differ(a: ScalarModel, b: ScalarModel, c: ScalarModel)
    requires
        of_one_column(a, b, c),
        !(a is Null),
        value_bytes(a).len() < value_bytes(c).len(),
    ensures
        is_null_or_variable(a) && is_null_or_variable(b) && is_null_or_variable(c),
        value_bytes(a).len() >= 4,
{
    if is_null_or_variable(a) {
        let x = choose|x: Seq<u8>| value_bytes(a) == #[trigger] variable_bytes(x);
        lemma_be_bytes_len(x.len() as int, 4);
    }
}

/// Of values of one column that are not null, one that takes fewer bytes comes before one that takes
/// more; with every bit flipped it comes behind it.
proof fn lemma_longer_follows(a: ScalarModel, b: ScalarModel)
    requires
        of_one_column(a, b, b),
        !(a is Null),
        value_bytes(a).len() < value_bytes(b).len() < 0x1_0000_0000,
    ensures
        lex_lt(value_bytes(a), value_bytes(b)),
        lex_le(value_bytes(a), value_bytes(b)),
        lex_lt(inverted(value_bytes(b)), inverted(value_bytes(a))),
{
    lemma_lengths_differ(a, b, b);
    let x = choose|x: Seq<u8>| value_bytes(a) == #[trigger] variable_bytes(x);
    let y = choose|y: Seq<u8>| value_bytes(b) == #[trigger] variable_bytes(y);
    lemma_be_bytes_len(x.len() as int, 4);
    lemma_be_bytes_len(y.len() as int, 4);
    lemma_shorter_first(x, y);
    lemma_lex_lt_is_le(value_bytes(a), value_bytes(b));
}

/// The filter reads more of the components of a block's first and last key than whether they are
/// equal.
pub open spec fn reads_bounds(predicate: KeyPredicateModel) -> bool {
    match predicate.kind {
        KeyPredicateKindModel::IsNull { .. } => true,
        KeyPredicateKindModel::IsNotNull { .. } => false,
        KeyPredicateKindModel::Compare { op, .. } => !(op is NotEq),
    }
}

/// What is asked of a filter that reads bounds of different lengths: they are of one column and one
/// order; and where that is descending and the first bound is null, the bytes must not mislead.
pub open spec fn filters_column(
    predicate: KeyPredicateModel,
    first: Seq<(ScalarModel, BtreeIndexKeyOrder)>,
    row: Seq<(ScalarModel, BtreeIndexKeyOrder)>,
    last: Seq<(ScalarModel, BtreeIndexKeyOrder)>,
) -> bool {
    let i = predicate.component_index as int;
    i < row.len() && reads_bounds(predicate) && value_bytes(first[i].0).len() < value_bytes(
        last[i].0,
    ).len() ==> {
        let order = row[i].1;
        &&& first[i].1 == order
        &&& last[i].1 == order
        &&& of_one_column(first[i].0, row[i].0, last[i].0)
        &&& order is Desc && first[i].0 is Null ==> bounds_hold(
            component_bytes(first[i].0, order),
            component_bytes(row[i].0, order),
            component_bytes(last[i].0, order),
        )
    }
}

/// A block is not ruled out by filters that hold of one of its rows. The block begins and ends with
/// keys of rows of the same columns. Where a filter reads bounds of different lengths, its column
/// holds values of one width or behind their lengths, and nulls; left out is a descending one in
/// which the first bound is null and the bytes mislead.
pub proof fn law_pruning_keeps_matching_rows(
    first: Seq<(ScalarModel, BtreeIndexKeyOrder)>,
    row: Seq<(ScalarModel, BtreeIndexKeyOrder)>,
    last: Seq<(ScalarModel, BtreeIndexKeyOrder)>,
    prefix: Seq<(ScalarModel, BtreeIndexKeyOrder)>,
    prefix_component_count: usize,
    predicates: Seq<KeyPredicateModel>,
)
    requires
        components_fit(first),
        components_fit(row),
        components_fit(last),
        components_fit(prefix),
        first.len() == row.len() == last.len(),
        prefix.len() == prefix_component_count,
        lex_le(key_bytes(first), key_bytes(row)),
        lex_le(key_bytes(row), key_bytes(last)),
        forall|i: int|
            0 <= i < predicates.len() ==> filters_column(
                #[trigger] predicates[i],
                first,
                row,
                last,
            ),
        key_satisfies_all(predicates, key_bytes(row)),
    ensures
        block_may_satisfy(
            key_bytes(first),
            key_bytes(last),
            key_bytes(prefix),
            prefix_component_count,
            predicates,
        ),
{
    let first_key = key_bytes(first);
    let key = key_bytes(row);
    let last_key = key_bytes(last);
    let head = key_bytes(prefix);
    law_key_gives_components_back(prefix, prefix.len());
    assert(prefix.take(prefix.len() as int) =~= prefix);
    if has_prefix(first_key, head) && has_prefix(last_key, head) {
        assert forall|i: int| 0 <= i < predicates.len() implies filter_allows_block(
            first_key,
            last_key,
            prefix_component_count,
            #[trigger] predicates[i],
        ) by {
            assert(filters_column(predicates[i], first, row, last));
            assert(key_satisfies(predicates[i], key));
            lemma_column_filter_allows(
                first,
                row,
                last,
                prefix,
                prefix_component_count,
                predicates[i],
            );
        }
    }
}

/// A key has no more components than it was made of.
proof fn lemma_no_more_components(
    values: Seq<(ScalarModel, BtreeIndexKeyOrder)>,
    index: nat,
)
    requires
        components_fit(values),
        index >= values.len(),
    ensures
        component_at(key_bytes(values), index) is None,
    decreases index,
{
    let key = key_bytes(values);
    if index == values.len() {
        law_key_gives_components_back(values, index);
        assert(values.take(index as int) =~= values);
    } else {
        lemma_no_more_components(values, (index - 1) as nat);
    }
}

proof fn lemma_column_filter_allows(
    first: Seq<(ScalarModel, BtreeIndexKeyOrder)>,
    row: Seq<(ScalarModel, BtreeIndexKeyOrder)>,
    last: Seq<(ScalarModel, BtreeIndexKeyOrder)>,
    prefix: Seq<(ScalarModel, BtreeIndexKeyOrder)>,
    prefix_component_count: usize,
    predicate: KeyPredicateModel,
)
    requires
        components_fit(first),
        components_fit(row),
        components_fit(last),
        first.len() == row.len() == last.len(),
        lex_le(key_bytes(first), key_bytes(row)),
        lex_le(key_bytes(row), key_bytes(last)),
        has_prefix(key_bytes(first), key_bytes(prefix)),
        has_prefix(key_bytes(last), key_bytes(prefix)),
        components_end(key_bytes(prefix), prefix_component_count as nat) == Ok::<
            int,
            BtreeIndexError,
        >(key_bytes(prefix).len() as int),
        filters_column(predicate, first, row, last),
        key_satisfies(predicate, key_bytes(row)),
    ensures
        filter_allows_block(
            key_bytes(first),
            key_bytes(last),
            prefix_component_count,
            predicate,
        ),
{
    let first_key = key_bytes(first);
    let key = key_bytes(row);
    let last_key = key_bytes(last);
    let index = predicate.component_index as nat;
    if constant_before(
        first_key,
        last_key,
        prefix_component_count,
        predicate.component_index,
    ) && component_at(first_key, index) is Some && component_at(last_key, index) is Some {
        if index >= row.len() {
            lemma_no_more_components(row, index);
        }
        let head = if predicate.component_index == prefix_component_count {
            key_bytes(prefix)
        } else {
            first_key.subrange(0, components_end(first_key, index)->Ok_0)
        };
        if predicate.component_index != prefix_component_count {
            lemma_components_end_bounds(first_key, index);
            lemma_components_end_bounds(last_key, index);
            lemma_components_end_cut(first_key, index, head.len() as int);
            let other = last_key.subrange(0, components_end(last_key, index)->Ok_0);
            assert(head == other);
            assert forall|i: int| 0 <= i < head.len() implies #[trigger] last_key[i] == head[i] by {
                assert(other[i] == last_key[i]);
            }
        }
        assert(has_prefix(first_key, head));
        assert(has_prefix(last_key, head));
        lemma_prefix_is_le(first_key, head);
        lemma_lex_le_transitive(head, first_key, key);
        lemma_prefix_interval(key, last_key, head);
        lemma_components_end_extends(head, first_key, index);
        lemma_components_end_extends(head, key, index);
        lemma_components_end_extends(head, last_key, index);
        let at = head.len() as int;
        assert(first_key.subrange(0, at) =~= head);
        assert(key.subrange(0, at) =~= head);
        assert(last_key.subrange(0, at) =~= head);
        lemma_component_order(first_key, key, index, at);
        lemma_component_order(key, last_key, index, at);
        law_key_gives_components_back(first, index);
        law_key_gives_components_back(row, index);
        law_key_gives_components_back(last, index);
        let i = index as int;
        let f = component_at(first_key, index)->Some_0;
        let c = component_at(key, index)->Some_0;
        let l = component_at(last_key, index)->Some_0;
        if f.len() == l.len() {
            assert(in_component_range(c, f, l));
        } else if reads_bounds(predicate) && !(row[i].1 is Desc && first[i].0 is Null) {
            lemma_column_bounds_hold(first[i].0, row[i].0, last[i].0, row[i].1);
        }
        if f.len() == l.len() || reads_bounds(predicate) {
            lemma_bounds_allow(first_key, key, last_key, prefix_component_count, predicate);
        } else {
            assert(f != l);
        }
    }
}

} // verus!
