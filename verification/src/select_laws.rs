//! Which rows of a data block a request gives.

use std::cmp::Ordering;

use vstd::prelude::*;

use crate::candidate::RequestModel;
use crate::expr::Expr;
use crate::fast::{asked_of_all, row_satisfies_all};
use crate::filter::{BtreeIndexFilter, BtreeScanError};
use crate::filter_parts::{passes, picked};
use crate::index_scan::{eligible, is_looked_at, lemma_parted_before, rows_selected};
use crate::key::key_bytes;
use crate::lex::{has_prefix, lex_lt};
use crate::predicate::key_predicates_view;
use crate::rows::{lemma_sorted_rows_parted, limited_rows, with_prefix};
use crate::rows_laws::{are_first_kept, is_at_limit, law_searched_rows_are_the_first,
    lemma_first_kept_grows, lemma_none_kept, passes_at};
use crate::scalar::{Scalar, ScalarModel};
use crate::select::{answered_rows, block_outcome, decoded_all, decodes_by, evaluation_gives,
    expression_gives, fast_pass, filtering_gives, key_pass, may_answer, opt_value_view, searched,
    transposed, FilterValue, PayloadBlock, PayloadModel};
use crate::sort::{is_sorted, Ranked};
use crate::types::{BtreeIndexKeyOrder, RowModel};

verus! {

/// Whether the row at a place begins with the prefix.
pub open spec fn begins_at(rows: Seq<RowModel>, prefix: Seq<u8>) -> spec_fn(int) -> bool {
    |i: int| prefix.len() <= rows[i].0.len() && rows[i].0.take(prefix.len() as int) == prefix
}

/// Whether the row at a place begins with the prefix and comes before the bound.
pub open spec fn is_asked_at(
    rows: Seq<RowModel>,
    prefix: Seq<u8>,
    bound: Option<Seq<u8>>,
) -> spec_fn(int) -> bool {
    |i: int|
        begins_at(rows, prefix)(i) && (bound matches Some(bound) ==> lex_lt(rows[i].0, bound))
}

proof fn lemma_begins(key: Seq<u8>, prefix: Seq<u8>)
    ensures
        has_prefix(key, prefix) <==> prefix.len() <= key.len() && key.take(prefix.len() as int)
            == prefix,
{
    if has_prefix(key, prefix) {
        assert(key.take(prefix.len() as int) =~= prefix);
    }
    if prefix.len() <= key.len() && key.take(prefix.len() as int) == prefix {
        assert forall|i: int| 0 <= i < prefix.len() implies #[trigger] key[i] == prefix[i] by {
            assert(key.take(prefix.len() as int)[i] == key[i]);
        }
    }
}

proof fn lemma_with_prefix_kept(rows: Seq<RowModel>, prefix: Seq<u8>) -> (places: Seq<int>)
    ensures
        are_first_kept(rows, begins_at(rows, prefix), None, with_prefix(rows, prefix), places),
    decreases rows.len(),
{
    if rows.len() == 0 {
        lemma_none_kept(begins_at(rows, prefix), None);
        assert(rows =~= Seq::<RowModel>::empty());
        Seq::empty()
    } else {
        let head = rows.drop_last();
        let n = rows.len() - 1;
        let before = lemma_with_prefix_kept(head, prefix);
        let found = with_prefix(head, prefix);
        let a = begins_at(head, prefix);
        let b = begins_at(rows, prefix);
        assert forall|i: int| 0 <= i < head.len() implies #[trigger] a(i) == b(i) by {
            assert(head[i] == rows[i]);
        }
        assert forall|i: int| 0 <= i < head.len() && #[trigger] b(i) implies before.contains(i) by {
            assert(a(i));
        }
        assert forall|k: int| 0 <= k < before.len() implies 0 <= #[trigger] before[k] < head.len()
            && b(before[k]) && found[k] == head[before[k]] by {
            assert(a(before[k]));
        }
        assert(are_first_kept(head, b, None, found, before));
        let now = lemma_first_kept_grows(rows, b, None, found, before);
        lemma_begins(rows[n].0, prefix);
        assert(b(n) == has_prefix(rows[n].0, prefix));
        assert(now.0 == with_prefix(rows, prefix));
        now.1
    }
}

/// Of the sorted rows of a data block, a request looks at exactly those that begin with the prefix of
/// the scan and come before the bound, where there is one, in their order.
pub proof fn law_request_looks_at_the_rows_asked_for(
    rows: Seq<RowModel>,
    prefix: Seq<u8>,
    bound: Option<Seq<u8>>,
    looked_at: Seq<RowModel>,
)
    requires
        is_sorted(rows),
        is_looked_at(rows, prefix, bound, looked_at),
    ensures
        exists|places: Seq<int>| #[trigger]
            are_first_kept(rows, is_asked_at(rows, prefix, bound), None, looked_at, places),
{
    let all = with_prefix(rows, prefix);
    let places = lemma_with_prefix_kept(rows, prefix);
    let keep = is_asked_at(rows, prefix, bound);
    let begins = begins_at(rows, prefix);
    assert(looked_at == eligible(rows, prefix, bound));
    match bound {
        None => {
            assert forall|i: int| 0 <= i < rows.len() && #[trigger] keep(i) implies places.contains(
                i,
            ) by {
                assert(begins(i));
            }
            assert forall|k: int| 0 <= k < places.len() implies 0 <= #[trigger] places[k]
                < rows.len() && keep(places[k]) && looked_at[k] == rows[places[k]] by {
                assert(begins(places[k]));
            }
            assert(are_first_kept(rows, keep, None, looked_at, places));
        },
        Some(key) => {
            assert(is_sorted(all)) by {
                assert forall|i: int, j: int| 0 <= i < j < all.len() implies !(
                #[trigger] all[j]).ranks_before(#[trigger] all[i]) by {
                    assert(places[i] < places[j]);
                    assert(all[i] == rows[places[i]] && all[j] == rows[places[j]]);
                }
            }
            let at = lemma_sorted_rows_parted(all, key);
            lemma_parted_before(all, key, at);
            let left = places.take(at);
            assert(looked_at == all.take(at));
            assert forall|k: int| 0 <= k < left.len() implies 0 <= #[trigger] left[k] < rows.len()
                && keep(left[k]) && looked_at[k] == rows[left[k]] by {
                assert(left[k] == places[k]);
                assert(begins(places[k]));
                assert(lex_lt(all[k].0, key));
            }
            assert forall|k: int, m: int| 0 <= k < m < left.len() implies #[trigger] left[k]
                < #[trigger] left[m] by {
                assert(left[k] == places[k] && left[m] == places[m]);
            }
            assert forall|i: int| 0 <= i < rows.len() && #[trigger] keep(i) implies left.contains(
                i,
            ) by {
                assert(begins(i));
                let k = choose|k: int| 0 <= k < places.len() && places[k] == i;
                if k >= at {
                    assert(!lex_lt(all[k].0, key));
                }
                assert(left[k] == i);
            }
            assert(are_first_kept(rows, keep, None, looked_at, left));
        },
    }
}

/// A request without a filter gives the first of the rows that it looks at, as many as its limit
/// says.
pub proof fn law_unfiltered_request_gives_the_first_rows<
    P: Fn(&Vec<u8>, &Vec<usize>) -> Option<Vec<Scalar>>,
    D: Fn(&Scalar, &Scalar) -> Option<Ordering>,
    N: Fn(&Scalar, &Scalar) -> Option<Ordering>,
    V: Fn(&Expr, &PayloadBlock) -> Option<FilterValue>,
>(
    rows: Seq<RowModel>,
    prefix: Seq<u8>,
    request: RequestModel,
    decode: P,
    direct: D,
    as_float: N,
    evaluate: V,
    outcome: Result<Seq<RowModel>, BtreeScanError>,
)
    requires
        rows_selected(
            rows,
            prefix,
            None,
            request,
            decode,
            direct,
            as_float,
            evaluate,
            outcome,
        ),
    ensures
        exists|looked_at: Seq<RowModel>|
            {
                &&& #[trigger] is_looked_at(rows, prefix, request.upper_bound_key, looked_at)
                &&& outcome matches Ok(found) && found.len() <= looked_at.len() && (forall|i: int|
                    0 <= i < found.len() ==> #[trigger] found[i] == looked_at[i])
                    && match request.limit {
                    None => found.len() == looked_at.len(),
                    Some(n) => found.len() == n || found.len() < n && found.len()
                        == looked_at.len(),
                }
            },
{
    let looked_at = choose|looked_at: Seq<RowModel>| #[trigger]
        is_looked_at(rows, prefix, request.upper_bound_key, looked_at) && outcome == Ok::<
            _,
            BtreeScanError,
        >(limited_rows(looked_at, request.limit));
    assert(is_looked_at(rows, prefix, request.upper_bound_key, looked_at));
}

/// Whether the row at a place passes the filter, given what its key and its payload hold.
pub open spec fn passes_filter_at(
    rows: Seq<RowModel>,
    filter: BtreeIndexFilter,
    values_of: spec_fn(RowModel) -> Seq<(ScalarModel, BtreeIndexKeyOrder)>,
    payload_of: spec_fn(RowModel) -> Seq<ScalarModel>,
    direct: spec_fn(ScalarModel, ScalarModel) -> Option<Ordering>,
    as_float: spec_fn(ScalarModel, ScalarModel) -> Option<Ordering>,
) -> spec_fn(int) -> bool {
    |i: int| passes(filter, values_of(rows[i]), payload_of(rows[i]), direct, as_float)
}

proof fn lemma_kept_alike(
    rows: Seq<RowModel>,
    a: spec_fn(int) -> bool,
    b: spec_fn(int) -> bool,
    limit: Option<usize>,
    found: Seq<RowModel>,
    places: Seq<int>,
)
    requires
        are_first_kept(rows, a, limit, found, places),
        forall|i: int| 0 <= i < rows.len() ==> #[trigger] a(i) == b(i),
    ensures
        are_first_kept(rows, b, limit, found, places),
{
    assert forall|i: int|
        0 <= i < rows.len() && #[trigger] b(i) && (!is_at_limit(found.len(), limit) || i
            < places.last()) implies places.contains(i) by {
        assert(a(i));
    }
    assert forall|k: int| 0 <= k < places.len() implies 0 <= #[trigger] places[k] < rows.len() && b(
        places[k],
    ) && found[k] == rows[places[k]] by {
        assert(a(places[k]));
    }
}

/// A filter that is a conjunction of simple ones gives the first of the rows that pass it, in their
/// order, as many as the limit allows. The key of each row is made of its values, and what is decoded
/// of its payload are the columns that the filter reads.
pub proof fn law_filter_gives_the_first_rows_that_pass<
    P: Fn(&Vec<u8>, &Vec<usize>) -> Option<Vec<Scalar>>,
    D: Fn(&Scalar, &Scalar) -> Option<Ordering>,
    N: Fn(&Scalar, &Scalar) -> Option<Ordering>,
    V: Fn(&Expr, &PayloadBlock) -> Option<FilterValue>,
>(
    rows: Seq<RowModel>,
    filter: BtreeIndexFilter,
    limit: Option<usize>,
    decode: P,
    direct: D,
    as_float: N,
    evaluate: V,
    outcome: Result<Seq<RowModel>, BtreeScanError>,
    rule: spec_fn(Seq<u8>, Seq<usize>) -> Option<Seq<ScalarModel>>,
    d: spec_fn(ScalarModel, ScalarModel) -> Option<Ordering>,
    n: spec_fn(ScalarModel, ScalarModel) -> Option<Ordering>,
    values_of: spec_fn(RowModel) -> Seq<(ScalarModel, BtreeIndexKeyOrder)>,
    payload_of: spec_fn(RowModel) -> Seq<ScalarModel>,
)
    requires
        filtering_gives(rows, filter, limit, decode, direct, as_float, evaluate, outcome),
        filter.fast() is Some,
        decodes_by(decode, rule),
        asked_of_all(filter.fast()->Some_0, direct, as_float, d, n),
        forall|i: int|
            0 <= i < rows.len() ==> (#[trigger] rows[i]).0 == key_bytes(values_of(rows[i])) && rule(
                rows[i].1,
                filter.payload_field_indexes@,
            ) == Some(picked(payload_of(rows[i]), filter.payload_field_indexes@)),
    ensures
        outcome matches Ok(found) && exists|places: Seq<int>| #[trigger]
            are_first_kept(
                rows,
                passes_filter_at(rows, filter, values_of, payload_of, d, n),
                limit,
                found,
                places,
            ),
{
    let keys = key_predicates_view(filter.key_predicates@);
    let columns = filter.payload_field_indexes@;
    let predicates = filter.fast()->Some_0;
    let keep = passes_filter_at(rows, filter, values_of, payload_of, d, n);
    if rows.len() == 0 {
        lemma_none_kept(keep, limit);
        assert(rows =~= Seq::<RowModel>::empty());
        assert(are_first_kept(rows, keep, limit, outcome->Ok_0, Seq::empty()));
    } else {
        let pass = if predicates.len() == 0 {
            key_pass(keys)
        } else {
            fast_pass(keys, predicates, columns, rule, d, n)
        };
        assert(outcome == searched(rows, pass, limit));
        assert forall|i: int| 0 <= i < rows.len() implies pass(#[trigger] rows[i]) == Ok::<
            bool,
            BtreeScanError,
        >(keep(i)) by {
            let row = rows[i];
            assert(keep(i) == passes(filter, values_of(row), payload_of(row), d, n));
            if predicates.len() == 0 {
                assert(row_satisfies_all(predicates, picked(payload_of(row), columns), d, n));
            }
        }
        law_searched_rows_are_the_first(rows, pass, limit);
        let found = outcome->Ok_0;
        let places = choose|places: Seq<int>| #[trigger]
            are_first_kept(rows, passes_at(rows, pass), limit, found, places);
        let a = passes_at(rows, pass);
        assert forall|i: int| 0 <= i < rows.len() implies #[trigger] a(i) == keep(i) by {
            assert(pass(rows[i]) == Ok::<bool, BtreeScanError>(keep(i)));
        }
        lemma_kept_alike(rows, a, keep, limit, found, places);
    }
}

proof fn lemma_decoded(
    rows: Seq<RowModel>,
    columns: Seq<usize>,
    rule: spec_fn(Seq<u8>, Seq<usize>) -> Option<Seq<ScalarModel>>,
)
    ensures
        match decoded_all(rows, columns, rule) {
            Some(table) => table.len() == rows.len() && forall|i: int|
                0 <= i < rows.len() ==> rule(rows[i].1, columns) == Some(#[trigger] table[i]),
            None => exists|i: int|
                0 <= i < rows.len() && rule((#[trigger] rows[i]).1, columns) is None,
        },
    decreases rows.len(),
{
    if rows.len() > 0 {
        let head = rows.drop_last();
        let n = rows.len() - 1;
        lemma_decoded(head, columns, rule);
        match decoded_all(head, columns, rule) {
            Some(before) => {
                if rule(rows[n].1, columns) is Some {
                    let table = decoded_all(rows, columns, rule)->Some_0;
                    assert forall|i: int| 0 <= i < rows.len() implies rule(rows[i].1, columns)
                        == Some(#[trigger] table[i]) by {
                        if i < n {
                            assert(table[i] == before[i]);
                            assert(head[i] == rows[i]);
                        }
                    }
                }
            },
            None => {
                let i = choose|i: int|
                    0 <= i < head.len() && rule((#[trigger] head[i]).1, columns) is None;
                assert(rows[i] == head[i]);
            },
        }
    }
}

/// The columns hold, for each row, what was decoded of its payload.
pub open spec fn holds_decoded(
    block: PayloadModel,
    rows: Seq<RowModel>,
    columns: Seq<usize>,
    width: nat,
    rule: spec_fn(Seq<u8>, Seq<usize>) -> Option<Seq<ScalarModel>>,
) -> bool {
    &&& block.0 == rows.len()
    &&& block.1.len() == width
    &&& forall|c: int, i: int|
        0 <= c < width && 0 <= i < rows.len() ==> #[trigger] block.1[c][i] == rule(
            rows[i].1,
            columns,
        )->Some_0[c]
}

/// The host was asked for the filter expression, over columns that hold what was decoded of all the
/// rows, and its answer makes the outcome.
pub open spec fn is_answered<V: Fn(&Expr, &PayloadBlock) -> Option<FilterValue>>(
    rows: Seq<RowModel>,
    filter: BtreeIndexFilter,
    limit: Option<usize>,
    evaluate: V,
    rule: spec_fn(Seq<u8>, Seq<usize>) -> Option<Seq<ScalarModel>>,
    outcome: Result<Seq<RowModel>, BtreeScanError>,
    block: PayloadModel,
    answer: Option<FilterValue>,
) -> bool {
    &&& holds_decoded(
        block,
        rows,
        filter.payload_field_indexes@,
        filter.payload_fields@.len(),
        rule,
    )
    &&& may_answer(evaluate, filter.expr->Some_0, block, answer)
    &&& outcome == answered_rows(rows, limit, opt_value_view(answer))
}

/// A filter that is left to the host is evaluated once, over columns that hold what was decoded of
/// all the rows in their order; what the host answers makes the outcome. Else a payload could not be
/// decoded, or one does not have as many values as are read.
pub proof fn law_host_is_asked_for_all_rows<
    P: Fn(&Vec<u8>, &Vec<usize>) -> Option<Vec<Scalar>>,
    D: Fn(&Scalar, &Scalar) -> Option<Ordering>,
    N: Fn(&Scalar, &Scalar) -> Option<Ordering>,
    V: Fn(&Expr, &PayloadBlock) -> Option<FilterValue>,
>(
    rows: Seq<RowModel>,
    filter: BtreeIndexFilter,
    limit: Option<usize>,
    decode: P,
    direct: D,
    as_float: N,
    evaluate: V,
    outcome: Result<Seq<RowModel>, BtreeScanError>,
    rule: spec_fn(Seq<u8>, Seq<usize>) -> Option<Seq<ScalarModel>>,
)
    requires
        filtering_gives(rows, filter, limit, decode, direct, as_float, evaluate, outcome),
        filter.fast() is None,
        filter.expr is Some,
        rows.len() > 0,
        decodes_by(decode, rule),
        forall|i: int|
            0 <= i < rows.len() ==> (rule(
                (#[trigger] rows[i]).1,
                filter.payload_field_indexes@,
            ) matches Some(values) && values.len() == filter.payload_fields@.len()),
    ensures
        exists|block: PayloadModel, answer: Option<FilterValue>| #[trigger]
            is_answered(rows, filter, limit, evaluate, rule, outcome, block, answer),
{
    let columns = filter.payload_field_indexes@;
    let width = filter.payload_fields@.len();
    lemma_decoded(rows, columns, rule);
    let table = decoded_all(rows, columns, rule)->Some_0;
    assert(expression_gives(rows, table, width, limit, filter.expr, evaluate, outcome));
    assert forall|i: int| 0 <= i < table.len() implies (#[trigger] table[i]).len() == width by {
        assert(rule(rows[i].1, columns) == Some(table[i]));
    }
    let made = choose|block: Result<PayloadModel, BtreeScanError>|
        #[trigger] block_outcome(table, width, block) && match block {
            Err(e) => outcome == Err::<Seq<RowModel>, _>(e),
            Ok(columns) => evaluation_gives(
                rows,
                limit,
                filter.expr->Some_0,
                columns,
                evaluate,
                outcome,
            ),
        };
    let block = made->Ok_0;
    if width > 0 {
        assert(block.1 == transposed(table, width));
        assert forall|c: int, i: int| 0 <= c < width && 0 <= i < rows.len() implies #[trigger] block.1[c][i]
            == rule(rows[i].1, columns)->Some_0[c] by {
            assert(rule(rows[i].1, columns) == Some(table[i]));
        }
    }
    assert(holds_decoded(block, rows, columns, width, rule));
    let answer = choose|answer: Option<FilterValue>| #[trigger]
        may_answer(evaluate, filter.expr->Some_0, block, answer) && outcome == answered_rows(
            rows,
            limit,
            opt_value_view(answer),
        );
    assert(is_answered(rows, filter, limit, evaluate, rule, outcome, block, answer));
}

} // verus!
