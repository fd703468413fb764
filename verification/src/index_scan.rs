//! A scan of an index: what is taken of each data block, and what all of them come to.

use std::cmp::Ordering;

use vstd::prelude::*;

use crate::candidate::{are_disjoint, first_keys_of, rows_before, CandidateModel, CandidateRequest,
    ReadModel, RequestModel};
use crate::expr::Expr;
use crate::filter::{BtreeIndexFilter, BtreeScanError};
use crate::lex::{lemma_lex_le_transitive, lex_le, lex_lt};
use crate::reading::{answer, completed, law_reading_gives_first_rows, rows_of_candidates};
use crate::rows::{btree_prefix_row_refs, clone_row_refs, lemma_sorted_rows_parted, limited_rows,
    parted_at, prefix_run, refs_view, search_ends, truncate_row_refs_before_key, with_prefix};
use crate::scalar::Scalar;
use crate::select::{filter_index_row_refs, filtering_gives, rows_result, searched, FilterValue,
    PayloadBlock};
use crate::sort::{is_sorted, stable_sort, Ranked};
use crate::types::{rows_view, BtreeIndexRow, RowModel};
use crate::view::joined;

verus! {

/// What is before a bound that parts rows are the first of them.
pub proof fn lemma_parted_before(rows: Seq<RowModel>, bound: Seq<u8>, at: int)
    requires
        parted_at(rows, bound, at),
    ensures
        rows_before(rows, Some(bound)) == rows.take(at),
    decreases rows.len(),
{
    if rows.len() == 0 {
        assert(rows.take(at) =~= rows);
    } else if lex_lt(rows.last().0, bound) {
        assert(at == rows.len());
        assert(rows.take(at) =~= rows);
    } else {
        let head = rows.drop_last();
        assert(at <= head.len());
        assert(parted_at(head, bound, at));
        lemma_parted_before(head, bound, at);
        assert(head.take(at) =~= rows.take(at));
    }
}

/// The rows of a data block that begin with `prefix` and are before the bound.
pub open spec fn eligible(rows: Seq<RowModel>, prefix: Seq<u8>, bound: Option<Seq<u8>>) -> Seq<
    RowModel,
> {
    rows_before(with_prefix(rows, prefix), bound)
}

/// What is left of rows before a bound: they are cut off where the bound parts them, and somewhere
/// where it does not.
pub open spec fn is_cut_off(
    rows: Seq<RowModel>,
    bound: Option<Seq<u8>>,
    left: Seq<RowModel>,
) -> bool {
    match bound {
        None => left == rows,
        Some(bound) => {
            &&& exists|n: int| 0 <= n <= rows.len() && left == #[trigger] rows.take(n)
            &&& forall|at: int| #[trigger] parted_at(rows, bound, at) ==> left == rows.take(at)
        },
    }
}

/// The rows of a data block that a request looks at: a run of rows that begin with `prefix`, cut
/// off at the bound. Of rows in key order, they are all that begin with `prefix` and are before the
/// bound.
pub open spec fn is_looked_at(
    rows: Seq<RowModel>,
    prefix: Seq<u8>,
    bound: Option<Seq<u8>>,
    picked: Seq<RowModel>,
) -> bool {
    &&& exists|start: int, end: int| #[trigger]
        prefix_run(rows, prefix, start, end) && (prefix.len() == 0 ==> start == 0)
            && is_cut_off(rows.subrange(start, end), bound, picked)
    &&& is_sorted(rows) ==> picked == eligible(rows, prefix, bound)
}

fn eligible_refs<'a>(
    rows: &'a [BtreeIndexRow],
    prefix: &[u8],
    upper_bound_key: Option<&[u8]>,
) -> (r: Vec<&'a BtreeIndexRow>)
    ensures
        is_looked_at(
            rows_view(rows@),
            prefix@,
            match upper_bound_key {
                Some(bound) => Some(bound@),
                None => None,
            },
            refs_view(r@),
        ),
{
    let mut refs = btree_prefix_row_refs(rows, prefix);
    let ghost picked = refs_view(refs@);
    let ghost before = refs@;
    truncate_row_refs_before_key(&mut refs, upper_bound_key);
    proof {
        let models = rows_view(rows@);
        let (start, end) = choose|start: int, end: int| #[trigger]
            prefix_run(models, prefix@, start, end) && picked == models.subrange(start, end) && (
            prefix@.len() == 0 ==> start == 0);
        if upper_bound_key is Some {
            let bound = upper_bound_key->Some_0@;
            let n = choose|n: int|
                0 <= n <= before.len() && refs@ == #[trigger] before.take(n);
            assert(refs_view(refs@) =~= picked.take(n));
            assert forall|at: int| #[trigger] parted_at(picked, bound, at) implies refs_view(refs@)
                == picked.take(at) by {
                assert(refs@ == before.take(at));
                assert(refs_view(refs@) =~= picked.take(at));
            }
            if is_sorted(models) {
                assert(is_sorted(picked)) by {
                    assert forall|i: int, j: int| 0 <= i < j < picked.len() implies !(
                    #[trigger] picked[j]).ranks_before(#[trigger] picked[i]) by {
                        assert(picked[i] == models[start + i] && picked[j] == models[start + j]);
                    }
                }
                let at = lemma_sorted_rows_parted(picked, bound);
                lemma_parted_before(picked, bound, at);
            }
        }
    }
    refs
}

/// What a request makes of the rows of a data block.
pub open spec fn rows_selected<
    P: Fn(&Vec<u8>, &Vec<usize>) -> Option<Vec<Scalar>>,
    D: Fn(&Scalar, &Scalar) -> Option<Ordering>,
    N: Fn(&Scalar, &Scalar) -> Option<Ordering>,
    V: Fn(&Expr, &PayloadBlock) -> Option<FilterValue>,
>(
    rows: Seq<RowModel>,
    prefix: Seq<u8>,
    filter: Option<BtreeIndexFilter>,
    request: RequestModel,
    decode: P,
    direct: D,
    as_float: N,
    evaluate: V,
    outcome: Result<Seq<RowModel>, BtreeScanError>,
) -> bool {
    &&& filter is None && is_sorted(rows) ==> outcome == Ok::<_, BtreeScanError>(
        answer(request, with_prefix(rows, prefix)),
    )
    &&& exists|picked: Seq<RowModel>| #[trigger]
        is_looked_at(rows, prefix, request.upper_bound_key, picked) && match filter {
            None => outcome == Ok::<_, BtreeScanError>(limited_rows(picked, request.limit)),
            Some(given) => filtering_gives(
                picked,
                given,
                request.limit,
                decode,
                direct,
                as_float,
                evaluate,
                outcome,
            ),
        }
}

/// Copies of the rows of a data block that a request asks for: those that begin with the prefix of
/// the scan, are before the bound and pass the filter, up to the limit.
///
/// The rows of a data block are in key order. Of others, a run of rows that begin with the prefix is
/// looked at.
pub fn select_candidate_rows<
    P: Fn(&Vec<u8>, &Vec<usize>) -> Option<Vec<Scalar>>,
    D: Fn(&Scalar, &Scalar) -> Option<Ordering>,
    N: Fn(&Scalar, &Scalar) -> Option<Ordering>,
    V: Fn(&Expr, &PayloadBlock) -> Option<FilterValue>,
>(
    rows: &Vec<BtreeIndexRow>,
    prefix: &[u8],
    filter: Option<&BtreeIndexFilter>,
    request: &CandidateRequest,
    decode: &P,
    direct: &D,
    as_float: &N,
    evaluate: &V,
) -> (r: Result<Vec<BtreeIndexRow>, BtreeScanError>)
    requires
        forall|a: &Vec<u8>, b: &Vec<usize>| call_requires(*decode, (a, b)),
        forall|a: &Scalar, b: &Scalar| call_requires(*direct, (a, b)),
        forall|a: &Scalar, b: &Scalar| call_requires(*as_float, (a, b)),
        forall|a: &Expr, b: &PayloadBlock| call_requires(*evaluate, (a, b)),
    ensures
        rows_selected(
            rows_view(rows@),
            prefix@,
            match filter {
                Some(given) => Some(*given),
                None => None,
            },
            request@,
            *decode,
            *direct,
            *as_float,
            *evaluate,
            rows_result(r),
        ),
{
    let bound: Option<&[u8]> = match &request.upper_bound_key {
        Some(key) => Some(key.as_slice()),
        None => None,
    };
    let refs = eligible_refs(rows.as_slice(), prefix, bound);
    assert(is_looked_at(rows_view(rows@), prefix@, request@.upper_bound_key, refs_view(refs@)));
    match filter {
        None => Ok(clone_row_refs(&refs, request.limit)),
        Some(filter) => filter_index_row_refs(
            &refs,
            filter,
            request.limit,
            decode,
            direct,
            as_float,
            evaluate,
        ),
    }
}

/// The rows that are kept, in their order.
pub open spec fn kept_rows(rows: Seq<RowModel>, keep: spec_fn(RowModel) -> bool) -> Seq<RowModel>
    decreases rows.len(),
{
    if rows.len() == 0 {
        Seq::empty()
    } else {
        let before = kept_rows(rows.drop_last(), keep);
        if keep(rows.last()) {
            before.push(rows.last())
        } else {
            before
        }
    }
}

/// Each row that is kept is one of the rows, and their order stays.
proof fn lemma_kept_places(rows: Seq<RowModel>, keep: spec_fn(RowModel) -> bool) -> (places: Seq<int>)
    ensures
        places.len() == kept_rows(rows, keep).len(),
        forall|i: int|
            0 <= i < places.len() ==> 0 <= #[trigger] places[i] < rows.len() && kept_rows(
                rows,
                keep,
            )[i] == rows[places[i]],
        forall|i: int, j: int|
            0 <= i < j < places.len() ==> #[trigger] places[i] < #[trigger] places[j],
    decreases rows.len(),
{
    if rows.len() == 0 {
        Seq::empty()
    } else {
        let before = lemma_kept_places(rows.drop_last(), keep);
        assert forall|i: int| 0 <= i < before.len() implies rows.drop_last()[#[trigger] before[i]]
            == rows[before[i]] by {
            assert(0 <= before[i] < rows.drop_last().len());
        }
        if keep(rows.last()) {
            let now = before.push(rows.len() - 1);
            assert forall|i: int, j: int| 0 <= i < j < now.len() implies #[trigger] now[i]
                < #[trigger] now[j] by {
                if j == now.len() - 1 {
                    assert(now[i] == before[i]);
                } else {
                    assert(now[i] == before[i] && now[j] == before[j]);
                }
            }
            now
        } else {
            before
        }
    }
}

/// What is kept of sorted rows is sorted.
proof fn lemma_kept_sorted(rows: Seq<RowModel>, keep: spec_fn(RowModel) -> bool)
    requires
        is_sorted(rows),
    ensures
        is_sorted(kept_rows(rows, keep)),
{
    let places = lemma_kept_places(rows, keep);
    let kept = kept_rows(rows, keep);
    assert forall|i: int, j: int| 0 <= i < j < kept.len() implies !(
    #[trigger] kept[j]).ranks_before(#[trigger] kept[i]) by {
        assert(places[i] < places[j]);
        assert(kept[i] == rows[places[i]] && kept[j] == rows[places[j]]);
    }
}

/// Keeping rows and cutting them off at a bound come to the same in either order.
proof fn lemma_kept_before(rows: Seq<RowModel>, keep: spec_fn(RowModel) -> bool, bound: Seq<u8>)
    requires
        is_sorted(rows),
    ensures
        kept_rows(rows_before(rows, Some(bound)), keep) == rows_before(
            kept_rows(rows, keep),
            Some(bound),
        ),
    decreases rows.len(),
{
    if rows.len() > 0 {
        let head = rows.drop_last();
        assert(is_sorted(head)) by {
            assert forall|i: int, j: int| 0 <= i < j < head.len() implies !(
            #[trigger] head[j]).ranks_before(#[trigger] head[i]) by {
                assert(head[i] == rows[i] && head[j] == rows[j]);
            }
        }
        if lex_lt(rows.last().0, bound) {
            let kept = kept_rows(rows, keep);
            if kept.len() > 0 {
                let places = lemma_kept_places(rows, keep);
                let p = places[kept.len() - 1];
                assert(kept.last() == rows[p]);
                // The row at `p` is not after the last, which is before the bound.
                if p < rows.len() - 1 {
                    assert(!rows[rows.len() - 1].ranks_before(rows[p]));
                    if !lex_lt(rows[p].0, bound) {
                        lemma_lex_le_transitive(bound, rows[p].0, rows.last().0);
                    }
                }
                assert(lex_lt(kept.last().0, bound));
            }
        } else {
            lemma_kept_before(head, keep, bound);
            if keep(rows.last()) {
                assert(kept_rows(rows, keep).drop_last() =~= kept_rows(head, keep));
            }
        }
    }
}

/// Searching sorted rows is keeping those that pass, up to the limit.
proof fn lemma_searched_kept(
    rows: Seq<RowModel>,
    pass: spec_fn(RowModel) -> Result<bool, BtreeScanError>,
    keep: spec_fn(RowModel) -> bool,
    limit: Option<usize>,
)
    requires
        limit != Some(0usize),
        forall|row: RowModel| #[trigger] pass(row) == Ok::<bool, BtreeScanError>(keep(row)),
    ensures
        searched(rows, pass, limit) == Ok::<_, BtreeScanError>(
            limited_rows(kept_rows(rows, keep), limit),
        ),
    decreases rows.len(),
{
    if rows.len() > 0 {
        let head = rows.drop_last();
        lemma_searched_kept(head, pass, keep, limit);
        let before = kept_rows(head, keep);
        let now = kept_rows(rows, keep);
        let found = limited_rows(before, limit);
        assert(pass(rows.last()) == Ok::<bool, BtreeScanError>(keep(rows.last())));
        match limit {
            None => {},
            Some(n) => {
                if before.len() >= n {
                    assert(found =~= before.take(found.len() as int));
                    assert(now.take(found.len() as int) =~= before.take(found.len() as int));
                    assert(search_ends(found.len(), limit));
                    assert(limited_rows(now, limit) =~= found);
                } else {
                    assert(!search_ends(found.len(), limit));
                }
            },
        }
    }
}

/// A filter that judges each row by itself makes of a request what the request makes of the rows
/// that pass it: filtering first or cutting off first does not matter.
pub proof fn law_filter_commutes_with_request(
    rows: Seq<RowModel>,
    pass: spec_fn(RowModel) -> Result<bool, BtreeScanError>,
    keep: spec_fn(RowModel) -> bool,
    request: RequestModel,
)
    requires
        is_sorted(rows),
        request.limit != Some(0usize),
        forall|row: RowModel| #[trigger] pass(row) == Ok::<bool, BtreeScanError>(keep(row)),
    ensures
        searched(rows_before(rows, request.upper_bound_key), pass, request.limit) == Ok::<
            _,
            BtreeScanError,
        >(answer(request, kept_rows(rows, keep))),
{
    lemma_searched_kept(
        rows_before(rows, request.upper_bound_key),
        pass,
        keep,
        request.limit,
    );
    match request.upper_bound_key {
        None => {},
        Some(bound) => {
            lemma_kept_before(rows, keep, bound);
        },
    }
}

/// The rows of each block that are kept.
pub open spec fn kept_blocks(blocks: Seq<Seq<RowModel>>, keep: spec_fn(RowModel) -> bool) -> Seq<
    Seq<RowModel>,
> {
    Seq::new(blocks.len(), |i: int| kept_rows(blocks[i], keep))
}

proof fn lemma_kept_concat(a: Seq<RowModel>, b: Seq<RowModel>, keep: spec_fn(RowModel) -> bool)
    ensures
        kept_rows(a + b, keep) == kept_rows(a, keep) + kept_rows(b, keep),
    decreases b.len(),
{
    if b.len() == 0 {
        assert(a + b =~= a);
        assert(kept_rows(a, keep) + kept_rows(b, keep) =~= kept_rows(a, keep));
    } else {
        assert((a + b).drop_last() =~= a + b.drop_last());
        assert((a + b).last() == b.last());
        lemma_kept_concat(a, b.drop_last(), keep);
        assert(kept_rows(a + b, keep) =~= kept_rows(a, keep) + kept_rows(b, keep));
    }
}

proof fn lemma_kept_joined(blocks: Seq<Seq<RowModel>>, keep: spec_fn(RowModel) -> bool)
    ensures
        joined(kept_blocks(blocks, keep)) == kept_rows(joined(blocks), keep),
    decreases blocks.len(),
{
    if blocks.len() > 0 {
        let head = blocks.drop_last();
        lemma_kept_joined(head, keep);
        assert(kept_blocks(blocks, keep).drop_last() =~= kept_blocks(head, keep));
        lemma_kept_concat(joined(head), blocks.last(), keep);
    }
}

/// A scan of an index gives the first rows, in key order and up to its limit, of those that pass
/// its filter, whatever data blocks it leaves unread: rows with equal keys stand in the order of
/// their blocks.
///
/// The candidates are in the order in which they are read; the rows of each are sorted, and their
/// keys lie between its first and its last key.
pub proof fn law_scan_gives_first_passing_rows(
    candidates: Seq<CandidateModel>,
    blocks: Seq<Seq<RowModel>>,
    keep: spec_fn(RowModel) -> bool,
    limit: Option<usize>,
)
    requires
        is_sorted(candidates),
        rows_of_candidates(candidates, blocks),
        limit == Some(0usize) ==> are_disjoint(candidates),
    ensures
        completed(
            ReadModel::begun(first_keys_of(candidates), are_disjoint(candidates), limit),
            kept_blocks(blocks, keep),
        ).rows == limited_rows(stable_sort(kept_rows(joined(blocks), keep)), limit),
{
    let kept = kept_blocks(blocks, keep);
    assert forall|i: int| 0 <= i < kept.len() implies is_sorted(#[trigger] kept[i]) by {
        assert(is_sorted(blocks[i]));
        lemma_kept_sorted(blocks[i], keep);
    }
    assert forall|i: int, j: int| 0 <= i < kept.len() && 0 <= j < kept[i].len() implies lex_le(
        candidates[i].block.0,
        (#[trigger] kept[i][j]).0,
    ) && lex_le(kept[i][j].0, candidates[i].block.1) by {
        let places = lemma_kept_places(blocks[i], keep);
        let p = places[j];
        assert(kept[i][j] == blocks[i][p]);
    }
    law_reading_gives_first_rows(candidates, kept, limit);
    lemma_kept_joined(blocks, keep);
}

} // verus!
