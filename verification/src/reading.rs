//! What reading candidates gives: the first rows of all of them, in key order.

use vstd::prelude::*;

use crate::candidate::{are_disjoint, first_keys_of, rows_before, CandidateModel, ReadModel,
    RequestModel};
use crate::lex::{lex_le, lex_lt};
use crate::lex::{lemma_lex_irreflexive, lemma_lex_le_transitive, lemma_lex_lt_is_le};
use crate::rows::limited_rows;
use crate::sort::{arranged, goes_first, is_sorted, lemma_sorted_is_stable_sort,
    lemma_stable_sort_exists, lemma_stable_sort_sorted, stable_sort, Ranked};
use crate::topk::{are_positions, is_beaten, is_top, lemma_select_top, lemma_top_is_prefix,
    ties_in_order};
use crate::types::RowModel;
use crate::view::joined;

verus! {

/// What a candidate with these rows answers to a request: the rows before the bound, up to the limit.
pub open spec fn answer(request: RequestModel, rows: Seq<RowModel>) -> Seq<RowModel> {
    limited_rows(rows_before(rows, request.upper_bound_key), request.limit)
}

/// The reading that the candidates' answers lead to.
pub open spec fn completed(state: ReadModel, blocks: Seq<Seq<RowModel>>) -> ReadModel
    decreases state.first_keys.len() - state.next,
{
    if state.done || state.next < 0 || state.next >= state.first_keys.len() {
        state
    } else {
        completed(state.accepted(answer(state.request(), blocks[state.next])), blocks)
    }
}

/// The rows of each candidate are sorted, and their keys lie between its first and its last key.
pub open spec fn rows_of_candidates(
    candidates: Seq<CandidateModel>,
    blocks: Seq<Seq<RowModel>>,
) -> bool {
    &&& blocks.len() == candidates.len()
    &&& forall|i: int| 0 <= i < blocks.len() ==> is_sorted(#[trigger] blocks[i])
    &&& forall|i: int, j: int|
        0 <= i < blocks.len() && 0 <= j < blocks[i].len() ==> lex_le(
            candidates[i].block.0,
            (#[trigger] blocks[i][j]).0,
        ) && lex_le(blocks[i][j].0, candidates[i].block.1)
}

/// The row at a position of the joined blocks stands in one of them.
proof fn lemma_joined_row(blocks: Seq<Seq<RowModel>>, x: int) -> (at: (int, int))
    requires
        0 <= x < joined(blocks).len(),
    ensures
        0 <= at.0 < blocks.len(),
        0 <= at.1 < blocks[at.0].len(),
        joined(blocks)[x] == blocks[at.0][at.1],
        joined(blocks.take(at.0)).len() + at.1 == x,
    decreases blocks.len(),
{
    let head = blocks.drop_last();
    let n = joined(head).len() as int;
    if x < n {
        let at = lemma_joined_row(head, x);
        assert(head.take(at.0) =~= blocks.take(at.0));
        assert(head[at.0] == blocks[at.0]);
        at
    } else {
        assert(blocks.take(blocks.len() - 1) =~= head);
        (blocks.len() - 1, x - n)
    }
}

proof fn lemma_joined_take(blocks: Seq<Seq<RowModel>>, k: int)
    requires
        0 <= k < blocks.len(),
    ensures
        joined(blocks.take(k + 1)) == joined(blocks.take(k)) + blocks[k],
{
    assert(blocks.take(k + 1).drop_last() =~= blocks.take(k));
}

/// The first blocks joined are the start of all blocks joined.
proof fn lemma_joined_prefix(blocks: Seq<Seq<RowModel>>, k: int)
    requires
        0 <= k <= blocks.len(),
    ensures
        joined(blocks.take(k)).len() <= joined(blocks).len(),
        joined(blocks).take(joined(blocks.take(k)).len() as int) == joined(blocks.take(k)),
    decreases blocks.len() - k,
{
    if k == blocks.len() {
        assert(blocks.take(k) =~= blocks);
        assert(joined(blocks).take(joined(blocks).len() as int) =~= joined(blocks));
    } else {
        lemma_joined_take(blocks, k);
        lemma_joined_prefix(blocks, k + 1);
        let a = joined(blocks.take(k));
        let b = joined(blocks.take(k + 1));
        assert(joined(blocks).take(a.len() as int) =~= b.take(a.len() as int));
        assert(b.take(a.len() as int) =~= a);
    }
}

proof fn lemma_joined_order(blocks: Seq<Seq<RowModel>>, i: int, j: int)
    requires
        0 <= i <= j <= blocks.len(),
    ensures
        joined(blocks.take(i)).len() <= joined(blocks.take(j)).len(),
    decreases j - i,
{
    if i < j {
        lemma_joined_order(blocks, i, j - 1);
        lemma_joined_take(blocks, j - 1);
    }
}

/// First keys ascend where candidates are sorted.
proof fn lemma_first_keys_ascend(candidates: Seq<CandidateModel>, i: int, j: int)
    requires
        is_sorted(candidates),
        0 <= i <= j < candidates.len(),
    ensures
        lex_le(candidates[i].block.0, candidates[j].block.0),
{
    lemma_lex_irreflexive(candidates[i].block.0);
    if i < j {
        assert(!candidates[j].ranks_before(candidates[i]));
    }
}

/// The rows of candidates whose key ranges do not overlap are in key order as they stand.
proof fn lemma_disjoint_joined_sorted(
    candidates: Seq<CandidateModel>,
    blocks: Seq<Seq<RowModel>>,
)
    requires
        is_sorted(candidates),
        are_disjoint(candidates),
        rows_of_candidates(candidates, blocks),
    ensures
        is_sorted(joined(blocks)),
{
    let all = joined(blocks);
    assert forall|x: int, y: int| 0 <= x < y < all.len() implies !(
    #[trigger] all[y]).ranks_before(#[trigger] all[x]) by {
        let a = lemma_joined_row(blocks, x);
        let b = lemma_joined_row(blocks, y);
        assert(is_sorted(blocks[a.0]));
        if a.0 == b.0 {
            assert(!blocks[a.0][b.1].ranks_before(blocks[a.0][a.1]));
        } else if a.0 < b.0 {
            let key_a = blocks[a.0][a.1].0;
            let key_b = blocks[b.0][b.1].0;
            assert(lex_le(key_a, candidates[a.0].block.1));
            assert(lex_le(candidates[b.0].block.0, key_b));
            assert(lex_lt(candidates[a.0].block.1, candidates[a.0 + 1].block.0));
            lemma_first_keys_ascend(candidates, a.0 + 1, b.0);
            lemma_lex_lt_is_le(candidates[a.0].block.1, candidates[a.0 + 1].block.0);
            lemma_lex_le_transitive(
                key_a,
                candidates[a.0].block.1,
                candidates[a.0 + 1].block.0,
            );
            lemma_lex_le_transitive(
                key_a,
                candidates[a.0 + 1].block.0,
                candidates[b.0].block.0,
            );
            lemma_lex_le_transitive(key_a, candidates[b.0].block.0, key_b);
        } else {
            lemma_joined_order(blocks, b.0 + 1, a.0);
            lemma_joined_take(blocks, b.0);
        }
    }
}

/// Of sorted rows, those before a bound come first.
proof fn lemma_rows_before(rows: Seq<RowModel>, bound: Seq<u8>) -> (m: int)
    requires
        is_sorted(rows),
    ensures
        0 <= m <= rows.len(),
        rows_before(rows, Some(bound)) == rows.take(m),
        forall|i: int| m <= i < rows.len() ==> lex_le(bound, (#[trigger] rows[i]).0),
    decreases rows.len(),
{
    if rows.len() == 0 {
        assert(rows.take(0) =~= rows);
        0
    } else if lex_lt(rows.last().0, bound) {
        assert(rows.take(rows.len() as int) =~= rows);
        rows.len() as int
    } else {
        let head = rows.drop_last();
        assert forall|i: int, j: int| 0 <= i < j < head.len() implies !(
        #[trigger] head[j]).ranks_before(#[trigger] head[i]) by {
            assert(head[i] == rows[i] && head[j] == rows[j]);
        }
        let m = lemma_rows_before(head, bound);
        assert(head.take(m) =~= rows.take(m));
        assert forall|i: int| m <= i < rows.len() implies lex_le(
            bound,
            (#[trigger] rows[i]).0,
        ) by {
            if i < head.len() {
                assert(rows[i] == head[i]);
            }
        }
        m
    }
}

/// What the reading of overlapping candidates with a limit holds before it is done: all rows so far
/// where they are fewer than the limit, else the first of them in key order.
spec fn holds_top(state: ReadModel, blocks: Seq<Seq<RowModel>>, n: int) -> bool {
    let seen = joined(blocks.take(state.next));
    ||| state.rows == seen && seen.len() < n
    ||| exists|kept: Seq<int>| #[trigger] is_top(seen, kept, n) && arranged(
        seen,
        kept,
        state.rows,
    )
}

/// Taking in the answer of the next candidate keeps the first rows.
proof fn lemma_top_step(
    seen: Seq<RowModel>,
    kept: Seq<int>,
    rows: Seq<RowModel>,
    block: Seq<RowModel>,
    m: int,
    n: int,
) -> (top: Seq<int>)
    requires
        n >= 1,
        is_sorted(block),
        0 <= m <= block.len(),
        are_positions(seen, kept),
        ties_in_order(seen, kept),
        arranged(seen, kept, rows),
        kept.len() + m >= n,
        (kept.len() == seen.len() && m == n) || (kept.len() == seen.len() && m == block.len()) || (
        is_top(seen, kept, n) && (m == n || m == block.len() || forall|i: int|
            m <= i < block.len() ==> lex_le(rows[n - 1].0, (#[trigger] block[i]).0))),
    ensures
        is_top(seen + block, top, n),
        arranged(seen + block, top, stable_sort(rows + block.take(m)).take(n)),
{
    let s = seen + block;
    let start = seen.len() as int;
    let added = Seq::new(m as nat, |i: int| start + i);
    let all = kept + added;
    let all_rows = rows + block.take(m);
    assert(are_positions(s, all)) by {
        assert forall|i: int, j: int|
            0 <= i < all.len() && 0 <= j < all.len() && i != j implies all[i] != all[j] by {
            if i < kept.len() && j < kept.len() {
                assert(kept[i] != kept[j]);
            } else if i < kept.len() {
                assert(0 <= kept[i] < start);
            } else if j < kept.len() {
                assert(0 <= kept[j] < start);
            }
        }
        assert forall|i: int| 0 <= i < all.len() implies 0 <= #[trigger] all[i] < s.len() by {
            if i < kept.len() {
                assert(0 <= kept[i] < start);
            }
        }
    }
    assert(ties_in_order(s, all)) by {
        assert forall|i: int, j: int|
            0 <= i < j < all.len() && !s[all[i]].ranks_before(s[all[j]])
                && !s[all[j]].ranks_before(s[all[i]]) implies #[trigger] all[i]
            < #[trigger] all[j] by {
            if i < kept.len() {
                assert(0 <= kept[i] < start);
                assert(s[all[i]] == seen[kept[i]]);
                if j < kept.len() {
                    assert(0 <= kept[j] < start);
                    assert(s[all[j]] == seen[kept[j]]);
                    assert(kept[i] < kept[j]);
                }
            }
        }
    }
    assert(arranged(s, all, all_rows)) by {
        assert forall|i: int| 0 <= i < all_rows.len() implies #[trigger] all_rows[i]
            == s[all[i]] by {
            if i < kept.len() {
                assert(rows[i] == seen[kept[i]]);
                assert(0 <= kept[i] < start);
            } else {
                assert(all[i] == start + (i - kept.len()));
            }
        }
    }
    assert forall|x: int| 0 <= x < s.len() && !(#[trigger] all.contains(x)) implies exists|
        from: int,
    | #[trigger] is_beaten(s, all, n, x, from) by {
        if x < start {
            // Every item seen before is kept, or beaten by the ones that are.
            if kept.contains(x) {
                let i = choose|i: int| 0 <= i < kept.len() && kept[i] == x;
                assert(all[i] == x);
            }
            if kept.len() == seen.len() && !is_top(seen, kept, n) {
                lemma_all_kept(seen, kept, x);
            }
            assert(is_beaten(s, all, n, x, 0)) by {
                lemma_top_beats(seen, kept, block, added, n, x);
            }
        } else {
            let y = x - start;
            if y < m {
                assert(all[kept.len() + y] == x);
            }
            if m == n {
                let from = kept.len() as int;
                assert forall|i: int, j: int| from <= i < j < from + n implies #[trigger] goes_first(
                    s,
                    all[i],
                    all[j],
                ) by {
                    assert(!block[j - from].ranks_before(block[i - from]));
                }
                assert forall|i: int| from <= i < from + n implies goes_first(
                    s,
                    #[trigger] all[i],
                    x,
                ) by {
                    assert(!block[y].ranks_before(block[i - from]));
                }
                assert(is_beaten(s, all, n, x, from));
            } else {
                assert(m < block.len());
                assert(is_top(seen, kept, n));
                assert forall|i: int, j: int| 0 <= i < j < n implies #[trigger] goes_first(
                    s,
                    all[i],
                    all[j],
                ) by {
                    assert(goes_first(seen, kept[i], kept[j]));
                    assert(0 <= kept[i] < start && 0 <= kept[j] < start);
                }
                assert forall|i: int| 0 <= i < n implies goes_first(
                    s,
                    #[trigger] all[i],
                    x,
                ) by {
                    assert(0 <= kept[i] < start);
                    assert(s[all[i]] == rows[i]);
                    assert(s[x] == block[y]);
                    assert(lex_le(rows[n - 1].0, block[y].0));
                    lemma_lex_irreflexive(rows[i].0);
                    if i < n - 1 {
                        assert(goes_first(seen, kept[i], kept[n - 1]));
                        assert(rows[i] == seen[kept[i]] && rows[n - 1] == seen[kept[n - 1]]);
                        RowModel::rank_asymmetric(rows[i], rows[n - 1]);
                    }
                    lemma_lex_le_transitive(rows[i].0, rows[n - 1].0, block[y].0);
                }
                assert(is_beaten(s, all, n, x, 0));
            }
        }
    }
    lemma_select_top(s, all, all_rows, n)
}

proof fn lemma_all_kept(seen: Seq<RowModel>, kept: Seq<int>, x: int)
    requires
        are_positions(seen, kept),
        kept.len() == seen.len(),
        0 <= x < seen.len(),
    ensures
        kept.contains(x),
{
    let n = seen.len() as int;
    let everything = vstd::set_lib::set_int_range(0, n);
    vstd::set_lib::lemma_int_range(0, n);
    kept.unique_seq_to_set();
    let have = kept.to_set();
    assert(have.subset_of(everything)) by {
        assert forall|y: int| have.contains(y) implies everything.contains(y) by {
            assert(kept.contains(y));
        }
    }
    vstd::set_lib::lemma_subset_equality(have, everything);
    assert(have.contains(x));
}

proof fn lemma_top_beats(
    seen: Seq<RowModel>,
    kept: Seq<int>,
    block: Seq<RowModel>,
    added: Seq<int>,
    n: int,
    x: int,
)
    requires
        is_top(seen, kept, n),
        0 <= x < seen.len(),
        !kept.contains(x),
    ensures
        is_beaten(seen + block, kept + added, n, x, 0),
{
    let s = seen + block;
    let all = kept + added;
    assert forall|i: int, j: int| 0 <= i < j < n implies #[trigger] goes_first(
        s,
        all[i],
        all[j],
    ) by {
        assert(goes_first(seen, kept[i], kept[j]));
        assert(0 <= kept[i] < seen.len() && 0 <= kept[j] < seen.len());
    }
    assert forall|i: int| 0 <= i < n implies goes_first(s, #[trigger] all[i], x) by {
        assert(goes_first(seen, kept[i], x));
        assert(0 <= kept[i] < seen.len());
    }
}

/// The reading belongs to these candidates, and is in a state that it can be in.
spec fn reads(state: ReadModel, candidates: Seq<CandidateModel>, limit: Option<usize>) -> bool {
    &&& state.wf()
    &&& state.first_keys == first_keys_of(candidates)
    &&& state.limit == limit
    &&& state.in_order == are_disjoint(candidates)
}

proof fn lemma_limited_prefix(a: Seq<RowModel>, all: Seq<RowModel>, n: usize)
    requires
        a.len() <= all.len(),
        all.take(a.len() as int) == a,
        a.len() >= n,
    ensures
        a.take(n as int) == limited_rows(all, Some(n)),
{
    assert(all.take(n as int) =~= a.take(n as int));
    if all.len() == n {
        assert(all.take(n as int) =~= all);
    }
}

proof fn lemma_in_order_reading(
    state: ReadModel,
    candidates: Seq<CandidateModel>,
    blocks: Seq<Seq<RowModel>>,
    limit: Option<usize>,
)
    requires
        reads(state, candidates, limit),
        are_disjoint(candidates),
        rows_of_candidates(candidates, blocks),
        !state.done,
        state.rows == joined(blocks.take(state.next)),
    ensures
        completed(state, blocks).rows == limited_rows(joined(blocks), limit),
    decreases blocks.len() - state.next,
{
    let k = state.next;
    let block = blocks[k];
    let request = state.request();
    let reply = answer(request, block);
    let next = state.accepted(reply);
    lemma_joined_take(blocks, k);
    lemma_joined_prefix(blocks, k + 1);
    let seen = joined(blocks.take(k + 1));
    let last = k + 1 == blocks.len();
    if last {
        assert(blocks.take(k + 1) =~= blocks);
    }
    match limit {
        None => {
            assert(next.rows == seen);
            if !last {
                lemma_in_order_reading(next, candidates, blocks, limit);
            } else {
                assert(completed(next, blocks) == next);
            }
        },
        Some(n) => {
            let room = n - state.rows.len();
            let all = state.rows + reply;
            if block.len() >= room {
                assert(all.len() == n);
                assert(all =~= seen.take(n as int));
                assert(all.take(n as int) =~= all);
                lemma_limited_prefix(seen, joined(blocks), n);
                assert(completed(next, blocks) == next);
            } else {
                assert(reply == block);
                assert(next.rows == seen);
                if !last {
                    lemma_in_order_reading(next, candidates, blocks, limit);
                } else {
                    assert(completed(next, blocks) == next);
                }
            }
        },
    }
}

proof fn lemma_unlimited_reading(
    state: ReadModel,
    candidates: Seq<CandidateModel>,
    blocks: Seq<Seq<RowModel>>,
)
    requires
        reads(state, candidates, None),
        !are_disjoint(candidates),
        rows_of_candidates(candidates, blocks),
        !state.done,
        state.rows == joined(blocks.take(state.next)),
    ensures
        completed(state, blocks).rows == stable_sort(joined(blocks)),
    decreases blocks.len() - state.next,
{
    let k = state.next;
    let next = state.accepted(answer(state.request(), blocks[k]));
    lemma_joined_take(blocks, k);
    if k + 1 == blocks.len() {
        assert(blocks.take(k + 1) =~= blocks);
        assert(completed(next, blocks) == next);
    } else {
        lemma_unlimited_reading(next, candidates, blocks);
    }
}

/// Rows whose keys are not before the last kept one stay behind the kept ones.
proof fn lemma_top_extends(
    seen: Seq<RowModel>,
    all: Seq<RowModel>,
    kept: Seq<int>,
    rows: Seq<RowModel>,
    n: int,
)
    requires
        n >= 1,
        is_top(seen, kept, n),
        arranged(seen, kept, rows),
        seen.len() <= all.len(),
        all.take(seen.len() as int) == seen,
        forall|x: int| seen.len() <= x < all.len() ==> lex_le(rows[n - 1].0, (#[trigger] all[x]).0),
    ensures
        is_top(all, kept, n),
        arranged(all, kept, rows),
{
    assert forall|i: int| 0 <= i < seen.len() implies seen[i] == #[trigger] all[i] by {
        assert(all.take(seen.len() as int)[i] == all[i]);
    }
    assert forall|i: int, j: int| 0 <= i < j < n implies #[trigger] goes_first(
        all,
        kept[i],
        kept[j],
    ) by {
        assert(goes_first(seen, kept[i], kept[j]));
        assert(0 <= kept[i] < seen.len() && 0 <= kept[j] < seen.len());
        assert(seen[kept[i]] == all[kept[i]] && seen[kept[j]] == all[kept[j]]);
    }
    assert forall|x: int, i: int|
        0 <= x < all.len() && !kept.contains(x) && 0 <= i < n implies #[trigger] goes_first(
        all,
        kept[i],
        x,
    ) by {
        assert(0 <= kept[i] < seen.len());
        assert(seen[kept[i]] == all[kept[i]]);
        if x < seen.len() {
            assert(goes_first(seen, kept[i], x));
            assert(seen[x] == all[x]);
        } else {
            lemma_lex_irreflexive(rows[i].0);
            assert(rows[i] == seen[kept[i]]);
            if i < n - 1 {
                assert(goes_first(seen, kept[i], kept[n - 1]));
                assert(rows[n - 1] == seen[kept[n - 1]]);
                RowModel::rank_asymmetric(rows[i], rows[n - 1]);
            }
            lemma_lex_le_transitive(rows[i].0, rows[n - 1].0, all[x].0);
        }
    }
    assert forall|i: int| 0 <= i < rows.len() implies #[trigger] rows[i] == all[kept[i]] by {
        assert(rows[i] == seen[kept[i]]);
        assert(0 <= kept[i] < seen.len());
        assert(seen[kept[i]] == all[kept[i]]);
    }
}

/// Every row of the candidates from `k` on is not before the first key of the one at `k`.
proof fn lemma_later_rows(
    candidates: Seq<CandidateModel>,
    blocks: Seq<Seq<RowModel>>,
    k: int,
    x: int,
)
    requires
        is_sorted(candidates),
        rows_of_candidates(candidates, blocks),
        0 <= k < blocks.len(),
        joined(blocks.take(k)).len() <= x < joined(blocks).len(),
    ensures
        lex_le(candidates[k].block.0, joined(blocks)[x].0),
{
    let at = lemma_joined_row(blocks, x);
    if at.0 < k {
        lemma_joined_take(blocks, at.0);
        lemma_joined_order(blocks, at.0 + 1, k);
    }
    lemma_first_keys_ascend(candidates, k, at.0);
    assert(lex_le(candidates[at.0].block.0, blocks[at.0][at.1].0));
    lemma_lex_le_transitive(
        candidates[k].block.0,
        candidates[at.0].block.0,
        blocks[at.0][at.1].0,
    );
}

#[verifier::rlimit(40)]
proof fn lemma_limited_reading(
    state: ReadModel,
    candidates: Seq<CandidateModel>,
    blocks: Seq<Seq<RowModel>>,
    n: usize,
)
    requires
        reads(state, candidates, Some(n)),
        is_sorted(candidates),
        !are_disjoint(candidates),
        rows_of_candidates(candidates, blocks),
        !state.done,
        holds_top(state, blocks, n as int),
    ensures
        completed(state, blocks).rows == limited_rows(stable_sort(joined(blocks)), Some(n)),
    decreases blocks.len() - state.next,
{
    let k = state.next;
    let block = blocks[k];
    assert(is_sorted(block));
    let request = state.request();
    let reply = answer(request, block);
    let next = state.accepted(reply);
    let seen = joined(blocks.take(k));
    let after = joined(blocks.take(k + 1));
    let total = joined(blocks);
    lemma_joined_take(blocks, k);
    lemma_joined_prefix(blocks, k + 1);
    assert(after == seen + block);
    let last = k + 1 == blocks.len();
    if last {
        assert(blocks.take(k + 1) =~= blocks);
    }
    let all = state.rows + reply;
    let raw = state.rows == seen && seen.len() < n;
    let kept: Seq<int> = if raw {
        Seq::new(seen.len(), |i: int| i)
    } else {
        choose|kept: Seq<int>| #[trigger] is_top(seen, kept, n as int) && arranged(
            seen,
            kept,
            state.rows,
        )
    };
    assert(arranged(seen, kept, state.rows));
    assert(ties_in_order(seen, kept)) by {
        if !raw {
            assert forall|i: int, j: int|
                0 <= i < j < kept.len() && !seen[kept[i]].ranks_before(seen[kept[j]])
                    && !seen[kept[j]].ranks_before(seen[kept[i]]) implies #[trigger] kept[i]
                < #[trigger] kept[j] by {
                assert(goes_first(seen, kept[i], kept[j]));
            }
        }
    }
    // How many rows of the block come in.
    let within = if raw {
        block.len() as int
    } else {
        lemma_rows_before(block, state.rows.last().0)
    };
    assert(rows_before(block, request.upper_bound_key) == block.take(within)) by {
        if raw {
            assert(block.take(within) =~= block);
        }
    }
    let m = if within > n {
        n as int
    } else {
        within
    };
    assert(reply =~= block.take(m));
    if all.len() >= n {
        let top = lemma_top_step(seen, kept, state.rows, block, m, n as int);
        assert(next.rows == stable_sort(all).take(n as int));
        assert(is_top(after, top, n as int) && arranged(after, top, next.rows));
        lemma_stable_sort_exists(total);
        lemma_stable_sort_sorted(total, stable_sort(total));
        if last {
            lemma_top_fits(total, top, n as int);
            lemma_top_is_prefix(total, top, n as int, next.rows);
            assert(completed(next, blocks) == next);
        } else if next.done {
            assert forall|x: int| after.len() <= x < total.len() implies lex_le(
                next.rows[n - 1].0,
                (#[trigger] total[x]).0,
            ) by {
                lemma_later_rows(candidates, blocks, k + 1, x);
                lemma_lex_le_transitive(
                    next.rows[n - 1].0,
                    candidates[k + 1].block.0,
                    total[x].0,
                );
            }
            lemma_top_extends(after, total, top, next.rows, n as int);
            lemma_top_fits(total, top, n as int);
            lemma_top_is_prefix(total, top, n as int, next.rows);
            assert(completed(next, blocks) == next);
        } else {
            assert(holds_top(next, blocks, n as int));
            lemma_limited_reading(next, candidates, blocks, n);
        }
        if stable_sort(total).len() == n {
            assert(stable_sort(total).take(n as int) =~= stable_sort(total));
        }
    } else {
        assert(raw);
        assert(m == block.len());
        assert(block.take(m) =~= block);
        assert(all == after);
        if last {
            lemma_stable_sort_exists(total);
            lemma_stable_sort_sorted(total, stable_sort(total));
            assert(completed(next, blocks) == next);
        } else {
            assert(holds_top(next, blocks, n as int));
            lemma_limited_reading(next, candidates, blocks, n);
        }
    }
}

/// The top of a sequence is no longer than it.
proof fn lemma_top_fits(s: Seq<RowModel>, kept: Seq<int>, n: int)
    requires
        is_top(s, kept, n),
    ensures
        n <= s.len(),
{
    let everything = vstd::set_lib::set_int_range(0, s.len() as int);
    vstd::set_lib::lemma_int_range(0, s.len() as int);
    kept.unique_seq_to_set();
    let have = kept.to_set();
    assert(have.subset_of(everything)) by {
        assert forall|y: int| have.contains(y) implies everything.contains(y) by {
            assert(kept.contains(y));
        }
    }
    vstd::set_lib::lemma_len_subset(have, everything);
}

/// Reading candidates gives the first rows of all of them in key order, up to the limit, whatever
/// candidates are left unread: rows with equal keys stand in the order of their candidates.
///
/// The candidates are in the order in which they are read; the rows of each are sorted, and their
/// keys lie between its first and its last key.
pub proof fn law_reading_gives_first_rows(
    candidates: Seq<CandidateModel>,
    blocks: Seq<Seq<RowModel>>,
    limit: Option<usize>,
)
    requires
        is_sorted(candidates),
        rows_of_candidates(candidates, blocks),
        limit == Some(0usize) ==> are_disjoint(candidates),
    ensures
        completed(
            ReadModel::begun(first_keys_of(candidates), are_disjoint(candidates), limit),
            blocks,
        ).rows == limited_rows(stable_sort(joined(blocks)), limit),
{
    let state = ReadModel::begun(first_keys_of(candidates), are_disjoint(candidates), limit);
    assert(blocks.take(0) =~= Seq::<Seq<RowModel>>::empty());
    if candidates.len() == 0 {
        assert(blocks =~= Seq::<Seq<RowModel>>::empty());
        lemma_sorted_is_stable_sort(joined(blocks));
    } else if are_disjoint(candidates) {
        lemma_disjoint_joined_sorted(candidates, blocks);
        lemma_sorted_is_stable_sort(joined(blocks));
        if limit == Some(0usize) {
            assert(limited_rows(joined(blocks), limit) =~= Seq::<RowModel>::empty());
        } else {
            lemma_in_order_reading(state, candidates, blocks, limit);
        }
    } else {
        match limit {
            None => {
                lemma_unlimited_reading(state, candidates, blocks);
            },
            Some(n) => {
                assert(holds_top(state, blocks, n as int));
                lemma_limited_reading(state, candidates, blocks, n);
            },
        }
    }
}

} // verus!
