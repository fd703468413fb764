//! Which rows a lookup and a filter give.

use vstd::prelude::*;

use crate::candidate::{read_order, CandidateModel};
use crate::filter::BtreeScanError;
use crate::lex::{has_prefix, lemma_lex_lt_by, lemma_lex_witness, lex_lt, lex_lt_at};
use crate::rows::{limited_rows, marked_rows};
use crate::select::{answered_rows, searched, FilterValueModel};
use crate::sort::{lemma_stable_sort_exists, lemma_stable_sort_items, lemma_stable_sort_sorted,
    Ranked};
use crate::text::text_lt;
use crate::types::RowModel;
use crate::view::{hits, may_contain, QueryModel};

verus! {

/// As many rows were found as the limit allows; a limit of zero allows one.
pub open spec fn is_at_limit(found: nat, limit: Option<usize>) -> bool {
    limit matches Some(n) && found > 0 && found >= n
}

/// What was found are the first rows that are to be kept, in their order, by their places: no row
/// that is to be kept is passed over, until the limit is reached.
pub open spec fn are_first_kept(
    rows: Seq<RowModel>,
    keep: spec_fn(int) -> bool,
    limit: Option<usize>,
    found: Seq<RowModel>,
    places: Seq<int>,
) -> bool {
    &&& places.len() == found.len()
    &&& forall|k: int|
        0 <= k < places.len() ==> 0 <= #[trigger] places[k] < rows.len() && keep(places[k])
            && found[k] == rows[places[k]]
    &&& forall|k: int, m: int|
        0 <= k < m < places.len() ==> #[trigger] places[k] < #[trigger] places[m]
    &&& limit matches Some(n) ==> found.len() <= n || found.len() <= 1
    &&& forall|i: int|
        0 <= i < rows.len() && #[trigger] keep(i) && (!is_at_limit(found.len(), limit) || i
            < places.last()) ==> places.contains(i)
}

/// What is kept grows by the next row, where it is to be kept and the limit is not reached.
pub proof fn lemma_first_kept_grows(
    rows: Seq<RowModel>,
    keep: spec_fn(int) -> bool,
    limit: Option<usize>,
    found: Seq<RowModel>,
    places: Seq<int>,
) -> (now: (Seq<RowModel>, Seq<int>))
    requires
        rows.len() > 0,
        are_first_kept(rows.drop_last(), keep, limit, found, places),
    ensures
        are_first_kept(rows, keep, limit, now.0, now.1),
        now.0 == if !is_at_limit(found.len(), limit) && keep(rows.len() - 1) {
            found.push(rows.last())
        } else {
            found
        },
        now.1 == if !is_at_limit(found.len(), limit) && keep(rows.len() - 1) {
            places.push(rows.len() - 1)
        } else {
            places
        },
{
    let head = rows.drop_last();
    let n = rows.len() - 1;
    if !is_at_limit(found.len(), limit) && keep(n) {
        let now = found.push(rows.last());
        let at = places.push(n);
        assert forall|k: int| 0 <= k < at.len() implies 0 <= #[trigger] at[k] < rows.len() && keep(
            at[k],
        ) && now[k] == rows[at[k]] by {
            if k < places.len() {
                assert(at[k] == places[k]);
            }
        }
        assert forall|k: int, m: int| 0 <= k < m < at.len() implies #[trigger] at[k]
            < #[trigger] at[m] by {
            assert(at[k] == places[k]);
            if m < places.len() {
                assert(at[m] == places[m]);
            }
        }
        assert forall|i: int|
            0 <= i < rows.len() && #[trigger] keep(i) && (!is_at_limit(now.len(), limit) || i
                < at.last()) implies at.contains(i) by {
            if i < n {
                assert(places.contains(i));
                let k = choose|k: int| 0 <= k < places.len() && places[k] == i;
                assert(at[k] == i);
            } else {
                assert(at[places.len() as int] == i);
            }
        }
        assert(are_first_kept(rows, keep, limit, now, at));
        (now, at)
    } else {
        assert forall|k: int| 0 <= k < places.len() implies 0 <= #[trigger] places[k] < rows.len()
            && keep(places[k]) && found[k] == rows[places[k]] by {
            assert(head[places[k]] == rows[places[k]]);
        }
        assert forall|i: int|
            0 <= i < rows.len() && #[trigger] keep(i) && (!is_at_limit(found.len(), limit) || i
                < places.last()) implies places.contains(i) by {
            if i == n && is_at_limit(found.len(), limit) {
                assert(places[places.len() - 1] < head.len());
            }
        }
        assert(are_first_kept(rows, keep, limit, found, places));
        (found, places)
    }
}

/// Of no rows none is kept.
pub proof fn lemma_none_kept(keep: spec_fn(int) -> bool, limit: Option<usize>)
    ensures
        are_first_kept(
            Seq::empty(),
            keep,
            limit,
            Seq::empty(),
            Seq::empty(),
        ),
{
}

/// Whether the row at a place is marked.
pub open spec fn marked_at(marks: Seq<bool>) -> spec_fn(int) -> bool {
    |i: int| i < marks.len() && marks[i]
}

proof fn lemma_marked_first(rows: Seq<RowModel>, marks: Seq<bool>, limit: Option<usize>) -> (places:
    Seq<int>)
    ensures
        are_first_kept(
            rows,
            marked_at(marks),
            limit,
            marked_rows(rows, marks, limit),
            places,
        ),
    decreases rows.len(),
{
    let keep = marked_at(marks);
    if rows.len() == 0 {
        lemma_none_kept(keep, limit);
        assert(rows =~= Seq::<RowModel>::empty());
        Seq::empty()
    } else {
        let before = lemma_marked_first(rows.drop_last(), marks, limit);
        let found = marked_rows(rows.drop_last(), marks, limit);
        let now = lemma_first_kept_grows(rows, keep, limit, found, before);
        assert(now.0 == marked_rows(rows, marks, limit));
        now.1
    }
}

/// The rows that are kept by marks are the first that are marked, in their order, as many as the
/// limit allows.
pub proof fn law_marked_rows_are_the_first(
    rows: Seq<RowModel>,
    marks: Seq<bool>,
    limit: Option<usize>,
)
    ensures
        exists|places: Seq<int>| #[trigger]
            are_first_kept(
                rows,
                marked_at(marks),
                limit,
                marked_rows(rows, marks, limit),
                places,
            ),
{
    let places = lemma_marked_first(rows, marks, limit);
    assert(are_first_kept(
        rows,
        marked_at(marks),
        limit,
        marked_rows(rows, marks, limit),
        places,
    ));
}

/// Whether the row at a place passes.
pub open spec fn passes_at(
    rows: Seq<RowModel>,
    pass: spec_fn(RowModel) -> Result<bool, BtreeScanError>,
) -> spec_fn(int) -> bool {
    |i: int| pass(rows[i]) == Ok::<bool, BtreeScanError>(true)
}

proof fn lemma_passes_alike(
    rows: Seq<RowModel>,
    pass: spec_fn(RowModel) -> Result<bool, BtreeScanError>,
    limit: Option<usize>,
    found: Seq<RowModel>,
    places: Seq<int>,
)
    requires
        rows.len() > 0,
        are_first_kept(
            rows.drop_last(),
            passes_at(rows.drop_last(), pass),
            limit,
            found,
            places,
        ),
    ensures
        are_first_kept(rows.drop_last(), passes_at(rows, pass), limit, found, places),
{
    let head = rows.drop_last();
    let a = passes_at(head, pass);
    let b = passes_at(rows, pass);
    assert forall|i: int| 0 <= i < head.len() implies #[trigger] a(i) == b(i) by {
        assert(head[i] == rows[i]);
    }
    assert forall|i: int|
        0 <= i < head.len() && #[trigger] b(i) && (!is_at_limit(found.len(), limit) || i
            < places.last()) implies places.contains(i) by {
        assert(a(i));
    }
    assert forall|k: int| 0 <= k < places.len() implies 0 <= #[trigger] places[k] < head.len() && b(
        places[k],
    ) && found[k] == head[places[k]] by {
        assert(a(places[k]));
    }
}

proof fn lemma_searched_first(
    rows: Seq<RowModel>,
    pass: spec_fn(RowModel) -> Result<bool, BtreeScanError>,
    limit: Option<usize>,
) -> (places: Seq<int>)
    requires
        searched(rows, pass, limit) is Ok,
    ensures
        are_first_kept(
            rows,
            passes_at(rows, pass),
            limit,
            searched(rows, pass, limit)->Ok_0,
            places,
        ),
        forall|i: int|
            0 <= i < rows.len() && (!is_at_limit(
                searched(rows, pass, limit)->Ok_0.len(),
                limit,
            ) || i < places.last()) ==> pass(#[trigger] rows[i]) is Ok,
    decreases rows.len(),
{
    let keep = passes_at(rows, pass);
    if rows.len() == 0 {
        lemma_none_kept(keep, limit);
        assert(rows =~= Seq::<RowModel>::empty());
        Seq::empty()
    } else {
        let head = rows.drop_last();
        let n = rows.len() - 1;
        let before = lemma_searched_first(head, pass, limit);
        let found = searched(head, pass, limit)->Ok_0;
        lemma_passes_alike(rows, pass, limit, found, before);
        let now = lemma_first_kept_grows(rows, keep, limit, found, before);
        assert(keep(n) == (pass(rows[n]) == Ok::<bool, BtreeScanError>(true)));
        assert(now.0 == searched(rows, pass, limit)->Ok_0);
        assert forall|i: int|
            0 <= i < rows.len() && (!is_at_limit(now.0.len(), limit) || i
                < now.1.last()) implies pass(#[trigger] rows[i]) is Ok by {
            if i < n {
                assert(head[i] == rows[i]);
            }
        }
        now.1
    }
}

/// A search over rows gives the first that pass, in their order, as many as the limit allows; it
/// fails only where it meets a row that cannot be judged, with that row's error.
pub proof fn law_searched_rows_are_the_first(
    rows: Seq<RowModel>,
    pass: spec_fn(RowModel) -> Result<bool, BtreeScanError>,
    limit: Option<usize>,
)
    ensures
        match searched(rows, pass, limit) {
            Ok(found) => exists|places: Seq<int>|
                #[trigger] are_first_kept(rows, passes_at(rows, pass), limit, found, places)
                    && forall|i: int|
                    0 <= i < rows.len() && (!is_at_limit(found.len(), limit) || i < places.last())
                        ==> pass(#[trigger] rows[i]) is Ok,
            Err(e) => exists|i: int|
                0 <= i < rows.len() && pass(#[trigger] rows[i]) == Err::<bool, _>(e),
        },
    decreases rows.len(),
{
    match searched(rows, pass, limit) {
        Ok(found) => {
            let places = lemma_searched_first(rows, pass, limit);
            assert(are_first_kept(rows, passes_at(rows, pass), limit, found, places));
        },
        Err(e) => {
            let head = rows.drop_last();
            let n = rows.len() - 1;
            if searched(head, pass, limit) is Err {
                law_searched_rows_are_the_first(head, pass, limit);
                let i = choose|i: int|
                    0 <= i < head.len() && pass(#[trigger] head[i]) == Err::<bool, _>(e);
                assert(rows[i] == head[i]);
            } else {
                assert(pass(rows[n]) == Err::<bool, _>(e));
            }
        },
    }
}

/// Rows that are cut at a limit are the first ones, as many as the limit says or all.
pub proof fn law_limited_rows_are_the_first(rows: Seq<RowModel>, limit: Option<usize>, i: int)
    ensures
        ({
            let cut = limited_rows(rows, limit);
            &&& 0 <= i < cut.len() ==> cut[i] == rows[i]
            &&& limit is None ==> cut == rows
            &&& limit matches Some(n) ==> cut.len() <= n && (cut.len() == n || cut == rows)
            &&& cut.len() <= rows.len()
        }),
{
}

proof fn lemma_all_marked(rows: Seq<RowModel>, marks: Seq<bool>, limit: Option<usize>)
    requires
        marks.len() >= rows.len(),
        forall|i: int| 0 <= i < rows.len() ==> #[trigger] marks[i],
        limit != Some(0usize),
    ensures
        marked_rows(rows, marks, limit) == limited_rows(rows, limit),
    decreases rows.len(),
{
    if rows.len() > 0 {
        let head = rows.drop_last();
        lemma_all_marked(head, marks, limit);
        assert(marks[rows.len() - 1]);
        assert(limited_rows(rows, limit) =~= marked_rows(rows, marks, limit));
    } else {
        assert(limited_rows(rows, limit) =~= marked_rows(rows, marks, limit));
    }
}

proof fn lemma_none_marked(rows: Seq<RowModel>, marks: Seq<bool>, limit: Option<usize>)
    requires
        forall|i: int| 0 <= i < rows.len() && i < marks.len() ==> !#[trigger] marks[i],
    ensures
        marked_rows(rows, marks, limit).len() == 0,
    decreases rows.len(),
{
    if rows.len() > 0 {
        lemma_none_marked(rows.drop_last(), marks, limit);
    }
}

/// One answer for all rows is worth the same answer for each.
pub proof fn law_one_answer_is_worth_many(
    rows: Seq<RowModel>,
    limit: Option<usize>,
    value: bool,
    marks: Seq<bool>,
)
    requires
        marks.len() == rows.len(),
        forall|i: int| 0 <= i < marks.len() ==> #[trigger] marks[i] == value,
        limit != Some(0usize),
    ensures
        answered_rows(rows, limit, Some(FilterValueModel::All(value))) == answered_rows(
            rows,
            limit,
            Some(FilterValueModel::Each(marks)),
        ),
        answered_rows(rows, limit, None) is Err,
{
    if value {
        lemma_all_marked(rows, marks, limit);
    } else {
        lemma_none_marked(rows, marks, limit);
        assert(marked_rows(rows, marks, limit) =~= Seq::<RowModel>::empty());
    }
}

proof fn lemma_lex_by_place(a: Seq<u8>, b: Seq<u8>)
    ensures
        lex_lt(a, b) <==> exists|i: int| #[trigger] lex_lt_at(a, b, i),
{
    if lex_lt(a, b) {
        let i = lemma_lex_witness(a, b);
    }
    if exists|i: int| #[trigger] lex_lt_at(a, b, i) {
        let i = choose|i: int| #[trigger] lex_lt_at(a, b, i);
        lemma_lex_lt_by(a, b, i);
    }
}

/// A lookup asks for the rows with one key; or for those whose key begins with a prefix; or for
/// those whose key comes neither before the start nor behind the end, where there is one.
pub proof fn law_lookup_asks_by_key(key: Seq<u8>, a: Seq<u8>, b: Seq<u8>, limit: Option<usize>)
    ensures
        (QueryModel::Exact { key: a }).asks_for(key) <==> key == a,
        (QueryModel::Prefix { prefix: a, limit }).asks_for(key) <==> a.len() <= key.len() && key.take(
            a.len() as int,
        ) == a,
        (QueryModel::Range { start: a, end: b }).asks_for(key) <==> !(exists|i: int| #[trigger]
            lex_lt_at(key, a, i)) && (b.len() == 0 || !(exists|i: int| #[trigger]
            lex_lt_at(b, key, i))),
{
    lemma_lex_by_place(key, a);
    lemma_lex_by_place(b, key);
    if has_prefix(key, a) {
        assert(key.take(a.len() as int) =~= a);
    }
    if a.len() <= key.len() && key.take(a.len() as int) == a {
        assert forall|i: int| 0 <= i < a.len() implies #[trigger] key[i] == a[i] by {
            assert(key.take(a.len() as int)[i] == key[i]);
        }
    }
}

/// A lookup without a limit gives all rows that it asks for, in their order; one with a limit the
/// first of them, as many as it allows, and one at least.
pub proof fn law_lookup_gives_the_rows_asked_for(query: QueryModel, rows: Seq<RowModel>, row: RowModel)
    ensures
        hits(query, rows).contains(row) <==> rows.contains(row) && query.asks_for(row.0),
        ({
            let all = hits(query, rows);
            let given = query.limited(all);
            &&& forall|i: int| 0 <= i < given.len() ==> #[trigger] given[i] == all[i]
            &&& given.len() <= all.len()
            &&& (query matches QueryModel::Prefix { limit: Some(n), .. } ==> (given.len() <= n
                || given.len() <= 1) && (given.len() < all.len() ==> given.len() >= n
                && given.len() >= 1))
            &&& !(query matches QueryModel::Prefix { limit: Some(n), .. } && true) ==> given == all
        }),
{
    lemma_hits(query, rows, row);
}

proof fn lemma_hits(query: QueryModel, rows: Seq<RowModel>, row: RowModel)
    ensures
        hits(query, rows).contains(row) <==> rows.contains(row) && query.asks_for(row.0),
    decreases rows.len(),
{
    if rows.len() > 0 {
        let head = rows.drop_last();
        let n = rows.len() - 1;
        lemma_hits(query, head, row);
        let before = hits(query, head);
        let now = hits(query, rows);
        if now.contains(row) {
            let k = choose|k: int| 0 <= k < now.len() && now[k] == row;
            if k < before.len() {
                assert(before[k] == row);
                assert(before.contains(row));
                let i = choose|i: int| 0 <= i < head.len() && head[i] == row;
                assert(rows[i] == row);
            } else {
                assert(rows[n] == row);
            }
        }
        if rows.contains(row) && query.asks_for(row.0) {
            let i = choose|i: int| 0 <= i < rows.len() && rows[i] == row;
            if i < n {
                assert(head[i] == row);
                assert(before.contains(row));
                let k = choose|k: int| 0 <= k < before.len() && before[k] == row;
                assert(now[k] == row);
            } else {
                assert(now[before.len() as int] == row);
            }
        }
    }
}

/// The candidates of a scan are read in the order of their first keys; of those with the same first
/// key, in the order of their last keys, then of their files, and then as they stand in the file.
pub proof fn law_candidates_are_read_in_key_order(
    candidates: Seq<CandidateModel>,
    candidate: CandidateModel,
    i: int,
    j: int,
)
    requires
        0 <= i < j < read_order(candidates).len(),
    ensures
        read_order(candidates).len() == candidates.len(),
        read_order(candidates).contains(candidate) <==> candidates.contains(candidate),
        ({
            let a = read_order(candidates)[i];
            let b = read_order(candidates)[j];
            &&& !lex_lt(b.block.0, a.block.0)
            &&& a.block.0 == b.block.0 ==> !lex_lt(b.block.1, a.block.1)
            &&& a.block.0 == b.block.0 && a.block.1 == b.block.1 ==> !text_lt(
                b.location,
                a.location,
            )
            &&& a.block.0 == b.block.0 && a.block.1 == b.block.1 && a.location == b.location
                ==> a.block.2 <= b.block.2
        }),
{
    let sorted = read_order(candidates);
    lemma_stable_sort_exists(candidates);
    lemma_stable_sort_sorted(candidates, sorted);
    lemma_stable_sort_items(candidates, sorted, candidate);
    assert(!sorted[j].ranks_before(sorted[i]));
}

/// A filter is believed where it can be read; one that cannot be read denies no prefix.
pub proof fn law_unread_filter_denies_nothing(probe: Option<bool>)
    ensures
        may_contain(probe) <==> probe != Some(false),
{
}

} // verus!
