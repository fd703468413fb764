//! Picking the rows of a data block that a scan asks for.

use vstd::prelude::*;

use crate::lex::{bytes_lt, bytes_start_with, has_prefix, lex_lt};
use crate::lex::{lemma_lex_le_transitive, lemma_lex_lt_is_le, lemma_prefix_interval,
    lemma_prefix_is_le};
use crate::sort::{is_sorted, is_stable_sort, lemma_stable_sort_sorted, lemma_stable_sort_unique,
    lemma_stable_sort_view, sort_stably, stable_sort, Ranked};
use crate::types::{rows_view, BtreeIndexRow, RowModel};

verus! {

/// The rows that references point to.
pub open spec fn refs_view(rows: Seq<&BtreeIndexRow>) -> Seq<RowModel> {
    Seq::new(rows.len(), |i: int| rows[i]@)
}

/// The first rows have keys before `bound`, and the others have not.
pub open spec fn parted_at(rows: Seq<RowModel>, bound: Seq<u8>, at: int) -> bool {
    &&& 0 <= at <= rows.len()
    &&& forall|i: int| 0 <= i < at ==> lex_lt((#[trigger] rows[i]).0, bound)
    &&& forall|i: int| at <= i < rows.len() ==> !lex_lt((#[trigger] rows[i]).0, bound)
}

/// Sorted rows are parted by any bound.
pub proof fn lemma_sorted_rows_parted(rows: Seq<RowModel>, bound: Seq<u8>) -> (at: int)
    requires
        is_sorted(rows),
    ensures
        parted_at(rows, bound, at),
    decreases rows.len(),
{
    if rows.len() == 0 {
        0
    } else {
        let head = rows.drop_last();
        assert forall|i: int, j: int| 0 <= i < j < head.len() implies !(
        #[trigger] head[j]).ranks_before(#[trigger] head[i]) by {
            assert(head[i] == rows[i] && head[j] == rows[j]);
        }
        let at = lemma_sorted_rows_parted(head, bound);
        let last = rows.len() - 1;
        if lex_lt(rows[last].0, bound) {
            assert forall|i: int| 0 <= i < rows.len() implies lex_lt(
                (#[trigger] rows[i]).0,
                bound,
            ) by {
                if i < last {
                    assert(!rows[last].ranks_before(rows[i]));
                    lemma_lex_lt_is_le(rows[last].0, bound);
                    lemma_lex_le_transitive(rows[i].0, rows[last].0, bound);
                }
            }
            rows.len() as int
        } else {
            assert forall|i: int| 0 <= i < at implies lex_lt((#[trigger] rows[i]).0, bound) by {
                assert(rows[i] == head[i]);
            }
            assert forall|i: int| at <= i < rows.len() implies !lex_lt(
                (#[trigger] rows[i]).0,
                bound,
            ) by {
                if i < last {
                    assert(rows[i] == head[i]);
                }
            }
            at
        }
    }
}

/// Where rows that are parted by `bound` are parted, by bisection.
fn partition_rows(rows: &[BtreeIndexRow], bound: &[u8]) -> (r: usize)
    ensures
        r <= rows@.len(),
        forall|at: int| #[trigger] parted_at(rows_view(rows@), bound@, at) ==> r == at,
{
    let ghost models = rows_view(rows@);
    let mut low: usize = 0;
    let mut high: usize = rows.len();
    while low < high
        invariant
            low <= high <= rows@.len(),
            models == rows_view(rows@),
            forall|at: int| #[trigger] parted_at(models, bound@, at) ==> low <= at <= high,
        decreases high - low,
    {
        let middle: usize = low + (high - low) / 2;
        assert(models[middle as int] == rows@[middle as int]@);
        if bytes_lt(rows[middle].encoded_key.as_slice(), bound) {
            low = middle + 1;
        } else {
            high = middle;
        }
    }
    low
}

/// Where references to rows that are parted by `bound` are parted, by bisection.
fn partition_refs(rows: &Vec<&BtreeIndexRow>, bound: &[u8]) -> (r: usize)
    ensures
        r <= rows@.len(),
        forall|at: int| #[trigger] parted_at(refs_view(rows@), bound@, at) ==> r == at,
{
    let ghost models = refs_view(rows@);
    let mut low: usize = 0;
    let mut high: usize = rows.len();
    while low < high
        invariant
            low <= high <= rows@.len(),
            models == refs_view(rows@),
            forall|at: int| #[trigger] parted_at(models, bound@, at) ==> low <= at <= high,
        decreases high - low,
    {
        let middle: usize = low + (high - low) / 2;
        let row: &BtreeIndexRow = rows[middle];
        assert(models[middle as int] == row@);
        if bytes_lt(row.encoded_key.as_slice(), bound) {
            low = middle + 1;
        } else {
            high = middle;
        }
    }
    low
}

/// The rows whose keys begin with `prefix`, in their order.
pub open spec fn with_prefix(rows: Seq<RowModel>, prefix: Seq<u8>) -> Seq<RowModel>
    decreases rows.len(),
{
    if rows.len() == 0 {
        Seq::empty()
    } else {
        let rest = with_prefix(rows.drop_last(), prefix);
        if has_prefix(rows.last().0, prefix) {
            rest.push(rows.last())
        } else {
            rest
        }
    }
}

/// The rows from `start` on whose keys begin with `prefix`, up to the first that does not.
pub open spec fn prefix_run(rows: Seq<RowModel>, prefix: Seq<u8>, start: int, end: int) -> bool {
    &&& 0 <= start <= end <= rows.len()
    &&& forall|i: int| start <= i < end ==> has_prefix((#[trigger] rows[i]).0, prefix)
    &&& end < rows.len() ==> !has_prefix(rows[end].0, prefix)
}

proof fn lemma_with_prefix_slice(rows: Seq<RowModel>, prefix: Seq<u8>, start: int, end: int, n: int)
    requires
        0 <= start <= end <= rows.len(),
        0 <= n <= rows.len(),
        forall|i: int|
            0 <= i < rows.len() ==> (has_prefix((#[trigger] rows[i]).0, prefix) <==> start <= i
                < end),
    ensures
        with_prefix(rows.take(n), prefix) == (if n <= start {
            Seq::empty()
        } else if n <= end {
            rows.subrange(start, n)
        } else {
            rows.subrange(start, end)
        }),
    decreases n,
{
    if n > 0 {
        lemma_with_prefix_slice(rows, prefix, start, end, n - 1);
        assert(rows.take(n).drop_last() =~= rows.take(n - 1));
        assert(rows.take(n).last() == rows[n - 1]);
        if start < n <= end {
            if n - 1 == start {
                assert(rows.subrange(start, n) =~= Seq::<RowModel>::empty().push(rows[n - 1]));
            } else {
                assert(rows.subrange(start, n) =~= rows.subrange(start, n - 1).push(rows[n - 1]));
            }
        } else if n > end && n - 1 == start {
            assert(rows.subrange(start, end) =~= Seq::<RowModel>::empty());
        }
    }
}

/// In sorted rows, the run that starts where the rows are parted by `prefix` is all rows whose keys
/// begin with it.
proof fn lemma_prefix_run_is_all(rows: Seq<RowModel>, prefix: Seq<u8>, start: int, end: int)
    requires
        is_sorted(rows),
        parted_at(rows, prefix, start),
        prefix_run(rows, prefix, start, end),
    ensures
        rows.subrange(start, end) == with_prefix(rows, prefix),
{
    assert forall|i: int| 0 <= i < rows.len() implies (has_prefix((#[trigger] rows[i]).0, prefix)
        <==> start <= i < end) by {
        if i < start {
            if has_prefix(rows[i].0, prefix) {
                lemma_prefix_is_le(rows[i].0, prefix);
            }
        }
        if i >= end && has_prefix(rows[i].0, prefix) {
            assert(!lex_lt(rows[end].0, prefix));
            if i > end {
                assert(!rows[i].ranks_before(rows[end]));
                lemma_prefix_interval(rows[end].0, rows[i].0, prefix);
            }
        }
    }
    lemma_with_prefix_slice(rows, prefix, start, end, rows.len() as int);
    assert(rows.take(rows.len() as int) =~= rows);
    if rows.len() <= start {
        assert(rows.subrange(start, end) =~= Seq::<RowModel>::empty());
    }
}

/// The rows whose keys begin with `prefix`. The rows of a data block are in key order; of others, a
/// run of rows whose keys begin with `prefix` comes back.
pub fn btree_prefix_row_refs<'a>(rows: &'a [BtreeIndexRow], prefix: &[u8]) -> (r: Vec<
    &'a BtreeIndexRow,
>)
    ensures
        is_sorted(rows_view(rows@)) ==> refs_view(r@) == with_prefix(rows_view(rows@), prefix@),
        prefix@.len() == 0 ==> refs_view(r@) == rows_view(rows@),
        exists|start: int, end: int| #[trigger]
            prefix_run(rows_view(rows@), prefix@, start, end) && refs_view(r@) == rows_view(
                rows@,
            ).subrange(start, end) && (prefix@.len() == 0 ==> start == 0),
{
    let ghost models = rows_view(rows@);
    let start: usize = if prefix.len() == 0 {
        0
    } else {
        partition_rows(rows, prefix)
    };
    let mut r: Vec<&'a BtreeIndexRow> = Vec::new();
    let mut end: usize = start;
    assert(refs_view(r@) =~= models.subrange(start as int, start as int));
    while end < rows.len() && bytes_start_with(rows[end].encoded_key.as_slice(), prefix)
        invariant
            start <= end <= rows@.len(),
            models == rows_view(rows@),
            refs_view(r@) == models.subrange(start as int, end as int),
            forall|i: int| start <= i < end ==> has_prefix((#[trigger] models[i]).0, prefix@),
        decreases rows@.len() - end,
    {
        let ghost before = r@;
        r.push(&rows[end]);
        assert(refs_view(r@) =~= refs_view(before).push(models[end as int]));
        assert(models.subrange(start as int, end + 1) =~= models.subrange(
            start as int,
            end as int,
        ).push(models[end as int]));
        end = end + 1;
    }
    proof {
        if end < rows@.len() {
            assert(models[end as int] == rows@[end as int]@);
        }
        assert(prefix_run(models, prefix@, start as int, end as int));
        if prefix@.len() == 0 {
            if end < rows@.len() {
                assert(has_prefix(models[end as int].0, prefix@));
            }
            assert(models.subrange(0, models.len() as int) =~= models);
        }
        if is_sorted(models) {
            let at = lemma_sorted_rows_parted(models, prefix@);
            if prefix@.len() == 0 {
                assert forall|i: int| 0 <= i < models.len() implies !lex_lt(
                    (#[trigger] models[i]).0,
                    prefix@,
                ) by {}
                assert(parted_at(models, prefix@, 0));
            }
            lemma_prefix_run_is_all(models, prefix@, start as int, end as int);
        }
    }
    r
}

/// Drops the rows from the first one on whose key is not before the bound.
pub fn truncate_row_refs_before_key(
    rows: &mut Vec<&BtreeIndexRow>,
    upper_bound_key: Option<&[u8]>,
)
    ensures
        upper_bound_key is None ==> final(rows)@ == old(rows)@,
        upper_bound_key matches Some(bound) ==> {
            &&& exists|n: int|
                0 <= n <= old(rows)@.len() && final(rows)@ == #[trigger] old(rows)@.take(n)
            &&& forall|at: int| #[trigger]
                parted_at(refs_view(old(rows)@), bound@, at) ==> final(rows)@ == old(rows)@.take(at)
        },
{
    match upper_bound_key {
        None => {},
        Some(bound) => {
            let end: usize = partition_refs(rows, bound);
            rows.truncate(end);
            assert(rows@ =~= old(rows)@.take(end as int));
        },
    }
}

/// The first rows, as many as the limit allows.
pub open spec fn limited_rows(rows: Seq<RowModel>, limit: Option<usize>) -> Seq<RowModel> {
    match limit {
        Some(n) => if rows.len() > n {
            rows.take(n as int)
        } else {
            rows
        },
        None => rows,
    }
}

/// Copies of the first rows, as many as the limit allows.
pub fn clone_row_refs(rows: &Vec<&BtreeIndexRow>, limit: Option<usize>) -> (r: Vec<BtreeIndexRow>)
    ensures
        rows_view(r@) == limited_rows(refs_view(rows@), limit),
{
    let n: usize = match limit {
        Some(limit) => if limit < rows.len() {
            limit
        } else {
            rows.len()
        },
        None => rows.len(),
    };
    let mut r: Vec<BtreeIndexRow> = Vec::new();
    let mut i: usize = 0;
    while i < n
        invariant
            i <= n <= rows@.len(),
            r@.len() == i,
            forall|k: int| 0 <= k < i ==> (#[trigger] r@[k])@ == rows@[k]@,
        decreases n - i,
    {
        r.push((*rows[i]).clone());
        i = i + 1;
    }
    assert(rows_view(r@) =~= limited_rows(refs_view(rows@), limit));
    r
}

/// So many rows end the search: a limit is checked after a row is found, so a limit of zero ends it
/// at the first row.
pub open spec fn search_ends(found: nat, limit: Option<usize>) -> bool {
    found > 0 && (limit matches Some(n) && found >= n)
}

/// The rows that are marked, in their order, until the limit ends the search.
pub open spec fn marked_rows(rows: Seq<RowModel>, marks: Seq<bool>, limit: Option<usize>) -> Seq<
    RowModel,
>
    decreases rows.len(),
{
    if rows.len() == 0 {
        Seq::empty()
    } else {
        let found = marked_rows(rows.drop_last(), marks, limit);
        let i = rows.len() - 1;
        if !search_ends(found.len(), limit) && i < marks.len() && marks[i] {
            found.push(rows.last())
        } else {
            found
        }
    }
}

proof fn lemma_marked_rows_done(
    rows: Seq<RowModel>,
    marks: Seq<bool>,
    limit: Option<usize>,
    i: int,
)
    requires
        0 <= i <= rows.len(),
        search_ends(marked_rows(rows.take(i), marks, limit).len(), limit),
    ensures
        marked_rows(rows, marks, limit) == marked_rows(rows.take(i), marks, limit),
    decreases rows.len() - i,
{
    if i < rows.len() {
        assert(rows.take(i + 1).drop_last() =~= rows.take(i));
        lemma_marked_rows_done(rows, marks, limit, i + 1);
    } else {
        assert(rows.take(i) =~= rows);
    }
}

/// Copies of the rows that are marked, until the limit ends the search.
pub fn clone_marked_row_refs(
    rows: &Vec<&BtreeIndexRow>,
    marks: &Vec<bool>,
    limit: Option<usize>,
) -> (r: Vec<BtreeIndexRow>)
    ensures
        rows_view(r@) == marked_rows(refs_view(rows@), marks@, limit),
{
    let ghost models = refs_view(rows@);
    let mut r: Vec<BtreeIndexRow> = Vec::new();
    let mut i: usize = 0;
    assert(models.take(0) =~= Seq::<RowModel>::empty());
    assert(rows_view(r@) =~= Seq::<RowModel>::empty());
    while i < rows.len()
        invariant
            i <= rows@.len(),
            models == refs_view(rows@),
            rows_view(r@) == marked_rows(models.take(i as int), marks@, limit),
            !search_ends(r@.len(), limit),
        decreases rows@.len() - i,
    {
        let ghost before = r@;
        proof {
            let t = models.take(i + 1);
            assert(t.drop_last() =~= models.take(i as int));
            assert(t.last() == rows@[i as int]@);
            assert(rows_view(r@).len() == r@.len());
        }
        if i < marks.len() && marks[i] {
            r.push((*rows[i]).clone());
            assert(rows_view(r@) =~= rows_view(before).push(rows@[i as int]@));
            assert(rows_view(r@).len() == r@.len());
            if let Some(n) = limit {
                if r.len() >= n {
                    proof {
                        lemma_marked_rows_done(models, marks@, limit, i + 1);
                    }
                    return r;
                }
            }
        }
        i = i + 1;
    }
    assert(models.take(models.len() as int) =~= models);
    r
}

/// Sorts the rows by their keys and keeps the first.
pub fn sort_and_truncate_rows(rows: Vec<BtreeIndexRow>, limit: usize) -> (r: Vec<BtreeIndexRow>)
    ensures
        rows_view(r@) == limited_rows(stable_sort(rows_view(rows@)), Some(limit)),
{
    let mut sorted = sort_stably(rows);
    proof {
        lemma_sorted_models(rows@, sorted@);
    }
    let ghost all = sorted@;
    sorted.truncate(limit);
    assert(rows_view(sorted@) =~= limited_rows(rows_view(all), Some(limit)));
    sorted
}

/// The rows sorted by their keys.
pub fn sort_rows(rows: Vec<BtreeIndexRow>) -> (r: Vec<BtreeIndexRow>)
    ensures
        rows_view(r@) == stable_sort(rows_view(rows@)),
{
    let sorted = sort_stably(rows);
    proof {
        lemma_sorted_models(rows@, sorted@);
    }
    sorted
}

proof fn lemma_sorted_models(rows: Seq<BtreeIndexRow>, sorted: Seq<BtreeIndexRow>)
    requires
        is_stable_sort(rows, sorted),
    ensures
        rows_view(sorted) == stable_sort(rows_view(rows)),
{
    lemma_stable_sort_sorted(rows, sorted);
    lemma_stable_sort_view(
        rows,
        sorted,
        rows_view(rows),
        rows_view(sorted),
        |row: BtreeIndexRow| row@,
    );
    lemma_stable_sort_unique(rows_view(rows), rows_view(sorted));
}

} // verus!
