//! Keeping the first few of a sequence in sorted order while it is still growing.

use vstd::prelude::*;

use crate::sort::{arranged, goes_first, lemma_goes_first_asymmetric, lemma_goes_first_transitive,
    lemma_positions_cover, lemma_positions_distinct, lemma_stable_sort_exists, stable_positions,
    stable_sort, Ranked};

verus! {

/// The positions are positions of `s`, each listed once.
pub open spec fn are_positions<T>(s: Seq<T>, kept: Seq<int>) -> bool {
    &&& forall|i: int| 0 <= i < kept.len() ==> 0 <= #[trigger] kept[i] < s.len()
    &&& kept.no_duplicates()
}

/// Items that rank alike are listed in the order in which they came.
pub open spec fn ties_in_order<T: Ranked>(s: Seq<T>, kept: Seq<int>) -> bool {
    forall|i: int, j: int|
        0 <= i < j < kept.len() && !s[kept[i]].ranks_before(s[kept[j]])
            && !s[kept[j]].ranks_before(s[kept[i]]) ==> #[trigger] kept[i] < #[trigger] kept[j]
}

/// The positions from `from` to `to` are listed in sorted order.
pub open spec fn listed_in_order<T: Ranked>(s: Seq<T>, kept: Seq<int>, from: int, to: int) -> bool {
    forall|i: int, j: int|
        from <= i < j < to ==> #[trigger] goes_first(s, kept[i], kept[j])
}

/// `kept` lists the positions of the first `n` items in sorted order.
pub open spec fn is_top<T: Ranked>(s: Seq<T>, kept: Seq<int>, n: int) -> bool {
    &&& kept.len() == n
    &&& are_positions(s, kept)
    &&& listed_in_order(s, kept, 0, n)
    &&& forall|x: int, i: int|
        0 <= x < s.len() && !kept.contains(x) && 0 <= i < n ==> #[trigger] goes_first(
            s,
            kept[i],
            x,
        )
}

/// `n` of the kept items, listed one after the other in sorted order, all go before the item at `x`.
pub open spec fn is_beaten<T: Ranked>(s: Seq<T>, kept: Seq<int>, n: int, x: int, from: int) -> bool {
    &&& 0 <= from
    &&& from + n <= kept.len()
    &&& listed_in_order(s, kept, from, from + n)
    &&& forall|i: int| from <= i < from + n ==> goes_first(s, #[trigger] kept[i], x)
}

proof fn lemma_top_agrees<T: Ranked>(s: Seq<T>, kept: Seq<int>, n: int, p: Seq<int>, i: int)
    requires
        is_top(s, kept, n),
        stable_positions(s, p),
        n <= s.len(),
        0 <= i <= n,
    ensures
        forall|j: int| 0 <= j < i ==> #[trigger] kept[j] == p[j],
    decreases i,
{
    if i > 0 {
        let m = i - 1;
        lemma_top_agrees(s, kept, n, p, m);
        lemma_positions_distinct(s, p);
        let l = lemma_positions_cover(s, p, kept[m]);
        if l < m {
            assert(kept[l] == p[l]);
        }
        if l > m {
            assert(goes_first(s, p[m], p[l]));
            if kept.contains(p[m]) {
                let k = choose|k: int| 0 <= k < kept.len() && kept[k] == p[m];
                if k < m {
                    assert(kept[k] == p[k]);
                }
                if k > m {
                    assert(goes_first(s, kept[m], kept[k]));
                    lemma_goes_first_asymmetric(s, p[m], kept[m]);
                }
            } else {
                assert(goes_first(s, kept[m], p[m]));
                lemma_goes_first_asymmetric(s, p[m], kept[m]);
            }
        }
    }
}

/// The items at the top positions are the first of the stable sort.
pub proof fn lemma_top_is_prefix<T: Ranked>(s: Seq<T>, kept: Seq<int>, n: int, rows: Seq<T>)
    requires
        is_top(s, kept, n),
        arranged(s, kept, rows),
        n <= s.len(),
    ensures
        rows == stable_sort(s).take(n),
{
    lemma_stable_sort_exists(s);
    let sorted = stable_sort(s);
    let p = choose|p: Seq<int>| #[trigger] stable_positions(s, p) && arranged(s, p, sorted);
    lemma_top_agrees(s, kept, n, p, n);
    assert forall|i: int| 0 <= i < n implies rows[i] == sorted[i] by {
        assert(kept[i] == p[i]);
    }
    assert(rows =~= sorted.take(n));
}

/// A strictly increasing sequence of natural numbers grows at least as fast as its index.
proof fn lemma_increasing_grows(z: Seq<int>, i: int)
    requires
        0 <= i < z.len(),
        forall|j: int| 0 <= j < z.len() ==> 0 <= #[trigger] z[j],
        forall|j: int, k: int| 0 <= j < k < z.len() ==> #[trigger] z[j] < #[trigger] z[k],
    ensures
        z[i] >= i,
    decreases i,
{
    if i > 0 {
        lemma_increasing_grows(z, i - 1);
    }
}

proof fn lemma_kept_goes_first<T: Ranked>(s: Seq<T>, kept: Seq<int>, rows: Seq<T>, a: int, b: int)
    requires
        are_positions(s, kept),
        ties_in_order(s, kept),
        arranged(s, kept, rows),
        0 <= a < kept.len(),
        0 <= b < kept.len(),
        goes_first(rows, a, b),
    ensures
        goes_first(s, kept[a], kept[b]),
{
    assert(rows[a] == s[kept[a]]);
    assert(rows[b] == s[kept[b]]);
    if !rows[a].ranks_before(rows[b]) {
        assert(kept[a] < kept[b]);
    }
}

proof fn lemma_goes_first_kept<T: Ranked>(s: Seq<T>, kept: Seq<int>, rows: Seq<T>, a: int, b: int)
    requires
        are_positions(s, kept),
        ties_in_order(s, kept),
        arranged(s, kept, rows),
        0 <= a < kept.len(),
        0 <= b < kept.len(),
        goes_first(s, kept[a], kept[b]),
    ensures
        goes_first(rows, a, b),
{
    assert(rows[a] == s[kept[a]]);
    assert(rows[b] == s[kept[b]]);
    if !rows[a].ranks_before(rows[b]) {
        T::rank_asymmetric(rows[a], rows[b]);
        if b < a {
            assert(kept[b] < kept[a]);
        }
        if a == b {
            assert(false);
        }
    }
}

/// Sorting kept items and keeping the first `n` gives the top of the whole sequence, where every item
/// that was not kept is beaten by `n` that were.
pub proof fn lemma_select_top<T: Ranked>(s: Seq<T>, kept: Seq<int>, rows: Seq<T>, n: int) -> (top:
    Seq<int>)
    requires
        1 <= n <= kept.len(),
        are_positions(s, kept),
        ties_in_order(s, kept),
        arranged(s, kept, rows),
        forall|x: int|
            0 <= x < s.len() && !(#[trigger] kept.contains(x)) ==> exists|from: int| #[trigger]
                is_beaten(s, kept, n, x, from),
    ensures
        is_top(s, top, n),
        arranged(s, top, stable_sort(rows).take(n)),
{
    lemma_stable_sort_exists(rows);
    let sorted = stable_sort(rows);
    let q = choose|q: Seq<int>| #[trigger] stable_positions(rows, q) && arranged(rows, q, sorted);
    lemma_positions_distinct(rows, q);
    let top = Seq::new(n as nat, |i: int| kept[q[i]]);
    assert forall|i: int| 0 <= i < n implies 0 <= #[trigger] top[i] < s.len() by {
        assert(0 <= q[i] < rows.len());
    }
    assert(top.no_duplicates()) by {
        assert forall|i: int, j: int|
            0 <= i < top.len() && 0 <= j < top.len() && i != j implies top[i] != top[j] by {
            assert(q[i] != q[j]);
            assert(0 <= q[i] < rows.len() && 0 <= q[j] < rows.len());
        }
    }
    assert forall|i: int, j: int| 0 <= i < j < n implies #[trigger] goes_first(
        s,
        top[i],
        top[j],
    ) by {
        assert(goes_first(rows, q[i], q[j]));
        assert(0 <= q[i] < rows.len() && 0 <= q[j] < rows.len());
        lemma_kept_goes_first(s, kept, rows, q[i], q[j]);
    }
    assert forall|x: int, i: int|
        0 <= x < s.len() && !top.contains(x) && 0 <= i < n implies #[trigger] goes_first(
        s,
        top[i],
        x,
    ) by {
        assert(0 <= q[i] < rows.len());
        if kept.contains(x) {
            let y = choose|y: int| 0 <= y < kept.len() && kept[y] == x;
            let z = lemma_positions_cover(rows, q, y);
            if z < n {
                assert(top[z] == x);
            }
            assert(goes_first(rows, q[i], q[z]));
            lemma_kept_goes_first(s, kept, rows, q[i], y);
        } else {
            let from = choose|from: int| #[trigger] is_beaten(s, kept, n, x, from);
            let z = Seq::new(n as nat, |j: int| sorted_place(rows, q, from + j));
            assert forall|j: int| 0 <= j < n implies 0 <= #[trigger] z[j] < q.len() && q[z[j]]
                == from + j by {
                lemma_sorted_place(rows, q, from + j);
            }
            assert forall|j: int, k: int| 0 <= j < k < n implies #[trigger] z[j]
                < #[trigger] z[k] by {
                assert(goes_first(s, kept[from + j], kept[from + k]));
                lemma_goes_first_kept(s, kept, rows, from + j, from + k);
                if z[k] < z[j] {
                    assert(goes_first(rows, q[z[k]], q[z[j]]));
                    lemma_goes_first_asymmetric(rows, from + j, from + k);
                }
                if z[k] == z[j] {
                    assert(q[z[j]] == q[z[k]]);
                }
            }
            lemma_increasing_grows(z, n - 1);
            let last = from + n - 1;
            assert(goes_first(s, kept[last], x));
            let e = z[n - 1];
            assert(q[e] == last);
            if i < e {
                assert(goes_first(rows, q[i], q[e]));
                lemma_kept_goes_first(s, kept, rows, q[i], last);
                lemma_goes_first_transitive(s, top[i], kept[last], x);
            } else {
                assert(i == e);
            }
        }
    }
    assert(is_top(s, top, n));
    assert forall|i: int| 0 <= i < n implies #[trigger] sorted.take(n)[i] == s[top[i]] by {
        assert(sorted[i] == rows[q[i]]);
        assert(0 <= q[i] < rows.len());
        assert(rows[q[i]] == s[kept[q[i]]]);
    }
    top
}

/// Where a position stands in the sorted order.
spec fn sorted_place<T: Ranked>(rows: Seq<T>, q: Seq<int>, x: int) -> int {
    choose|k: int| 0 <= k < q.len() && #[trigger] q[k] == x
}

proof fn lemma_sorted_place<T: Ranked>(rows: Seq<T>, q: Seq<int>, x: int)
    requires
        stable_positions(rows, q),
        0 <= x < rows.len(),
    ensures
        0 <= sorted_place(rows, q, x) < q.len(),
        q[sorted_place(rows, q, x)] == x,
{
    let k = lemma_positions_cover(rows, q, x);
    assert(0 <= k < q.len() && q[k] == x);
}

} // verus!
