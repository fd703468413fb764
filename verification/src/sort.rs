//! A stable sort over any type with a weak order.

use vstd::prelude::*;

verus! {

/// A type whose values are ranked by a strict weak order.
pub trait Ranked: Sized {
    /// `self` stands strictly before `other`.
    spec fn ranks_before(self, other: Self) -> bool;

    /// Nothing stands before itself, and two values never stand before each other.
    proof fn rank_asymmetric(a: Self, b: Self)
        ensures
            !(a.ranks_before(b) && b.ranks_before(a)),
    ;

    /// What does not stand after a value that does not stand after a third, does not stand after
    /// the third either.
    proof fn rank_negatively_transitive(a: Self, b: Self, c: Self)
        requires
            !b.ranks_before(a),
            !c.ranks_before(b),
        ensures
            !c.ranks_before(a),
    ;
}

/// A ranked type whose values can be compared.
pub trait Sortable: Ranked {
    /// Whether `self` stands strictly before `other`.
    fn is_before(&self, other: &Self) -> (r: bool)
        ensures
            r == self.ranks_before(*other),
    ;
}

impl Ranked for usize {
    open spec fn ranks_before(self, other: Self) -> bool {
        self < other
    }

    proof fn rank_asymmetric(a: Self, b: Self) {
    }

    proof fn rank_negatively_transitive(a: Self, b: Self, c: Self) {
    }
}

impl Sortable for usize {
    fn is_before(&self, other: &Self) -> (r: bool) {
        *self < *other
    }
}

/// The item at `a` goes before the item at `b`: it ranks before it, or neither does and it came
/// first.
pub open spec fn goes_first<T: Ranked>(s: Seq<T>, a: int, b: int) -> bool {
    ||| s[a].ranks_before(s[b])
    ||| (!s[b].ranks_before(s[a]) && a < b)
}

/// `p` lists the positions of `s` in stable sorted order.
pub open spec fn stable_positions<T: Ranked>(s: Seq<T>, p: Seq<int>) -> bool {
    &&& p.len() == s.len()
    &&& forall|i: int| 0 <= i < p.len() ==> 0 <= #[trigger] p[i] < s.len()
    &&& forall|i: int, j: int|
        0 <= i < j < p.len() ==> #[trigger] goes_first(s, p[i], p[j])
}

/// `r` holds the items of `s` in the order `p`.
pub open spec fn arranged<T>(s: Seq<T>, p: Seq<int>, r: Seq<T>) -> bool {
    &&& r.len() == p.len()
    &&& forall|i: int| 0 <= i < r.len() ==> #[trigger] r[i] == s[p[i]]
}

/// `r` is `s`, sorted, with items that rank alike left in the order in which they came.
pub open spec fn is_stable_sort<T: Ranked>(s: Seq<T>, r: Seq<T>) -> bool {
    exists|p: Seq<int>| #[trigger] stable_positions(s, p) && arranged(s, p, r)
}

/// No item of `s` ranks before one that stands earlier.
pub open spec fn is_sorted<T: Ranked>(s: Seq<T>) -> bool {
    forall|i: int, j: int|
        0 <= i < j < s.len() ==> !(#[trigger] s[j]).ranks_before(#[trigger] s[i])
}

/// The one sequence that is the stable sort of `s`.
pub open spec fn stable_sort<T: Ranked>(s: Seq<T>) -> Seq<T> {
    choose|r: Seq<T>| is_stable_sort(s, r)
}

/// Of two positions, not each goes before the other.
pub proof fn lemma_goes_first_asymmetric<T: Ranked>(s: Seq<T>, a: int, b: int)
    ensures
        !(goes_first(s, a, b) && goes_first(s, b, a)),
{
    T::rank_asymmetric(s[a], s[b]);
}

/// A position goes before those that a later one goes before.
pub proof fn lemma_goes_first_transitive<T: Ranked>(s: Seq<T>, a: int, b: int, c: int)
    requires
        goes_first(s, a, b),
        goes_first(s, b, c),
    ensures
        goes_first(s, a, c),
{
    T::rank_asymmetric(s[a], s[b]);
    T::rank_asymmetric(s[b], s[c]);
    T::rank_negatively_transitive(s[a], s[b], s[c]);
    if !s[a].ranks_before(s[c]) {
        if s[a].ranks_before(s[b]) {
            T::rank_negatively_transitive(s[b], s[c], s[a]);
        } else if s[b].ranks_before(s[c]) {
            T::rank_negatively_transitive(s[c], s[a], s[b]);
        }
    }
}

/// Positions in sorted order name each row once.
pub proof fn lemma_positions_distinct<T: Ranked>(s: Seq<T>, p: Seq<int>)
    requires
        stable_positions(s, p),
    ensures
        p.no_duplicates(),
{
    assert forall|i: int, j: int| 0 <= i < p.len() && 0 <= j < p.len() && i != j implies p[i]
        != p[j] by {
        if i < j {
            assert(goes_first(s, p[i], p[j]));
            lemma_goes_first_asymmetric(s, p[i], p[j]);
        } else {
            assert(goes_first(s, p[j], p[i]));
            lemma_goes_first_asymmetric(s, p[j], p[i]);
        }
    }
}

/// Every position of `s` occurs in its stable order.
pub proof fn lemma_positions_cover<T: Ranked>(s: Seq<T>, p: Seq<int>, x: int) -> (k: int)
    requires
        stable_positions(s, p),
        0 <= x < s.len(),
    ensures
        0 <= k < p.len(),
        p[k] == x,
{
    lemma_positions_distinct(s, p);
    let n = s.len() as int;
    let all = vstd::set_lib::set_int_range(0, n);
    vstd::set_lib::lemma_int_range(0, n);
    p.unique_seq_to_set();
    let have = p.to_set();
    assert(have.subset_of(all)) by {
        assert forall|y: int| have.contains(y) implies all.contains(y) by {
            assert(p.contains(y));
        }
    }
    vstd::set_lib::lemma_subset_equality(have, all);
    assert(have.contains(x));
    assert(p.contains(x));
    choose|k: int| 0 <= k < p.len() && p[k] == x
}

proof fn lemma_positions_agree<T: Ranked>(s: Seq<T>, p: Seq<int>, q: Seq<int>, i: int)
    requires
        stable_positions(s, p),
        stable_positions(s, q),
        0 <= i <= p.len(),
    ensures
        forall|j: int| 0 <= j < i ==> #[trigger] p[j] == q[j],
    decreases i,
{
    if i > 0 {
        let m = i - 1;
        lemma_positions_agree(s, p, q, m);
        lemma_positions_distinct(s, p);
        lemma_positions_distinct(s, q);
        let k = lemma_positions_cover(s, q, p[m]);
        let l = lemma_positions_cover(s, p, q[m]);
        if k < m {
            assert(p[k] == q[k]);
        }
        if l < m {
            assert(p[l] == q[l]);
        }
        if k > m && l > m {
            assert(goes_first(s, q[m], q[k]));
            assert(goes_first(s, p[m], p[l]));
            lemma_goes_first_asymmetric(s, p[m], q[m]);
        }
    }
}

/// A sequence has one stable sort.
pub proof fn lemma_stable_sort_unique<T: Ranked>(s: Seq<T>, r: Seq<T>)
    requires
        is_stable_sort(s, r),
    ensures
        r == stable_sort(s),
{
    let t = stable_sort(s);
    let p = choose|p: Seq<int>| #[trigger] stable_positions(s, p) && arranged(s, p, r);
    let q = choose|q: Seq<int>| #[trigger] stable_positions(s, q) && arranged(s, q, t);
    lemma_positions_agree(s, p, q, p.len() as int);
    assert forall|i: int| 0 <= i < r.len() implies r[i] == t[i] by {
        assert(p[i] == q[i]);
    }
    assert(r =~= t);
}

/// A stable sort is sorted.
pub proof fn lemma_stable_sort_sorted<T: Ranked>(s: Seq<T>, r: Seq<T>)
    requires
        is_stable_sort(s, r),
    ensures
        is_sorted(r),
        r.len() == s.len(),
{
    let p = choose|p: Seq<int>| #[trigger] stable_positions(s, p) && arranged(s, p, r);
    assert forall|i: int, j: int| 0 <= i < j < r.len() implies !(
    #[trigger] r[j]).ranks_before(#[trigger] r[i]) by {
        assert(goes_first(s, p[i], p[j]));
        lemma_goes_first_asymmetric(s, p[i], p[j]);
    }
}

/// A stable sort holds the items of what was sorted, and no others.
pub proof fn lemma_stable_sort_items<T: Ranked>(s: Seq<T>, r: Seq<T>, x: T)
    requires
        is_stable_sort(s, r),
    ensures
        r.contains(x) == s.contains(x),
{
    let p = choose|p: Seq<int>| #[trigger] stable_positions(s, p) && arranged(s, p, r);
    if s.contains(x) {
        let i = choose|i: int| 0 <= i < s.len() && s[i] == x;
        let k = lemma_positions_cover(s, p, i);
        assert(r[k] == x);
    }
    if r.contains(x) {
        let k = choose|k: int| 0 <= k < r.len() && r[k] == x;
        assert(s[p[k]] == x);
    }
}

/// What is sorted already is its own stable sort.
pub proof fn lemma_sorted_is_stable_sort<T: Ranked>(s: Seq<T>)
    requires
        is_sorted(s),
    ensures
        is_stable_sort(s, s),
        stable_sort(s) == s,
{
    let p = Seq::new(s.len(), |i: int| i);
    assert forall|i: int, j: int| 0 <= i < j < p.len() implies #[trigger] goes_first(
        s,
        p[i],
        p[j],
    ) by {
        assert(p[i] == i && p[j] == j);
        assert(!s[j].ranks_before(s[i]));
    }
    assert(stable_positions(s, p));
    assert(arranged(s, p, s));
    lemma_stable_sort_unique(s, s);
}

/// How many of the first `n` sorted positions do not go after the last item of `s`.
spec fn rank_of_last<T: Ranked>(s: Seq<T>, p: Seq<int>, n: int) -> int
    decreases n,
{
    if n <= 0 {
        0
    } else if s.last().ranks_before(s[p[n - 1]]) {
        rank_of_last(s, p, n - 1)
    } else {
        n
    }
}

proof fn lemma_rank_of_last<T: Ranked>(s: Seq<T>, p: Seq<int>, n: int)
    requires
        s.len() > 0,
        0 <= n <= p.len(),
        stable_positions(s.drop_last(), p),
    ensures
        0 <= rank_of_last(s, p, n) <= n,
        forall|i: int| 0 <= i < rank_of_last(s, p, n) ==> goes_first(s, #[trigger] p[i], s.len() - 1),
        forall|i: int| rank_of_last(s, p, n) <= i < n ==> goes_first(s, s.len() - 1, #[trigger] p[i]),
    decreases n,
{
    let t = s.drop_last();
    let last = s.len() - 1;
    if n > 0 {
        if s.last().ranks_before(s[p[n - 1]]) {
            lemma_rank_of_last(s, p, n - 1);
        } else {
            assert forall|i: int| 0 <= i < n implies goes_first(s, #[trigger] p[i], last) by {
                if i < n - 1 {
                    assert(goes_first(t, p[i], p[n - 1]));
                    lemma_goes_first_transitive(s, p[i], p[n - 1], last);
                }
            }
        }
    }
}

/// Every sequence has a stable sort.
pub proof fn lemma_stable_sort_exists<T: Ranked>(s: Seq<T>)
    ensures
        is_stable_sort(s, stable_sort(s)),
    decreases s.len(),
{
    if s.len() == 0 {
        lemma_sorted_is_stable_sort(s);
    } else {
        let t = s.drop_last();
        let last = s.len() - 1;
        lemma_stable_sort_exists(t);
        let p = choose|p: Seq<int>|
            #[trigger] stable_positions(t, p) && arranged(t, p, stable_sort(t));
        let k = rank_of_last(s, p, p.len() as int);
        lemma_rank_of_last(s, p, p.len() as int);
        let q = p.insert(k, last);
        assert forall|i: int, j: int| 0 <= i < j < q.len() implies #[trigger] goes_first(
            s,
            q[i],
            q[j],
        ) by {
            let a = if i < k { i } else { i - 1 };
            let b = if j < k { j } else { j - 1 };
            if i != k {
                assert(q[i] == p[a]);
            }
            if j != k {
                assert(q[j] == p[b]);
            }
            if i != k && j != k {
                assert(goes_first(t, p[a], p[b]));
            }
        }
        assert forall|i: int| 0 <= i < q.len() implies 0 <= #[trigger] q[i] < s.len() by {
            if i < k {
                assert(q[i] == p[i]);
            } else if i > k {
                assert(q[i] == p[i - 1]);
            }
        }
        assert(stable_positions(s, q));
        let r = Seq::new(s.len(), |i: int| s[q[i]]);
        assert(arranged(s, q, r));
        assert(is_stable_sort(s, r));
    }
}

/// Sorting commutes with a view that keeps the ranks.
pub proof fn lemma_stable_sort_view<T: Ranked, U: Ranked>(
    s: Seq<T>,
    r: Seq<T>,
    vs: Seq<U>,
    vr: Seq<U>,
    view: spec_fn(T) -> U,
)
    requires
        is_stable_sort(s, r),
        forall|a: T, b: T|
            (#[trigger] view(a)).ranks_before(#[trigger] view(b)) == a.ranks_before(b),
        vs.len() == s.len(),
        vr.len() == r.len(),
        forall|i: int| 0 <= i < s.len() ==> #[trigger] vs[i] == view(s[i]),
        forall|i: int| 0 <= i < r.len() ==> #[trigger] vr[i] == view(r[i]),
    ensures
        is_stable_sort(vs, vr),
{
    let p = choose|p: Seq<int>| #[trigger] stable_positions(s, p) && arranged(s, p, r);
    assert forall|i: int, j: int| 0 <= i < j < p.len() implies #[trigger] goes_first(
        vs,
        p[i],
        p[j],
    ) by {
        assert(goes_first(s, p[i], p[j]));
        assert(vs[p[i]] == view(s[p[i]]));
        assert(vs[p[j]] == view(s[p[j]]));
    }
    assert(stable_positions(vs, p));
    assert forall|i: int| 0 <= i < vr.len() implies #[trigger] vr[i] == vs[p[i]] by {
        assert(r[i] == s[p[i]]);
        assert(0 <= p[i] < s.len());
    }
    assert(arranged(vs, p, vr));
}

/// The positions of `s` that a half `[lo, lo + h.len())` was sorted to, in terms of `s`.
spec fn half_positions<T: Ranked>(s: Seq<T>, lo: int, n: int, p: Seq<int>, h: Seq<T>) -> bool {
    &&& p.len() == n
    &&& h.len() == n
    &&& forall|i: int| 0 <= i < n ==> lo <= #[trigger] p[i] < lo + n
    &&& forall|i: int| 0 <= i < n ==> #[trigger] h[i] == s[p[i]]
    &&& forall|i: int, j: int| 0 <= i < j < n ==> #[trigger] goes_first(s, p[i], p[j])
}

proof fn lemma_half_positions<T: Ranked>(s: Seq<T>, lo: int, t: Seq<T>, h: Seq<T>) -> (p: Seq<int>)
    requires
        0 <= lo,
        lo + t.len() <= s.len(),
        t == s.subrange(lo, lo + t.len()),
        is_stable_sort(t, h),
    ensures
        half_positions(s, lo, t.len() as int, p, h),
{
    let q = choose|q: Seq<int>| #[trigger] stable_positions(t, q) && arranged(t, q, h);
    let p = Seq::new(t.len(), |i: int| q[i] + lo);
    assert forall|i: int| 0 <= i < t.len() implies #[trigger] h[i] == s[p[i]] by {
        assert(0 <= q[i] < t.len());
        assert(t[q[i]] == s[q[i] + lo]);
    }
    assert forall|i: int| 0 <= i < t.len() implies lo <= #[trigger] p[i] < lo + t.len() by {
        assert(0 <= q[i] < t.len());
    }
    assert forall|i: int, j: int| 0 <= i < j < t.len() implies #[trigger] goes_first(
        s,
        p[i],
        p[j],
    ) by {
        assert(goes_first(t, q[i], q[j]));
        assert(t[q[i]] == s[p[i]]);
        assert(t[q[j]] == s[p[j]]);
    }
    p
}

/// Merges two sorted halves; of items that rank alike those of the left half come first.
#[verifier::loop_isolation(false)]
fn merge<T: Sortable>(left: Vec<T>, right: Vec<T>, Ghost(s): Ghost<Seq<T>>) -> (r: Vec<T>)
    requires
        left@.len() + right@.len() == s.len(),
        is_stable_sort(s.subrange(0, left@.len() as int), left@),
        is_stable_sort(s.subrange(left@.len() as int, s.len() as int), right@),
    ensures
        is_stable_sort(s, r@),
{
    let ghost m = left@.len() as int;
    let ghost n = right@.len() as int;
    let ghost pl = lemma_half_positions(s, 0, s.subrange(0, m), left@);
    let ghost pr = lemma_half_positions(s, m, s.subrange(m, s.len() as int), right@);
    let ghost full_left = left@;
    let ghost full_right = right@;
    let mut lq: std::collections::VecDeque<T> = std::collections::VecDeque::new();
    let mut rq: std::collections::VecDeque<T> = std::collections::VecDeque::new();
    let mut left = left;
    let mut right = right;
    while left.len() > 0
        invariant
            left@.len() + lq@.len() == m,
            left@ =~= full_left.subrange(0, left@.len() as int),
            lq@ =~= full_left.subrange(left@.len() as int, m),
        decreases left@.len(),
    {
        let x = left.pop().unwrap();
        lq.push_front(x);
    }
    while right.len() > 0
        invariant
            right@.len() + rq@.len() == n,
            right@ =~= full_right.subrange(0, right@.len() as int),
            rq@ =~= full_right.subrange(right@.len() as int, n),
        decreases right@.len(),
    {
        let x = right.pop().unwrap();
        rq.push_front(x);
    }
    let mut out: Vec<T> = Vec::new();
    let ghost mut p: Seq<int> = Seq::empty();
    let ghost mut i: int = 0;
    let ghost mut j: int = 0;
    while lq.len() > 0 || rq.len() > 0
        invariant
            0 <= i <= m,
            0 <= j <= n,
            lq@ =~= full_left.subrange(i, m),
            rq@ =~= full_right.subrange(j, n),
            p.len() == i + j,
            arranged(s, p, out@),
            forall|a: int| 0 <= a < p.len() ==> 0 <= #[trigger] p[a] < s.len(),
            forall|a: int, b: int|
                0 <= a < b < p.len() ==> #[trigger] goes_first(s, p[a], p[b]),
            forall|a: int, b: int|
                0 <= a < p.len() && i <= b < m ==> #[trigger] goes_first(s, p[a], pl[b]),
            forall|a: int, b: int|
                0 <= a < p.len() && j <= b < n ==> #[trigger] goes_first(s, p[a], pr[b]),
        decreases lq@.len() + rq@.len(),
    {
        let take_left: bool = if lq.len() == 0 {
            false
        } else if rq.len() == 0 {
            true
        } else {
            !rq[0].is_before(&lq[0])
        };
        let ghost before = p;
        if take_left {
            let x = lq.pop_front().unwrap();
            out.push(x);
            proof {
                assert(x == full_left[i]);
                assert(x == s[pl[i]]);
                p = p.push(pl[i]);
                if j < n {
                    assert(full_right[j] == s[pr[j]]);
                    assert(goes_first(s, pl[i], pr[j]));
                    assert forall|b: int| j <= b < n implies #[trigger] goes_first(
                        s,
                        pl[i],
                        pr[b],
                    ) by {
                        if b > j {
                            assert(goes_first(s, pr[j], pr[b]));
                            lemma_goes_first_transitive(s, pl[i], pr[j], pr[b]);
                        }
                    }
                }
                i = i + 1;
            }
        } else {
            let x = rq.pop_front().unwrap();
            out.push(x);
            proof {
                assert(x == full_right[j]);
                assert(x == s[pr[j]]);
                p = p.push(pr[j]);
                if i < m {
                    assert(full_left[i] == s[pl[i]]);
                    assert(goes_first(s, pr[j], pl[i]));
                    assert forall|b: int| i <= b < m implies #[trigger] goes_first(
                        s,
                        pr[j],
                        pl[b],
                    ) by {
                        if b > i {
                            assert(goes_first(s, pl[i], pl[b]));
                            lemma_goes_first_transitive(s, pr[j], pl[i], pl[b]);
                        }
                    }
                }
                j = j + 1;
            }
        }
        proof {
            assert forall|a: int, b: int| 0 <= a < b < p.len() implies #[trigger] goes_first(
                s,
                p[a],
                p[b],
            ) by {
                if b < before.len() {
                    assert(goes_first(s, before[a], before[b]));
                }
            }
        }
    }
    proof {
        assert(stable_positions(s, p));
    }
    out
}

/// The items in sorted order; items that rank alike stay in the order in which they came.
pub fn sort_stably<T: Sortable>(items: Vec<T>) -> (r: Vec<T>)
    ensures
        is_stable_sort(items@, r@),
    decreases items@.len(),
{
    let n: usize = items.len();
    let ghost s = items@;
    if n < 2 {
        proof {
            lemma_sorted_is_stable_sort(s);
        }
        return items;
    }
    let mid: usize = n / 2;
    let mut left = items;
    let right = left.split_off(mid);
    let sorted_left = sort_stably(left);
    let sorted_right = sort_stably(right);
    proof {
        lemma_stable_sort_sorted(s.subrange(0, mid as int), sorted_left@);
        lemma_stable_sort_sorted(s.subrange(mid as int, n as int), sorted_right@);
    }
    merge(sorted_left, sorted_right, Ghost(s))
}

/// `p` lists every position of `s` once.
pub open spec fn is_permutation<T>(s: Seq<T>, p: Seq<int>) -> bool {
    &&& p.len() == s.len()
    &&& p.no_duplicates()
    &&& forall|i: int| 0 <= i < p.len() ==> 0 <= #[trigger] p[i] < s.len()
}

proof fn lemma_permutation_covers<T>(s: Seq<T>, p: Seq<int>, x: int) -> (k: int)
    requires
        is_permutation(s, p),
        0 <= x < s.len(),
    ensures
        0 <= k < p.len(),
        p[k] == x,
{
    let everything = vstd::set_lib::set_int_range(0, s.len() as int);
    vstd::set_lib::lemma_int_range(0, s.len() as int);
    p.unique_seq_to_set();
    let have = p.to_set();
    if !have.contains(x) {
        assert(have.subset_of(everything.remove(x))) by {
            assert forall|y: int| have.contains(y) implies everything.remove(x).contains(y) by {
                assert(p.contains(y));
            }
        }
        vstd::set_lib::lemma_len_subset(have, everything.remove(x));
    }
    assert(p.contains(x));
    choose|k: int| 0 <= k < p.len() && p[k] == x
}

proof fn lemma_no_smaller_first<T: Ranked>(
    s: Seq<T>,
    p: Seq<int>,
    a: Seq<T>,
    q: Seq<int>,
    b: Seq<T>,
    i: int,
)
    requires
        is_permutation(s, p),
        arranged(s, p, a),
        is_sorted(a),
        is_permutation(s, q),
        arranged(s, q, b),
        is_sorted(b),
        0 <= i < s.len(),
    ensures
        !a[i].ranks_before(b[i]),
{
    if a[i].ranks_before(b[i]) {
        let few = q.take(i);
        let many = p.take(i + 1);
        assert(many.no_duplicates());
        many.unique_seq_to_set();
        few.unique_seq_to_set();
        assert(many.to_set().subset_of(few.to_set())) by {
            assert forall|x: int| many.to_set().contains(x) implies few.to_set().contains(x) by {
                let j = choose|j: int| 0 <= j < many.len() && many[j] == x;
                assert(p[j] == x);
                assert(a[j] == s[x]);
                let k = lemma_permutation_covers(s, q, x);
                assert(b[k] == s[x]);
                if k >= i {
                    // `b[k]` is not before `b[i]`, and `a[j]` is not after `a[i]`.
                    T::rank_asymmetric(a[i], b[i]);
                    if j < i {
                        assert(!a[i].ranks_before(a[j]));
                    } else {
                        T::rank_asymmetric(a[i], a[i]);
                    }
                    if k > i {
                        assert(!b[k].ranks_before(b[i]));
                    } else {
                        T::rank_asymmetric(b[i], b[i]);
                    }
                    T::rank_negatively_transitive(b[i], b[k], a[i]);
                    assert(false);
                }
                assert(few[k] == x);
            }
        }
        vstd::set_lib::lemma_len_subset(many.to_set(), few.to_set());
    }
}

/// Where items that rank alike are equal, the sorted order of a sequence does not depend on the
/// order in which its items came.
pub proof fn law_sort_ignores_order<T: Ranked>(s: Seq<T>, p: Seq<int>, t: Seq<T>)
    requires
        is_permutation(s, p),
        arranged(s, p, t),
        forall|a: T, b: T|
            !(#[trigger] a.ranks_before(b)) && !b.ranks_before(a) ==> a == b,
    ensures
        stable_sort(s) == stable_sort(t),
{
    lemma_stable_sort_exists(s);
    lemma_stable_sort_exists(t);
    let a = stable_sort(s);
    let b = stable_sort(t);
    lemma_stable_sort_sorted(s, a);
    lemma_stable_sort_sorted(t, b);
    let x = choose|x: Seq<int>| #[trigger] stable_positions(s, x) && arranged(s, x, a);
    let y = choose|y: Seq<int>| #[trigger] stable_positions(t, y) && arranged(t, y, b);
    lemma_positions_distinct(s, x);
    lemma_positions_distinct(t, y);
    let q = Seq::new(y.len(), |i: int| p[y[i]]);
    assert(is_permutation(s, x));
    assert(is_permutation(s, q)) by {
        assert forall|i: int, j: int| 0 <= i < q.len() && 0 <= j < q.len() && i != j implies q[i]
            != q[j] by {
            assert(y[i] != y[j]);
            assert(0 <= y[i] < t.len() && 0 <= y[j] < t.len());
        }
        assert forall|i: int| 0 <= i < q.len() implies 0 <= #[trigger] q[i] < s.len() by {
            assert(0 <= y[i] < t.len());
            assert(0 <= p[y[i]] < s.len());
        }
    }
    assert(arranged(s, q, b)) by {
        assert forall|i: int| 0 <= i < b.len() implies #[trigger] b[i] == s[q[i]] by {
            assert(0 <= y[i] < t.len());
            assert(t[y[i]] == s[p[y[i]]]);
        }
    }
    assert forall|i: int| 0 <= i < a.len() implies a[i] == b[i] by {
        lemma_no_smaller_first(s, x, a, q, b, i);
        lemma_no_smaller_first(s, q, b, x, a, i);
        assert(!a[i].ranks_before(b[i]));
    }
    assert(a =~= b);
}

} // verus!
