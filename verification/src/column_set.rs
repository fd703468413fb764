//! Sets of columns.

use vstd::prelude::*;

verus! {

/// A set of columns, by their symbols, in ascending order.
#[derive(Debug)]
pub struct ColumnSet {
    pub items: Vec<usize>,
}

/// The symbols are in strictly ascending order.
pub open spec fn symbols_ascend(items: Seq<usize>) -> bool {
    forall|i: int, j: int| 0 <= i < j < items.len() ==> #[trigger] items[i] < #[trigger] items[j]
}

impl View for ColumnSet {
    type V = Set<usize>;

    open spec fn view(&self) -> Set<usize> {
        self.items@.to_set()
    }
}

/// A set of columns has one form: what is listed depends only on which columns are in it.
pub proof fn law_set_has_one_form(a: ColumnSet, b: ColumnSet)
    requires
        a.wf(),
        b.wf(),
        a@ == b@,
    ensures
        a.items@ == b.items@,
    decreases a.items@.len(),
{
    lemma_same_symbols(a.items@, b.items@);
}

proof fn lemma_same_symbols(a: Seq<usize>, b: Seq<usize>)
    requires
        symbols_ascend(a),
        symbols_ascend(b),
        a.to_set() == b.to_set(),
    ensures
        a == b,
    decreases a.len(),
{
    if a.len() == 0 {
        if b.len() > 0 {
            assert(b.to_set().contains(b[0]));
            assert(a.contains(b[0]));
        }
        assert(a =~= b);
    } else {
        assert(a.to_set().contains(a.last()));
        assert(b.contains(a.last()));
        let i = choose|i: int| 0 <= i < b.len() && b[i] == a.last();
        assert(b.to_set().contains(b.last()));
        assert(a.contains(b.last()));
        let j = choose|j: int| 0 <= j < a.len() && a[j] == b.last();
        assert(a.last() == b.last()) by {
            if j < a.len() - 1 {
                assert(a[j] < a[a.len() - 1]);
            }
            if i < b.len() - 1 {
                assert(b[i] < b[b.len() - 1]);
            }
        }
        let p = a.drop_last();
        let q = b.drop_last();
        assert(p.to_set() =~= q.to_set()) by {
            assert forall|x: usize| p.to_set().contains(x) <==> q.to_set().contains(x) by {
                if p.contains(x) {
                    let k = choose|k: int| 0 <= k < p.len() && p[k] == x;
                    assert(a[k] == x && a[k] < a[a.len() - 1]);
                    assert(a.to_set().contains(x));
                    assert(b.contains(x));
                    let m = choose|m: int| 0 <= m < b.len() && b[m] == x;
                    assert(q[m] == x);
                }
                if q.contains(x) {
                    let k = choose|k: int| 0 <= k < q.len() && q[k] == x;
                    assert(b[k] == x && b[k] < b[b.len() - 1]);
                    assert(b.to_set().contains(x));
                    assert(a.contains(x));
                    let m = choose|m: int| 0 <= m < a.len() && a[m] == x;
                    assert(p[m] == x);
                }
            }
        }
        lemma_same_symbols(p, q);
        assert(a =~= p.push(a.last()));
        assert(b =~= q.push(b.last()));
    }
}

impl ColumnSet {
    /// The columns are in ascending order, each once.
    pub open spec fn wf(self) -> bool {
        symbols_ascend(self.items@)
    }

    /// The set without columns.
    pub fn empty() -> (r: ColumnSet)
        ensures
            r.wf(),
            r@ == Set::<usize>::empty(),
    {
        let r = ColumnSet { items: Vec::new() };
        assert(r@ =~= Set::<usize>::empty());
        r
    }

    /// Whether there is no column.
    pub fn is_empty(&self) -> (r: bool)
        ensures
            r == (self@ == Set::<usize>::empty()),
    {
        proof {
            if self.items@.len() == 0 {
                assert(self@ =~= Set::<usize>::empty());
            } else {
                assert(self@.contains(self.items@[0]));
            }
        }
        self.items.len() == 0
    }

    /// Whether the column is in the set.
    pub fn contains(&self, column: usize) -> (r: bool)
        ensures
            r == self@.contains(column),
    {
        let mut i: usize = 0;
        while i < self.items.len()
            invariant
                i <= self.items@.len(),
                forall|k: int| 0 <= k < i ==> self.items@[k] != column,
            decreases self.items@.len() - i,
        {
            if self.items[i] == column {
                assert(self.items@[i as int] == column);
                return true;
            }
            i = i + 1;
        }
        false
    }

    /// Adds a column.
    pub fn insert(&mut self, column: usize)
        requires
            old(self).wf(),
        ensures
            final(self).wf(),
            final(self)@ == old(self)@.insert(column),
    {
        let ghost before = self.items@;
        let mut p: usize = 0;
        while p < self.items.len() && self.items[p] < column
            invariant
                p <= self.items@.len(),
                self.items@ == before,
                symbols_ascend(before),
                forall|i: int| 0 <= i < p ==> before[i] < column,
            decreases self.items@.len() - p,
        {
            p = p + 1;
        }
        if p < self.items.len() && self.items[p] == column {
            assert(self@ =~= before.to_set().insert(column)) by {
                assert(before[p as int] == column);
                assert(before.to_set().contains(column));
            }
        } else {
            self.items.insert(p, column);
            let ghost now = self.items@;
            proof {
                assert(now =~= before.insert(p as int, column));
                assert forall|i: int, j: int| 0 <= i < j < now.len() implies #[trigger] now[i]
                    < #[trigger] now[j] by {
                    if i >= p && i > p {
                        assert(now[i] == before[i - 1] && now[j] == before[j - 1]);
                    } else if j > p {
                        assert(now[j] == before[j - 1]);
                        if i < p {
                            assert(now[i] == before[i]);
                        }
                    }
                }
                assert(now.to_set() =~= before.to_set().insert(column)) by {
                    assert forall|x: usize| now.to_set().contains(x) <==> before.to_set().insert(
                        column,
                    ).contains(x) by {
                        if now.contains(x) {
                            let k = choose|k: int| 0 <= k < now.len() && now[k] == x;
                            if k < p {
                                assert(before[k] == x);
                            } else if k > p {
                                assert(before[k - 1] == x);
                            }
                        }
                        if x == column {
                            assert(now[p as int] == x);
                        } else if before.contains(x) {
                            let k = choose|k: int| 0 <= k < before.len() && before[k] == x;
                            if k < p {
                                assert(now[k] == x);
                            } else {
                                assert(now[k + 1] == x);
                            }
                        }
                    }
                }
            }
        }
    }

    /// A copy of the set.
    pub fn copy(&self) -> (r: ColumnSet)
        ensures
            r.items@ == self.items@,
            r@ == self@,
    {
        let mut items: Vec<usize> = Vec::new();
        let mut i: usize = 0;
        while i < self.items.len()
            invariant
                i <= self.items@.len(),
                items@ == self.items@.take(i as int),
            decreases self.items@.len() - i,
        {
            items.push(self.items[i]);
            assert(items@ =~= self.items@.take(i + 1));
            i = i + 1;
        }
        assert(items@ =~= self.items@);
        ColumnSet { items }
    }

    /// The columns that are in one of the sets.
    pub fn union(&self, other: &ColumnSet) -> (r: ColumnSet)
        requires
            self.wf(),
        ensures
            r.wf(),
            r@ == self@.union(other@),
    {
        let mut r = self.copy();
        let mut i: usize = 0;
        assert(other.items@.take(0).to_set() =~= Set::<usize>::empty());
        assert(self@.union(Set::<usize>::empty()) =~= self@);
        while i < other.items.len()
            invariant
                i <= other.items@.len(),
                r.wf(),
                r@ == self@.union(other.items@.take(i as int).to_set()),
            decreases other.items@.len() - i,
        {
            r.insert(other.items[i]);
            proof {
                lemma_take_set(other.items@, i as int);
                assert(self@.union(other.items@.take(i as int).to_set()).insert(
                    other.items@[i as int],
                ) =~= self@.union(other.items@.take(i + 1).to_set()));
            }
            i = i + 1;
        }
        assert(other.items@.take(other.items@.len() as int) =~= other.items@);
        r
    }

    /// The columns of this set that are in the other, or that are not in it.
    fn parted(&self, other: &ColumnSet, inside: bool) -> (r: ColumnSet)
        requires
            self.wf(),
        ensures
            r.wf(),
            forall|x: usize| #[trigger]
                r@.contains(x) <==> self@.contains(x) && other@.contains(x) == inside,
    {
        let mut r = ColumnSet::empty();
        let mut i: usize = 0;
        while i < self.items.len()
            invariant
                i <= self.items@.len(),
                r.wf(),
                forall|x: usize| #[trigger]
                    r@.contains(x) <==> self.items@.take(i as int).to_set().contains(x)
                        && other@.contains(x) == inside,
            decreases self.items@.len() - i,
        {
            let column: usize = self.items[i];
            proof {
                lemma_take_set(self.items@, i as int);
            }
            if other.contains(column) == inside {
                r.insert(column);
            }
            i = i + 1;
        }
        assert(self.items@.take(self.items@.len() as int) =~= self.items@);
        r
    }

    /// The columns that are in both sets.
    pub fn intersection(&self, other: &ColumnSet) -> (r: ColumnSet)
        requires
            self.wf(),
        ensures
            r.wf(),
            r@ == self@.intersect(other@),
    {
        let r = self.parted(other, true);
        assert(r@ =~= self@.intersect(other@));
        r
    }

    /// The columns of this set that are not in the other.
    pub fn difference(&self, other: &ColumnSet) -> (r: ColumnSet)
        requires
            self.wf(),
        ensures
            r.wf(),
            r@ == self@.difference(other@),
    {
        let r = self.parted(other, false);
        assert(r@ =~= self@.difference(other@));
        r
    }
}

proof fn lemma_take_set(items: Seq<usize>, i: int)
    requires
        0 <= i < items.len(),
    ensures
        items.take(i + 1).to_set() == items.take(i).to_set().insert(items[i]),
{
    let now = items.take(i + 1);
    let before = items.take(i);
    assert forall|x: usize| now.to_set().contains(x) <==> before.to_set().insert(
        items[i],
    ).contains(x) by {
        if now.contains(x) {
            let k = choose|k: int| 0 <= k < now.len() && now[k] == x;
            if k < i {
                assert(before[k] == x);
            }
        }
        if x == items[i] {
            assert(now[i] == x);
        } else if before.contains(x) {
            let k = choose|k: int| 0 <= k < before.len() && before[k] == x;
            assert(now[k] == x);
        }
    }
    assert(now.to_set() =~= before.to_set().insert(items[i]));
}

} // verus!
