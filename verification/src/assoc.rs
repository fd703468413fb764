//! Maps held as entries in the ascending order of their keys.

use vstd::prelude::*;
use vstd::utf8::encode_utf8;

use crate::lex::{lemma_lex_irreflexive, lemma_lex_total, lemma_lex_transitive};
use crate::text::{lemma_utf8_injective, text_is_before, text_lt};

verus! {

/// A type whose values can be the keys of a map.
pub trait MapKey: Sized {
    /// What a key means.
    type Model;

    /// What the key means.
    spec fn model(self) -> Self::Model;

    /// One key is strictly below another.
    spec fn below(a: Self::Model, b: Self::Model) -> bool;

    /// No key is below itself.
    proof fn below_irreflexive(a: Self::Model)
        ensures
            !Self::below(a, a),
    ;

    /// What is below a key that is below a third is below the third.
    proof fn below_transitive(a: Self::Model, b: Self::Model, c: Self::Model)
        requires
            Self::below(a, b),
            Self::below(b, c),
        ensures
            Self::below(a, c),
    ;

    /// Of two keys that differ one is below the other.
    proof fn below_total(a: Self::Model, b: Self::Model)
        ensures
            a == b || Self::below(a, b) || Self::below(b, a),
    ;

    /// Whether the key is strictly below another.
    fn is_below(&self, other: &Self) -> (r: bool)
        ensures
            r == Self::below(self.model(), other.model()),
    ;
}

impl MapKey for usize {
    type Model = usize;

    open spec fn model(self) -> usize {
        self
    }

    open spec fn below(a: usize, b: usize) -> bool {
        a < b
    }

    proof fn below_irreflexive(a: usize) {
    }

    proof fn below_transitive(a: usize, b: usize, c: usize) {
    }

    proof fn below_total(a: usize, b: usize) {
    }

    fn is_below(&self, other: &Self) -> (r: bool) {
        *self < *other
    }
}

impl MapKey for u32 {
    type Model = u32;

    open spec fn model(self) -> u32 {
        self
    }

    open spec fn below(a: u32, b: u32) -> bool {
        a < b
    }

    proof fn below_irreflexive(a: u32) {
    }

    proof fn below_transitive(a: u32, b: u32, c: u32) {
    }

    proof fn below_total(a: u32, b: u32) {
    }

    fn is_below(&self, other: &Self) -> (r: bool) {
        *self < *other
    }
}

impl MapKey for String {
    type Model = Seq<char>;

    open spec fn model(self) -> Seq<char> {
        self@
    }

    open spec fn below(a: Seq<char>, b: Seq<char>) -> bool {
        text_lt(a, b)
    }

    proof fn below_irreflexive(a: Seq<char>) {
        lemma_lex_irreflexive(encode_utf8(a));
    }

    proof fn below_transitive(a: Seq<char>, b: Seq<char>, c: Seq<char>) {
        lemma_lex_transitive(encode_utf8(a), encode_utf8(b), encode_utf8(c));
    }

    proof fn below_total(a: Seq<char>, b: Seq<char>) {
        lemma_lex_total(encode_utf8(a), encode_utf8(b));
        if encode_utf8(a) == encode_utf8(b) {
            lemma_utf8_injective(a, b);
        }
    }

    fn is_below(&self, other: &Self) -> (r: bool) {
        text_is_before(self.as_str(), other.as_str())
    }
}

/// The keys of the entries are in strictly ascending order.
pub open spec fn keys_ascend<K: MapKey, V>(entries: Seq<(K, V)>) -> bool {
    forall|i: int, j: int|
        0 <= i < j < entries.len() ==> K::below(
            (#[trigger] entries[i]).0.model(),
            (#[trigger] entries[j]).0.model(),
        )
}

/// The map that the entries make up.
pub open spec fn map_of<K: MapKey, V>(entries: Seq<(K, V)>) -> Map<K::Model, V>
    decreases entries.len(),
{
    if entries.len() == 0 {
        Map::empty()
    } else {
        map_of(entries.drop_last()).insert(entries.last().0.model(), entries.last().1)
    }
}

/// The map of ascending entries holds each of them, and nothing else.
pub proof fn lemma_map_of<K: MapKey, V>(entries: Seq<(K, V)>)
    requires
        keys_ascend(entries),
    ensures
        forall|i: int|
            0 <= i < entries.len() ==> map_of(entries).contains_key(
                (#[trigger] entries[i]).0.model(),
            ) && map_of(entries)[entries[i].0.model()] == entries[i].1,
        forall|key: K::Model| #[trigger]
            map_of(entries).contains_key(key) ==> exists|i: int|
                0 <= i < entries.len() && (#[trigger] entries[i]).0.model() == key,
    decreases entries.len(),
{
    if entries.len() > 0 {
        let before = entries.drop_last();
        lemma_map_of(before);
        assert forall|i: int| 0 <= i < entries.len() implies map_of(entries).contains_key(
            (#[trigger] entries[i]).0.model(),
        ) && map_of(entries)[entries[i].0.model()] == entries[i].1 by {
            if i < entries.len() - 1 {
                assert(before[i] == entries[i]);
                K::below_irreflexive(entries[i].0.model());
            }
        }
        assert forall|key: K::Model| #[trigger] map_of(entries).contains_key(key) implies exists|
            i: int,
        | 0 <= i < entries.len() && (#[trigger] entries[i]).0.model() == key by {
            if key == entries.last().0.model() {
                assert(entries[entries.len() - 1].0.model() == key);
            } else {
                assert(map_of(before).contains_key(key));
                let i = choose|i: int|
                    0 <= i < before.len() && (#[trigger] before[i]).0.model() == key;
                assert(entries[i].0.model() == key);
            }
        }
    }
}

/// Ascending entries that hold what a map does make up that map.
pub proof fn lemma_map_of_is<K: MapKey, V>(entries: Seq<(K, V)>, map: Map<K::Model, V>)
    requires
        keys_ascend(entries),
        forall|i: int|
            0 <= i < entries.len() ==> map.contains_key((#[trigger] entries[i]).0.model())
                && map[entries[i].0.model()] == entries[i].1,
        forall|key: K::Model| #[trigger]
            map.contains_key(key) ==> exists|i: int|
                0 <= i < entries.len() && (#[trigger] entries[i]).0.model() == key,
    ensures
        map_of(entries) == map,
{
    lemma_map_of(entries);
    let made = map_of(entries);
    assert forall|key: K::Model| made.contains_key(key) implies #[trigger] map.contains_key(key)
        && made[key] == map[key] by {
        let i = choose|i: int| 0 <= i < entries.len() && (#[trigger] entries[i]).0.model() == key;
        assert(map.contains_key(entries[i].0.model()));
    }
    assert forall|key: K::Model| #[trigger] map.contains_key(key) implies made.contains_key(
        key,
    ) by {
        let i = choose|i: int| 0 <= i < entries.len() && (#[trigger] entries[i]).0.model() == key;
        assert(made.contains_key(entries[i].0.model()));
    }
    assert(made =~= map);
}

/// Ascending entries are given by the map that they make up.
pub proof fn lemma_entries_unique<K: MapKey, V>(a: Seq<(K, V)>, b: Seq<(K, V)>)
    requires
        keys_ascend(a),
        keys_ascend(b),
        map_of(a) == map_of(b),
    ensures
        a.len() == b.len(),
        forall|i: int|
            0 <= i < a.len() ==> (#[trigger] a[i]).0.model() == b[i].0.model() && a[i].1 == b[i].1,
    decreases a.len(),
{
    lemma_map_of(a);
    lemma_map_of(b);
    if a.len() == 0 {
        if b.len() > 0 {
            assert(map_of(b).contains_key(b[0].0.model()));
            assert(map_of(a).contains_key(b[0].0.model()));
        }
    } else {
        let x = a[a.len() - 1];
        assert(map_of(b).contains_key(x.0.model()));
        let i = choose|i: int| 0 <= i < b.len() && (#[trigger] b[i]).0.model() == x.0.model();
        let y = b[b.len() - 1];
        assert(map_of(a).contains_key(y.0.model()));
        let j = choose|j: int| 0 <= j < a.len() && (#[trigger] a[j]).0.model() == y.0.model();
        assert(x.0.model() == y.0.model()) by {
            if j < a.len() - 1 && i < b.len() - 1 {
                assert(K::below(a[j].0.model(), x.0.model()));
                assert(K::below(b[i].0.model(), y.0.model()));
                K::below_transitive(x.0.model(), y.0.model(), x.0.model());
                K::below_irreflexive(x.0.model());
            }
        }
        assert(x.1 == map_of(a)[x.0.model()]);
        assert(y.1 == map_of(b)[y.0.model()]);
        let p = a.drop_last();
        let q = b.drop_last();
        lemma_map_of(p);
        lemma_map_of(q);
        assert(map_of(p) =~= map_of(a).remove(x.0.model())) by {
            if map_of(p).contains_key(x.0.model()) {
                let k = choose|k: int|
                    0 <= k < p.len() && (#[trigger] p[k]).0.model() == x.0.model();
                assert(K::below(a[k].0.model(), x.0.model()));
                K::below_irreflexive(x.0.model());
            }
        }
        assert(map_of(q) =~= map_of(b).remove(y.0.model())) by {
            if map_of(q).contains_key(y.0.model()) {
                let k = choose|k: int|
                    0 <= k < q.len() && (#[trigger] q[k]).0.model() == y.0.model();
                assert(K::below(b[k].0.model(), y.0.model()));
                K::below_irreflexive(y.0.model());
            }
        }
        lemma_entries_unique(p, q);
        assert forall|i: int| 0 <= i < a.len() implies (#[trigger] a[i]).0.model()
            == b[i].0.model() && a[i].1 == b[i].1 by {
            if i < a.len() - 1 {
                assert(p[i] == a[i] && q[i] == b[i]);
            }
        }
    }
}

/// Puts a value under a key, in place of one that stands there.
pub fn insert_entry<K: MapKey, V>(entries: &mut Vec<(K, V)>, key: K, value: V)
    requires
        keys_ascend(old(entries)@),
    ensures
        keys_ascend(final(entries)@),
        map_of(final(entries)@) == map_of(old(entries)@).insert(key.model(), value),
{
    let ghost before = entries@;
    let ghost made = map_of(before).insert(key.model(), value);
    proof {
        lemma_map_of(before);
    }
    let mut p: usize = 0;
    while p < entries.len() && entries[p].0.is_below(&key)
        invariant
            p <= entries@.len(),
            entries@ == before,
            forall|i: int|
                0 <= i < p ==> K::below((#[trigger] before[i]).0.model(), key.model()),
        decreases entries@.len() - p,
    {
        p = p + 1;
    }
    if p < entries.len() && !key.is_below(&entries[p].0) {
        proof {
            K::below_total(before[p as int].0.model(), key.model());
            assert(before[p as int].0.model() == key.model());
        }
        let ghost entry = (key, value);
        entries.set(p, (key, value));
        proof {
            let now = entries@;
            assert(now =~= before.update(p as int, entry));
            assert(keys_ascend(now)) by {
                assert forall|i: int, j: int| 0 <= i < j < now.len() implies K::below(
                    (#[trigger] now[i]).0.model(),
                    (#[trigger] now[j]).0.model(),
                ) by {
                    assert(K::below(before[i].0.model(), before[j].0.model()));
                }
            }
            assert forall|i: int| 0 <= i < now.len() implies made.contains_key(
                (#[trigger] now[i]).0.model(),
            ) && made[now[i].0.model()] == now[i].1 by {
                if i != p {
                    K::below_irreflexive(key.model());
                    assert(map_of(before).contains_key(before[i].0.model()));
                }
            }
            assert forall|k: K::Model| #[trigger] made.contains_key(k) implies exists|i: int|
                0 <= i < now.len() && (#[trigger] now[i]).0.model() == k by {
                if k == key.model() {
                    assert(now[p as int].0.model() == k);
                } else {
                    assert(map_of(before).contains_key(k));
                    let i = choose|i: int|
                        0 <= i < before.len() && (#[trigger] before[i]).0.model() == k;
                    assert(now[i].0.model() == k);
                }
            }
            lemma_map_of_is(now, made);
        }
    } else {
        let ghost entry = (key, value);
        proof {
            assert forall|i: int| p <= i < before.len() implies K::below(
                key.model(),
                (#[trigger] before[i]).0.model(),
            ) by {
                if i > p {
                    assert(K::below(before[p as int].0.model(), before[i].0.model()));
                    K::below_transitive(
                        key.model(),
                        before[p as int].0.model(),
                        before[i].0.model(),
                    );
                }
            }
        }
        entries.insert(p, (key, value));
        proof {
            let now = entries@;
            assert(now =~= before.insert(p as int, entry));
            assert(keys_ascend(now)) by {
                assert forall|i: int, j: int| 0 <= i < j < now.len() implies K::below(
                    (#[trigger] now[i]).0.model(),
                    (#[trigger] now[j]).0.model(),
                ) by {
                    let a = if i < p {
                        i
                    } else {
                        i - 1
                    };
                    let b = if j < p {
                        j
                    } else {
                        j - 1
                    };
                    if i == p {
                        assert(now[j] == before[b]);
                    } else if j == p {
                        assert(now[i] == before[a]);
                    } else {
                        assert(now[i] == before[a] && now[j] == before[b]);
                        assert(K::below(before[a].0.model(), before[b].0.model()));
                    }
                }
            }
            assert forall|i: int| 0 <= i < now.len() implies made.contains_key(
                (#[trigger] now[i]).0.model(),
            ) && made[now[i].0.model()] == now[i].1 by {
                let a = if i < p {
                    i
                } else {
                    i - 1
                };
                if i != p {
                    assert(now[i] == before[a]);
                    K::below_irreflexive(key.model());
                    assert(map_of(before).contains_key(before[a].0.model()));
                }
            }
            assert forall|k: K::Model| #[trigger] made.contains_key(k) implies exists|i: int|
                0 <= i < now.len() && (#[trigger] now[i]).0.model() == k by {
                if k == key.model() {
                    assert(now[p as int].0.model() == k);
                } else {
                    assert(map_of(before).contains_key(k));
                    let i = choose|i: int|
                        0 <= i < before.len() && (#[trigger] before[i]).0.model() == k;
                    if i < p {
                        assert(now[i].0.model() == k);
                    } else {
                        assert(now[i + 1].0.model() == k);
                    }
                }
            }
            lemma_map_of_is(now, made);
        }
    }
}

/// Finds the value under a key.
pub fn find_entry<'a, K: MapKey, V>(entries: &'a Vec<(K, V)>, key: &K) -> (r: Option<&'a V>)
    requires
        keys_ascend(entries@),
    ensures
        match r {
            Some(value) => map_of(entries@).contains_key(key.model())
                && map_of(entries@)[key.model()] == *value,
            None => !map_of(entries@).contains_key(key.model()),
        },
{
    let mut i: usize = 0;
    while i < entries.len()
        invariant
            i <= entries@.len(),
            keys_ascend(entries@),
            forall|k: int| 0 <= k < i ==> (#[trigger] entries@[k]).0.model() != key.model(),
        decreases entries@.len() - i,
    {
        let entry = &entries[i];
        if !entry.0.is_below(key) && !key.is_below(&entry.0) {
            proof {
                K::below_total(entry.0.model(), key.model());
            }
            proof {
                assert(entries@[i as int].0.model() == key.model());
                lemma_map_of(entries@);
            }
            return Some(&entry.1);
        }
        proof {
            K::below_irreflexive(key.model());
        }
        i = i + 1;
    }
    proof {
        lemma_map_of(entries@);
    }
    None
}

} // verus!
