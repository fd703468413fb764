//! Byte strings: their lexicographic order, prefixes, and fixed-width integers.

use vstd::prelude::*;

verus! {

/// Whether `a`, read from position `i` on, comes strictly before `b` in lexicographic order.
pub open spec fn lex_lt_from(a: Seq<u8>, b: Seq<u8>, i: int) -> bool
    decreases a.len() - i,
{
    if i >= b.len() {
        false
    } else if i >= a.len() {
        true
    } else if a[i] != b[i] {
        a[i] < b[i]
    } else {
        lex_lt_from(a, b, i + 1)
    }
}

/// `a` comes strictly before `b` in lexicographic byte order.
pub open spec fn lex_lt(a: Seq<u8>, b: Seq<u8>) -> bool {
    lex_lt_from(a, b, 0)
}

/// `a` comes before `b` in lexicographic byte order, or equals it.
pub open spec fn lex_le(a: Seq<u8>, b: Seq<u8>) -> bool {
    !lex_lt(b, a)
}

/// `key` begins with `prefix`.
pub open spec fn has_prefix(key: Seq<u8>, prefix: Seq<u8>) -> bool {
    prefix.len() <= key.len() && forall|i: int|
        0 <= i < prefix.len() ==> #[trigger] key[i] == prefix[i]
}

/// `a` and `b` agree before `i`, and the byte (or the end) at `i` puts `a` first.
pub open spec fn lex_lt_at(a: Seq<u8>, b: Seq<u8>, i: int) -> bool {
    &&& 0 <= i < b.len()
    &&& i <= a.len()
    &&& forall|j: int| 0 <= j < i ==> #[trigger] a[j] == b[j]
    &&& i < a.len() ==> a[i] < b[i]
}

proof fn lemma_lex_lt_from_skips(a: Seq<u8>, b: Seq<u8>, i: int, k: int)
    requires
        0 <= i <= k <= a.len(),
        k <= b.len(),
        forall|j: int| i <= j < k ==> #[trigger] a[j] == b[j],
    ensures
        lex_lt_from(a, b, i) == lex_lt_from(a, b, k),
    decreases k - i,
{
    if i < k {
        assert(a[i] == b[i]);
        lemma_lex_lt_from_skips(a, b, i + 1, k);
    }
}

proof fn lemma_lex_lt_from_witness(a: Seq<u8>, b: Seq<u8>, i: int) -> (k: int)
    requires
        0 <= i <= a.len(),
        lex_lt_from(a, b, i),
        forall|j: int| 0 <= j < i ==> #[trigger] a[j] == b[j],
    ensures
        lex_lt_at(a, b, k),
    decreases a.len() - i,
{
    if i >= a.len() || a[i] != b[i] {
        i
    } else {
        lemma_lex_lt_from_witness(a, b, i + 1)
    }
}

/// Where `a` comes before `b`, there is a first position that decides it.
pub proof fn lemma_lex_witness(a: Seq<u8>, b: Seq<u8>) -> (k: int)
    requires
        lex_lt(a, b),
    ensures
        lex_lt_at(a, b, k),
{
    lemma_lex_lt_from_witness(a, b, 0)
}

/// A position that decides for `a` puts `a` before `b`.
pub proof fn lemma_lex_lt_by(a: Seq<u8>, b: Seq<u8>, k: int)
    requires
        lex_lt_at(a, b, k),
    ensures
        lex_lt(a, b),
{
    lemma_lex_lt_from_skips(a, b, 0, k);
}

/// No byte string comes before itself.
pub proof fn lemma_lex_irreflexive(a: Seq<u8>)
    ensures
        !lex_lt(a, a),
{
    if lex_lt(a, a) {
        let k = lemma_lex_witness(a, a);
    }
}

/// The lexicographic order is transitive.
pub proof fn lemma_lex_transitive(a: Seq<u8>, b: Seq<u8>, c: Seq<u8>)
    requires
        lex_lt(a, b),
        lex_lt(b, c),
    ensures
        lex_lt(a, c),
{
    let i = lemma_lex_witness(a, b);
    let j = lemma_lex_witness(b, c);
    let k = if i < j { i } else { j };
    assert forall|m: int| 0 <= m < k implies #[trigger] a[m] == c[m] by {
        assert(a[m] == b[m]);
        assert(b[m] == c[m]);
    }
    if i < j {
        assert(b[i] == c[i]);
    } else if j < i {
        assert(a[j] == b[j]);
    }
    assert(lex_lt_at(a, c, k));
    lemma_lex_lt_by(a, c, k);
}

/// Two byte strings neither of which comes before the other are equal.
pub proof fn lemma_lex_total(a: Seq<u8>, b: Seq<u8>)
    ensures
        lex_lt(a, b) || lex_lt(b, a) || a == b,
    decreases a.len(),
{
    if !lex_lt(a, b) && !lex_lt(b, a) {
        lemma_lex_total_from(a, b, 0);
        assert(a =~= b);
    }
}

proof fn lemma_lex_total_from(a: Seq<u8>, b: Seq<u8>, i: int)
    requires
        0 <= i <= a.len(),
        i <= b.len(),
        !lex_lt_from(a, b, i),
        !lex_lt_from(b, a, i),
    ensures
        a.len() == b.len(),
        forall|j: int| i <= j < a.len() ==> #[trigger] a[j] == b[j],
    decreases a.len() - i,
{
    if i < a.len() && i < b.len() {
        lemma_lex_total_from(a, b, i + 1);
    }
}

/// `<=` on byte strings is transitive, and mixes with `<`.
pub proof fn lemma_lex_le_transitive(a: Seq<u8>, b: Seq<u8>, c: Seq<u8>)
    requires
        lex_le(a, b),
        lex_le(b, c),
    ensures
        lex_le(a, c),
        lex_lt(a, b) || lex_lt(b, c) ==> lex_lt(a, c),
{
    lemma_lex_total(a, b);
    lemma_lex_total(b, c);
    lemma_lex_irreflexive(a);
    lemma_lex_irreflexive(b);
    if lex_lt(a, b) && lex_lt(b, c) {
        lemma_lex_transitive(a, b, c);
    }
    if lex_lt(c, a) {
        if lex_lt(a, b) {
            lemma_lex_transitive(c, a, b);
        } else {
            assert(a == b);
        }
    }
}

/// A byte string strictly before another is not after it.
pub proof fn lemma_lex_lt_is_le(a: Seq<u8>, b: Seq<u8>)
    requires
        lex_lt(a, b),
    ensures
        lex_le(a, b),
        a != b,
{
    lemma_lex_irreflexive(a);
    if lex_lt(b, a) {
        lemma_lex_transitive(a, b, a);
    }
}

/// A key that begins with `prefix` does not come before it.
pub proof fn lemma_prefix_is_le(key: Seq<u8>, prefix: Seq<u8>)
    requires
        has_prefix(key, prefix),
    ensures
        lex_le(prefix, key),
{
    if lex_lt(key, prefix) {
        let k = lemma_lex_witness(key, prefix);
        assert(key[k] == prefix[k]);
    }
}

/// The keys that begin with `prefix` are contiguous: between two of them stands no other key, and
/// a key from `prefix` on that does not begin with it comes after all that do.
pub proof fn lemma_prefix_interval(key: Seq<u8>, later: Seq<u8>, prefix: Seq<u8>)
    requires
        lex_le(prefix, key),
        lex_le(key, later),
        has_prefix(later, prefix),
    ensures
        has_prefix(key, prefix),
{
    if !has_prefix(key, prefix) {
        lemma_lex_total(prefix, key);
        assert(lex_lt(prefix, key));
        let k = lemma_lex_witness(prefix, key);
        assert(k < prefix.len());
        assert forall|m: int| 0 <= m < k implies #[trigger] later[m] == key[m] by {
            assert(later[m] == prefix[m]);
            assert(prefix[m] == key[m]);
        }
        assert(later[k] == prefix[k]);
        assert(lex_lt_at(later, key, k));
        lemma_lex_lt_by(later, key, k);
    }
}

/// Concatenating on the right: equal heads leave the order to the tails.
pub proof fn lemma_lex_common_head(head: Seq<u8>, a: Seq<u8>, b: Seq<u8>)
    ensures
        lex_lt(head + a, head + b) == lex_lt(a, b),
{
    if lex_lt(a, b) {
        let k = lemma_lex_witness(a, b);
        let i = head.len() + k;
        assert forall|m: int| 0 <= m < i implies #[trigger] (head + a)[m] == (head + b)[m] by {
            if m >= head.len() {
                assert(a[m - head.len()] == b[m - head.len()]);
            }
        }
        assert(lex_lt_at(head + a, head + b, i));
        lemma_lex_lt_by(head + a, head + b, i);
    }
    if lex_lt(head + a, head + b) {
        let i = lemma_lex_witness(head + a, head + b);
        if i < head.len() {
            assert((head + a)[i] == head[i]);
            assert((head + b)[i] == head[i]);
            assert(false);
        }
        let k = i - head.len();
        assert forall|m: int| 0 <= m < k implies #[trigger] a[m] == b[m] by {
            assert((head + a)[m + head.len()] == (head + b)[m + head.len()]);
        }
        assert(lex_lt_at(a, b, k));
        lemma_lex_lt_by(a, b, k);
    }
}

/// Whether `a` comes strictly before `b`.
pub fn bytes_lt(a: &[u8], b: &[u8]) -> (r: bool)
    ensures
        r == lex_lt(a@, b@),
{
    let mut i: usize = 0;
    while i < a.len() && i < b.len()
        invariant
            i <= a@.len(),
            i <= b@.len(),
            lex_lt(a@, b@) == lex_lt_from(a@, b@, i as int),
        decreases a@.len() - i,
    {
        if a[i] != b[i] {
            return a[i] < b[i];
        }
        i = i + 1;
    }
    i < b.len()
}

/// Whether `a` does not come after `b`.
pub fn bytes_le(a: &[u8], b: &[u8]) -> (r: bool)
    ensures
        r == lex_le(a@, b@),
{
    !bytes_lt(b, a)
}

/// Whether the two byte strings are equal.
pub fn bytes_eq(a: &[u8], b: &[u8]) -> (r: bool)
    ensures
        r == (a@ == b@),
{
    if a.len() != b.len() {
        return false;
    }
    let mut i: usize = 0;
    while i < a.len()
        invariant
            a@.len() == b@.len(),
            i <= a@.len(),
            forall|j: int| 0 <= j < i ==> a@[j] == b@[j],
        decreases a@.len() - i,
    {
        if a[i] != b[i] {
            return false;
        }
        i = i + 1;
    }
    assert(a@ =~= b@);
    true
}

/// Whether `key` begins with `prefix`.
pub fn bytes_start_with(key: &[u8], prefix: &[u8]) -> (r: bool)
    ensures
        r == has_prefix(key@, prefix@),
{
    if key.len() < prefix.len() {
        return false;
    }
    let mut i: usize = 0;
    while i < prefix.len()
        invariant
            prefix@.len() <= key@.len(),
            i <= prefix@.len(),
            forall|j: int| 0 <= j < i ==> #[trigger] key@[j] == prefix@[j],
        decreases prefix@.len() - i,
    {
        if key[i] != prefix[i] {
            assert(key@[i as int] != prefix@[i as int]);
            return false;
        }
        i = i + 1;
    }
    true
}

/// The number that four bytes spell, the most significant first.
pub open spec fn be32(s: Seq<u8>) -> int {
    s[0] * 0x100_0000 + s[1] * 0x1_0000 + s[2] * 0x100 + s[3]
}

/// The number that four bytes spell, the least significant first.
pub open spec fn le32(s: Seq<u8>) -> int {
    s[3] * 0x100_0000 + s[2] * 0x1_0000 + s[1] * 0x100 + s[0]
}

/// The lowest `width` bytes of `n`, the most significant first.
pub open spec fn be_bytes(n: int, width: nat) -> Seq<u8>
    decreases width,
{
    if width == 0 {
        Seq::empty()
    } else {
        be_bytes(n / 256, (width - 1) as nat).push((n % 256) as u8)
    }
}

/// The lowest four bytes of `n`, the least significant first.
pub open spec fn le32_bytes(n: int) -> Seq<u8> {
    seq![
        (n % 256) as u8,
        (n / 0x100 % 256) as u8,
        (n / 0x1_0000 % 256) as u8,
        (n / 0x100_0000 % 256) as u8,
    ]
}

/// 256 raised to `width`: one more than the largest number that `width` bytes spell.
pub open spec fn byte_range(width: nat) -> int
    decreases width,
{
    if width == 0 {
        1
    } else {
        256 * byte_range((width - 1) as nat)
    }
}

/// The big-endian bytes of a number are `width` many.
pub proof fn lemma_be_bytes_len(n: int, width: nat)
    ensures
        be_bytes(n, width).len() == width,
    decreases width,
{
    if width > 0 {
        lemma_be_bytes_len(n / 256, (width - 1) as nat);
    }
}

/// Big-endian bytes of equal width order as the numbers they spell, and tell them apart.
pub proof fn lemma_be_bytes_order(m: int, n: int, width: nat)
    requires
        0 <= m < byte_range(width),
        0 <= n < byte_range(width),
    ensures
        lex_lt(be_bytes(m, width), be_bytes(n, width)) == (m < n),
        be_bytes(m, width) == be_bytes(n, width) ==> m == n,
    decreases width,
{
    if width == 0 {
        lemma_lex_irreflexive(Seq::empty());
    } else {
        let w = (width - 1) as nat;
        let hm = be_bytes(m / 256, w);
        let hn = be_bytes(n / 256, w);
        let lm = (m % 256) as u8;
        let ln = (n % 256) as u8;
        lemma_be_bytes_len(m / 256, w);
        lemma_be_bytes_len(n / 256, w);
        lemma_be_bytes_order(m / 256, n / 256, w);
        lemma_be_bytes_order(n / 256, m / 256, w);
        let a = hm.push(lm);
        let b = hn.push(ln);
        assert(a =~= hm + seq![lm]);
        assert(b =~= hn + seq![ln]);
        if m / 256 == n / 256 {
            lemma_lex_common_head(hm, seq![lm], seq![ln]);
            if lm < ln {
                assert(lex_lt_at(seq![lm], seq![ln], 0));
                lemma_lex_lt_by(seq![lm], seq![ln], 0);
            } else {
                if lex_lt(seq![lm], seq![ln]) {
                    let k = lemma_lex_witness(seq![lm], seq![ln]);
                }
            }
            assert(a[w as int] == lm);
            assert(b[w as int] == ln);
        } else {
            if m / 256 < n / 256 {
                let k = lemma_lex_witness(hm, hn);
                assert forall|j: int| 0 <= j < k implies #[trigger] a[j] == b[j] by {
                    assert(hm[j] == hn[j]);
                }
                assert(lex_lt_at(a, b, k));
                lemma_lex_lt_by(a, b, k);
            } else {
                let k = lemma_lex_witness(hn, hm);
                assert forall|j: int| 0 <= j < k implies #[trigger] b[j] == a[j] by {
                    assert(hn[j] == hm[j]);
                }
                assert(lex_lt_at(b, a, k));
                lemma_lex_lt_by(b, a, k);
                lemma_lex_lt_is_le(b, a);
            }
            if a == b {
                assert(a.drop_last() =~= hm);
                assert(b.drop_last() =~= hn);
            }
        }
    }
}

/// Four big-endian bytes spell the number that they were made from.
pub proof fn lemma_be32_round_trip(n: int)
    requires
        0 <= n < 0x1_0000_0000,
    ensures
        be_bytes(n, 4).len() == 4,
        be32(be_bytes(n, 4)) == n,
{
    reveal_with_fuel(be_bytes, 5);
    let s = be_bytes(n, 4);
    let q = n / 256;
    let r = q / 256;
    let d = r / 256;
    assert(n == q * 256 + n % 256);
    assert(q == r * 256 + q % 256);
    assert(r == d * 256 + r % 256);
    assert(0 <= d < 256);
    assert(s[3] == n % 256);
    assert(s[2] == q % 256);
    assert(s[1] == r % 256);
    assert(s[0] == d);
}

/// Four little-endian bytes spell the number that they were made from.
pub proof fn lemma_le32_round_trip(n: int)
    requires
        0 <= n < 0x1_0000_0000,
    ensures
        le32(le32_bytes(n)) == n,
{
    let q = n / 256;
    let r = q / 256;
    let d = r / 256;
    assert(n == q * 256 + n % 256);
    assert(q == r * 256 + q % 256);
    assert(r == d * 256 + r % 256);
    assert(0 <= d < 256);
    assert(n / 0x1_0000 == r);
    assert(n / 0x100_0000 == d);
    assert(d % 256 == d);
    let s = le32_bytes(n);
    assert(s[0] == n % 256);
    assert(s[1] == q % 256);
    assert(s[2] == r % 256);
    assert(s[3] == d);
}

/// Reads four bytes at `offset` as a number, the most significant first.
pub fn read_be32(s: &[u8], offset: usize) -> (r: u32)
    requires
        offset + 4 <= s@.len(),
    ensures
        r == be32(s@.subrange(offset as int, offset + 4)),
{
    let ghost t = s@.subrange(offset as int, offset + 4);
    assert(t[0] == s@[offset as int]);
    assert(s@.len() == s.len());
    (s[offset] as u32) * 0x100_0000 + (s[offset + 1] as u32) * 0x1_0000 + (s[offset + 2] as u32)
        * 0x100 + (s[offset + 3] as u32)
}

/// Reads four bytes at `offset` as a number, the least significant first.
pub fn read_le32(s: &[u8], offset: usize) -> (r: u32)
    requires
        offset + 4 <= s@.len(),
    ensures
        r == le32(s@.subrange(offset as int, offset + 4)),
{
    let ghost t = s@.subrange(offset as int, offset + 4);
    assert(t[0] == s@[offset as int]);
    assert(s@.len() == s.len());
    (s[offset + 3] as u32) * 0x100_0000 + (s[offset + 2] as u32) * 0x1_0000 + (s[offset + 1]
        as u32) * 0x100 + (s[offset] as u32)
}

/// Appends the lowest `width` bytes of `n`, the most significant first.
pub fn push_be(buf: &mut Vec<u8>, n: u128, width: usize)
    requires
        width <= 16,
    ensures
        final(buf)@ == old(buf)@ + be_bytes(n as int, width as nat),
    decreases width,
{
    if width > 0 {
        push_be(buf, n / 256, width - 1);
        let low: u8 = (n % 256) as u8;
        buf.push(low);
        assert(buf@ =~= old(buf)@ + be_bytes(n as int, width as nat));
    } else {
        assert(buf@ =~= old(buf)@ + be_bytes(n as int, 0));
    }
}

/// Appends the lowest four bytes of `n`, the least significant first.
pub fn push_le32(buf: &mut Vec<u8>, n: u64)
    ensures
        final(buf)@ == old(buf)@ + le32_bytes(n as int),
{
    buf.push((n % 256) as u8);
    buf.push((n / 0x100 % 256) as u8);
    buf.push((n / 0x1_0000 % 256) as u8);
    buf.push((n / 0x100_0000 % 256) as u8);
    assert(buf@ =~= old(buf)@ + le32_bytes(n as int));
}

/// A copy of the byte string.
pub fn bytes_clone(s: &[u8]) -> (r: Vec<u8>)
    ensures
        r@ == s@,
{
    vstd::slice::slice_to_vec(s)
}

/// Appends a byte string.
pub fn append_bytes(buf: &mut Vec<u8>, s: &[u8])
    ensures
        final(buf)@ == old(buf)@ + s@,
{
    buf.extend_from_slice(s);
    assert(buf@ =~= old(buf)@ + s@);
}

} // verus!
