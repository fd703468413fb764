//! Strings: equality, order, ASCII case, and the text of numbers.

use vstd::prelude::*;
use vstd::utf8::encode_utf8;

use crate::lex::{bytes_eq, bytes_lt, lemma_lex_irreflexive, lemma_lex_total, lemma_lex_transitive,
    lex_lt};
use crate::sort::{lemma_stable_sort_unique, lemma_stable_sort_view, sort_stably, stable_sort,
    Ranked, Sortable};

verus! {

/// `String::push` appends one character to the end of the string and changes nothing else.
pub assume_specification[ std::string::String::push ](text: &mut std::string::String, c: char)
    ensures
        final(text)@ == old(text)@.push(c),
;

/// `a` comes strictly before `b` in the order of their UTF-8 bytes.
pub open spec fn text_lt(a: Seq<char>, b: Seq<char>) -> bool {
    lex_lt(encode_utf8(a), encode_utf8(b))
}

/// A byte with the ASCII capital letters made small.
pub open spec fn ascii_small(b: u8) -> u8 {
    if 0x41 <= b <= 0x5a {
        (b + 0x20) as u8
    } else {
        b
    }
}

/// The texts agree but for the case of ASCII letters.
pub open spec fn same_ignoring_case(a: Seq<char>, b: Seq<char>) -> bool {
    let x = encode_utf8(a);
    let y = encode_utf8(b);
    x.len() == y.len() && forall|i: int|
        0 <= i < x.len() ==> #[trigger] ascii_small(x[i]) == ascii_small(y[i])
}

/// Texts with the same UTF-8 bytes are the same.
pub proof fn lemma_utf8_injective(a: Seq<char>, b: Seq<char>)
    requires
        encode_utf8(a) == encode_utf8(b),
    ensures
        a == b,
{
    vstd::utf8::encode_utf8_decode_utf8(a);
    vstd::utf8::encode_utf8_decode_utf8(b);
}

/// Whether the texts are equal.
pub fn text_eq(a: &str, b: &str) -> (r: bool)
    ensures
        r == (a@ == b@),
{
    let same = bytes_eq(a.as_bytes(), b.as_bytes());
    proof {
        if same {
            lemma_utf8_injective(a@, b@);
        }
    }
    same
}

/// Whether `a` comes strictly before `b`.
pub fn text_is_before(a: &str, b: &str) -> (r: bool)
    ensures
        r == text_lt(a@, b@),
{
    bytes_lt(a.as_bytes(), b.as_bytes())
}

fn small(b: u8) -> (r: u8)
    ensures
        r == ascii_small(b),
{
    if 0x41 <= b && b <= 0x5a {
        b + 0x20
    } else {
        b
    }
}

/// Whether the texts agree but for the case of ASCII letters.
pub fn text_eq_ignoring_case(a: &str, b: &str) -> (r: bool)
    ensures
        r == same_ignoring_case(a@, b@),
{
    let x = a.as_bytes();
    let y = b.as_bytes();
    if x.len() != y.len() {
        return false;
    }
    let mut i: usize = 0;
    while i < x.len()
        invariant
            x@.len() == y@.len(),
            x@ == encode_utf8(a@),
            y@ == encode_utf8(b@),
            i <= x@.len(),
            forall|j: int| 0 <= j < i ==> #[trigger] ascii_small(x@[j]) == ascii_small(y@[j]),
        decreases x@.len() - i,
    {
        if small(x[i]) != small(y[i]) {
            assert(ascii_small(x@[i as int]) != ascii_small(y@[i as int]));
            return false;
        }
        i = i + 1;
    }
    true
}

/// The value of the first property with this name.
pub open spec fn property(properties: Seq<(String, String)>, name: Seq<char>) -> Option<Seq<char>>
    decreases properties.len(),
{
    if properties.len() == 0 {
        None
    } else if properties[0].0@ == name {
        Some(properties[0].1@)
    } else {
        property(properties.skip(1), name)
    }
}

/// Looks a property up by its name.
pub fn find_property<'a>(properties: &'a Vec<(String, String)>, name: &str) -> (r: Option<&'a str>)
    ensures
        match r {
            Some(value) => property(properties@, name@) == Some(value@),
            None => property(properties@, name@) is None,
        },
{
    let mut i: usize = 0;
    proof {
        assert(properties@.skip(0) =~= properties@);
    }
    while i < properties.len()
        invariant
            i <= properties@.len(),
            property(properties@, name@) == property(properties@.skip(i as int), name@),
        decreases properties@.len() - i,
    {
        let entry = &properties[i];
        if text_eq(entry.0.as_str(), name) {
            return Some(entry.1.as_str());
        }
        proof {
            assert(properties@.skip(i as int)[0] == properties@[i as int]);
            assert(properties@.skip(i as int).skip(1) =~= properties@.skip(i + 1));
        }
        i = i + 1;
    }
    None
}

/// The decimal digits of `n`.
pub open spec fn decimal(n: nat) -> Seq<char>
    decreases n,
{
    if n < 10 {
        seq![digit(n)]
    } else {
        decimal(n / 10).push(digit(n % 10))
    }
}

/// The decimal form of a number is made of digits.
pub proof fn lemma_decimal_digits(n: nat)
    ensures
        decimal(n).len() > 0,
        forall|i: int| 0 <= i < decimal(n).len() ==> '0' <= #[trigger] decimal(n)[i] <= '9',
    decreases n,
{
    if n >= 10 {
        lemma_decimal_digits(n / 10);
    }
}

/// Numbers with the same decimal form are the same.
pub proof fn lemma_decimal_injective(a: nat, b: nat)
    requires
        decimal(a) == decimal(b),
    ensures
        a == b,
    decreases a,
{
    lemma_decimal_digits(a / 10);
    lemma_decimal_digits(b / 10);
    assert(decimal(a).last() == digit(a % 10));
    assert(decimal(b).last() == digit(b % 10));
    assert(a % 10 == b % 10);
    if a >= 10 {
        assert(decimal(a).len() > 1);
        assert(b >= 10);
        assert(decimal(a).drop_last() =~= decimal(a / 10));
        assert(decimal(b).drop_last() =~= decimal(b / 10));
        lemma_decimal_injective(a / 10, b / 10);
    } else if b >= 10 {
        assert(decimal(b).len() > 1);
    }
}

/// The character of a decimal digit.
pub open spec fn digit(n: nat) -> char {
    (48 + n) as u8 as char
}

/// The small hexadecimal digit of a number below sixteen.
pub open spec fn hex_digit(n: int) -> char {
    if n < 10 {
        (48 + n) as u8 as char
    } else {
        (87 + n) as u8 as char
    }
}

/// The bytes in hexadecimal, two small digits each.
pub open spec fn hex(bytes: Seq<u8>) -> Seq<char>
    decreases bytes.len(),
{
    if bytes.len() == 0 {
        Seq::empty()
    } else {
        hex(bytes.drop_last()) + seq![
            hex_digit(bytes.last() as int / 16),
            hex_digit(bytes.last() as int % 16),
        ]
    }
}

/// `n` in decimal.
pub fn decimal_text(n: u64) -> (r: String)
    ensures
        r@ == decimal(n as nat),
    decreases n,
{
    let low: u8 = 48 + (n % 10) as u8;
    if n < 10 {
        let mut r = String::new();
        r.push(low as char);
        assert(r@ =~= decimal(n as nat));
        r
    } else {
        let mut r = decimal_text(n / 10);
        r.push(low as char);
        r
    }
}

fn hex_char(n: u8) -> (r: char)
    requires
        n < 16,
    ensures
        r == hex_digit(n as int),
{
    if n < 10 {
        (48 + n) as char
    } else {
        (87 + n) as char
    }
}

/// The bytes in hexadecimal.
pub fn hex_text(bytes: &[u8]) -> (r: String)
    ensures
        r@ == hex(bytes@),
{
    let mut r = String::new();
    let mut i: usize = 0;
    assert(bytes@.take(0) =~= Seq::<u8>::empty());
    while i < bytes.len()
        invariant
            i <= bytes@.len(),
            r@ == hex(bytes@.take(i as int)),
        decreases bytes@.len() - i,
    {
        let b: u8 = bytes[i];
        r.push(hex_char(b / 16));
        r.push(hex_char(b % 16));
        proof {
            let t = bytes@.take(i + 1);
            assert(t.drop_last() =~= bytes@.take(i as int));
            assert(t.last() == b);
            assert(r@ =~= hex(t));
        }
        i = i + 1;
    }
    assert(bytes@.take(bytes@.len() as int) =~= bytes@);
    r
}

/// Appends `s` to `text`.
pub fn append_text(text: &mut String, s: &str)
    ensures
        final(text)@ == old(text)@ + s@,
{
    text.append(s);
}

/// Of two texts that differ one comes before the other.
pub proof fn lemma_text_total(a: Seq<char>, b: Seq<char>)
    ensures
        a == b || text_lt(a, b) || text_lt(b, a),
{
    lemma_lex_total(encode_utf8(a), encode_utf8(b));
    if encode_utf8(a) == encode_utf8(b) {
        lemma_utf8_injective(a, b);
    }
}

impl Ranked for Seq<char> {
    open spec fn ranks_before(self, other: Self) -> bool {
        text_lt(self, other)
    }

    proof fn rank_asymmetric(a: Self, b: Self) {
        let x = encode_utf8(a);
        let y = encode_utf8(b);
        if lex_lt(x, y) && lex_lt(y, x) {
            lemma_lex_transitive(x, y, x);
            lemma_lex_irreflexive(x);
        }
    }

    proof fn rank_negatively_transitive(a: Self, b: Self, c: Self) {
        let x = encode_utf8(a);
        let y = encode_utf8(b);
        let z = encode_utf8(c);
        lemma_lex_total(x, y);
        lemma_lex_total(y, z);
        if lex_lt(z, x) {
            if lex_lt(x, y) {
                lemma_lex_transitive(z, x, y);
            } else if lex_lt(y, z) {
                lemma_lex_transitive(y, z, x);
            }
        }
    }
}

impl Ranked for String {
    open spec fn ranks_before(self, other: Self) -> bool {
        self@.ranks_before(other@)
    }

    proof fn rank_asymmetric(a: Self, b: Self) {
        Seq::<char>::rank_asymmetric(a@, b@);
    }

    proof fn rank_negatively_transitive(a: Self, b: Self, c: Self) {
        Seq::<char>::rank_negatively_transitive(a@, b@, c@);
    }
}

impl Sortable for String {
    fn is_before(&self, other: &Self) -> (r: bool) {
        text_is_before(self.as_str(), other.as_str())
    }
}

/// The texts of strings.
pub open spec fn texts_view(texts: Seq<String>) -> Seq<Seq<char>> {
    Seq::new(texts.len(), |i: int| texts[i]@)
}

/// Sorts strings.
pub fn sort_texts(texts: Vec<String>) -> (r: Vec<String>)
    ensures
        texts_view(r@) == stable_sort(texts_view(texts@)),
{
    let ghost before = texts@;
    let r = sort_stably(texts);
    proof {
        lemma_stable_sort_view(
            before,
            r@,
            texts_view(before),
            texts_view(r@),
            |text: String| text@,
        );
        lemma_stable_sort_unique(texts_view(before), texts_view(r@));
    }
    r
}

/// The texts, one after the other, with a separator between.
pub open spec fn joined_text(texts: Seq<Seq<char>>, separator: Seq<char>) -> Seq<char>
    decreases texts.len(),
{
    if texts.len() == 0 {
        Seq::empty()
    } else if texts.len() == 1 {
        texts[0]
    } else {
        joined_text(texts.drop_last(), separator) + separator + texts.last()
    }
}

/// Joins strings with a separator between.
pub fn join_texts(texts: &Vec<String>, separator: &str) -> (r: String)
    ensures
        r@ == joined_text(texts_view(texts@), separator@),
{
    let ghost models = texts_view(texts@);
    let mut r = String::new();
    let mut i: usize = 0;
    assert(models.take(0) =~= Seq::<Seq<char>>::empty());
    while i < texts.len()
        invariant
            i <= texts@.len(),
            models == texts_view(texts@),
            r@ == joined_text(models.take(i as int), separator@),
        decreases texts@.len() - i,
    {
        if i > 0 {
            append_text(&mut r, separator);
        }
        append_text(&mut r, texts[i].as_str());
        proof {
            let t = models.take(i + 1);
            assert(t.drop_last() =~= models.take(i as int));
            assert(t.last() == texts@[i as int]@);
            if i == 0 {
                assert(r@ =~= t[0]);
            }
        }
        i = i + 1;
    }
    assert(models.take(models.len() as int) =~= models);
    r
}

/// A copy of strings.
pub fn clone_texts(texts: &Vec<String>) -> (r: Vec<String>)
    ensures
        texts_view(r@) == texts_view(texts@),
{
    let mut r: Vec<String> = Vec::new();
    let mut i: usize = 0;
    while i < texts.len()
        invariant
            i <= texts@.len(),
            r@.len() == i,
            forall|k: int| 0 <= k < i ==> (#[trigger] r@[k])@ == texts@[k]@,
        decreases texts@.len() - i,
    {
        r.push(texts[i].clone());
        i = i + 1;
    }
    assert(texts_view(r@) =~= texts_view(texts@));
    r
}

} // verus!
