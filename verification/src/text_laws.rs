//! What options of tables and indexes say, and what texts that are made tell.

use vstd::prelude::*;
use vstd::utf8::encode_utf8;

use crate::index_def::{compression_of, direction_text, is_index_meta, key_order_text,
    BtreeIndexBuilder};
use crate::ordered_index::covers_all;
use crate::payload_laws::lemma_hex_len;
use crate::plan_cache_laws::{lacks, lemma_joined_tells, lemma_split_last};
use crate::scalar::TableField;
use crate::table_meta::TableIndexColumnOrder;
use crate::table_scan::mapping_view;
use crate::text::{ascii_small, decimal, digit, hex, hex_digit, joined_text, lemma_decimal_digits,
    property, same_ignoring_case};
use crate::types::BtreeIndexMeta;

verus! {

/// The bytes are a capital and the small form of one ASCII letter.
pub open spec fn are_cases_of_a_letter(a: u8, b: u8) -> bool {
    ||| 'A' as u8 <= a <= 'Z' as u8 && b == a + 32
    ||| 'A' as u8 <= b <= 'Z' as u8 && a == b + 32
}

/// Texts are the same but for the case where, byte by byte, they are the same or have the two cases
/// of an ASCII letter.
pub proof fn law_case_of_letters_is_ignored(a: Seq<char>, b: Seq<char>)
    ensures
        same_ignoring_case(a, b) <==> encode_utf8(a).len() == encode_utf8(b).len() && forall|i: int|
            0 <= i < encode_utf8(a).len() ==> #[trigger] encode_utf8(a)[i] == encode_utf8(b)[i]
                || are_cases_of_a_letter(encode_utf8(a)[i], encode_utf8(b)[i]),
        same_ignoring_case(a, b) == same_ignoring_case(b, a),
{
    let x = encode_utf8(a);
    let y = encode_utf8(b);
    if x.len() == y.len() {
        assert forall|i: int| 0 <= i < x.len() implies (ascii_small(x[i])
            == ascii_small(y[i])) == (#[trigger] x[i] == y[i] || are_cases_of_a_letter(
            x[i],
            y[i],
        )) by {}
    }
}

/// The place of the first option of this name.
pub open spec fn is_option_at(
    options: Seq<(String, String)>,
    name: Seq<char>,
    i: int,
) -> bool {
    &&& 0 <= i < options.len()
    &&& options[i].0@ == name
    &&& forall|k: int| 0 <= k < i ==> (#[trigger] options[k]).0@ != name
}

/// An option has the value that is first given under its name, and none where none is given.
pub proof fn law_option_has_its_first_value(options: Seq<(String, String)>, name: Seq<char>)
    ensures
        match property(options, name) {
            Some(value) => exists|i: int| #[trigger]
                is_option_at(options, name, i) && options[i].1@ == value,
            None => forall|i: int| 0 <= i < options.len() ==> (#[trigger] options[i]).0@ != name,
        },
    decreases options.len(),
{
    if options.len() > 0 {
        let rest = options.skip(1);
        law_option_has_its_first_value(rest, name);
        if options[0].0@ == name {
            assert(is_option_at(options, name, 0));
        } else {
            match property(rest, name) {
                Some(value) => {
                    let i = choose|i: int| #[trigger]
                        is_option_at(rest, name, i) && rest[i].1@ == value;
                    assert forall|k: int| 0 <= k < i + 1 implies (#[trigger] options[k]).0@
                        != name by {
                        if k > 0 {
                            assert(rest[k - 1] == options[k]);
                        }
                    }
                    assert(rest[i] == options[i + 1]);
                    assert(is_option_at(options, name, i + 1));
                },
                None => {
                    assert forall|i: int| 0 <= i < options.len() implies (#[trigger] options[i]).0@
                        != name by {
                        if i > 0 {
                            assert(rest[i - 1] == options[i]);
                        }
                    }
                },
            }
        }
    }
}

/// The rows of an index hold all columns exactly where its options say so, in whatever case.
pub proof fn law_index_covers_all_where_it_says_so(options: Seq<(String, String)>)
    ensures
        covers_all(options) <==> exists|i: int| #[trigger]
            is_option_at(options, "index_covered_type"@, i) && same_ignoring_case(
                options[i].1@,
                "covered_all_columns_in_schema"@,
            ),
{
    law_option_has_its_first_value(options, "index_covered_type"@);
    if exists|i: int| #[trigger]
        is_option_at(options, "index_covered_type"@, i) && same_ignoring_case(
            options[i].1@,
            "covered_all_columns_in_schema"@,
        ) {
        let i = choose|i: int| #[trigger]
            is_option_at(options, "index_covered_type"@, i) && same_ignoring_case(
                options[i].1@,
                "covered_all_columns_in_schema"@,
            );
        lemma_one_first(options, "index_covered_type"@, i);
    }
}

proof fn lemma_one_first(options: Seq<(String, String)>, name: Seq<char>, i: int)
    requires
        is_option_at(options, name, i),
    ensures
        property(options, name) == Some(options[i].1@),
    decreases options.len(),
{
    if i > 0 {
        assert(options[0].0@ != name);
        let rest = options.skip(1);
        assert forall|k: int| 0 <= k < i - 1 implies (#[trigger] rest[k]).0@ != name by {
            assert(rest[k] == options[k + 1]);
        }
        lemma_one_first(rest, name, i - 1);
    }
}

/// The files of an index are compressed as its options say, and else with `zstd`.
pub proof fn law_compression_is_what_the_options_say(options: Seq<(String, String)>)
    ensures
        (forall|i: int| 0 <= i < options.len() ==> (#[trigger] options[i]).0@ != "compression"@)
            ==> compression_of(options) == "zstd"@,
        forall|i: int| #[trigger]
            is_option_at(options, "compression"@, i) ==> compression_of(options) == options[i].1@,
{
    law_option_has_its_first_value(options, "compression"@);
    assert forall|i: int| #[trigger] is_option_at(options, "compression"@, i) implies compression_of(
        options,
    ) == options[i].1@ by {
        lemma_one_first(options, "compression"@, i);
    }
}

/// The number that digits spell, the first of them counting most.
pub open spec fn number_read(digits: Seq<char>) -> int
    decreases digits.len(),
{
    if digits.len() == 0 {
        0
    } else {
        10 * number_read(digits.drop_last()) + (digits.last() as int - '0' as int)
    }
}

/// The decimal form of a number spells the number, with digits only, and does not begin with a zero
/// unless it is one.
pub proof fn law_decimal_spells_the_number(n: nat)
    ensures
        number_read(decimal(n)) == n,
        forall|i: int| 0 <= i < decimal(n).len() ==> '0' <= #[trigger] decimal(n)[i] <= '9',
        decimal(n)[0] == '0' ==> n == 0,
    decreases n,
{
    lemma_decimal_digits(n);
    if n >= 10 {
        law_decimal_spells_the_number(n / 10);
        lemma_decimal_digits(n / 10);
        assert(decimal(n).drop_last() =~= decimal(n / 10));
        assert(decimal(n)[0] == decimal(n / 10)[0]);
        assert(decimal(n).last() == digit(n % 10));
        assert(digit(n % 10) as int == 48 + n % 10);
    } else {
        assert(decimal(n).drop_last() =~= Seq::<char>::empty());
        assert(number_read(Seq::<char>::empty()) == 0);
        assert(decimal(n).last() == digit(n));
        assert(digit(n) as int == 48 + n);
    }
}

/// Bytes are spelled in hexadecimal by two digits each, in their order, that of the high half first.
pub proof fn law_hex_spells_the_bytes(bytes: Seq<u8>, i: int)
    requires
        0 <= i < bytes.len(),
    ensures
        hex(bytes).len() == 2 * bytes.len(),
        hex(bytes)[2 * i] == "0123456789abcdef"@[bytes[i] as int / 16],
        hex(bytes)[2 * i + 1] == "0123456789abcdef"@[bytes[i] as int % 16],
    decreases bytes.len(),
{
    reveal_strlit("0123456789abcdef");
    let head = bytes.drop_last();
    lemma_hex_len(bytes);
    lemma_hex_len(head);
    if i < head.len() {
        law_hex_spells_the_bytes(head, i);
        assert(hex(bytes)[2 * i] == hex(head)[2 * i]);
        assert(hex(bytes)[2 * i + 1] == hex(head)[2 * i + 1]);
        assert(head[i] == bytes[i]);
    } else {
        lemma_hex_digit_is(bytes[i] as int / 16);
        lemma_hex_digit_is(bytes[i] as int % 16);
    }
}

proof fn lemma_hex_digit_is(n: int)
    requires
        0 <= n < 16,
    ensures
        hex_digit(n) == "0123456789abcdef"@[n],
{
    reveal_strlit("0123456789abcdef");
    assert(hex_digit(0) == '0' && hex_digit(1) == '1' && hex_digit(2) == '2' && hex_digit(3) == '3');
    assert(hex_digit(4) == '4' && hex_digit(5) == '5' && hex_digit(6) == '6' && hex_digit(7) == '7');
    assert(hex_digit(8) == '8' && hex_digit(9) == '9' && hex_digit(10) == 'a');
    assert(hex_digit(11) == 'b' && hex_digit(12) == 'c' && hex_digit(13) == 'd');
    assert(hex_digit(14) == 'e' && hex_digit(15) == 'f');
}

/// Texts are joined in their order: two lists of them, one after the other, are joined with the
/// separator between.
pub proof fn law_texts_are_joined_in_order(
    a: Seq<Seq<char>>,
    b: Seq<Seq<char>>,
    separator: Seq<char>,
)
    requires
        a.len() > 0,
        b.len() > 0,
    ensures
        joined_text(a + b, separator) == joined_text(a, separator) + separator + joined_text(
            b,
            separator,
        ),
        joined_text(seq![a[0]], separator) == a[0],
    decreases b.len(),
{
    let all = a + b;
    assert(all.last() == b.last());
    if b.len() == 1 {
        assert(all.drop_last() =~= a);
        assert(joined_text(b, separator) == b[0]);
    } else {
        let head = b.drop_last();
        assert(all.drop_last() =~= a + head);
        law_texts_are_joined_in_order(a, head, separator);
        assert(joined_text(all, separator) == joined_text(a + head, separator) + separator
            + b.last());
        assert(joined_text(all, separator) =~= joined_text(a, separator) + separator + joined_text(
            b,
            separator,
        ));
    }
}

proof fn lemma_direction_lacks(name: Seq<char>, order: TableIndexColumnOrder)
    requires
        lacks(name, ','),
    ensures
        lacks(name + direction_text(order), ','),
{
    reveal_strlit(" ASC");
    reveal_strlit(" DESC");
}

proof fn lemma_direction_tells(
    a: Seq<char>,
    x: TableIndexColumnOrder,
    b: Seq<char>,
    y: TableIndexColumnOrder,
)
    requires
        a + direction_text(x) == b + direction_text(y),
    ensures
        a == b,
        x == y,
{
    reveal_strlit(" ASC");
    reveal_strlit(" DESC");
    reveal_strlit("ASC");
    reveal_strlit("DESC");
    let space = seq![' '];
    let p = match x {
        TableIndexColumnOrder::Asc => "ASC"@,
        TableIndexColumnOrder::Desc => "DESC"@,
    };
    let q = match y {
        TableIndexColumnOrder::Asc => "ASC"@,
        TableIndexColumnOrder::Desc => "DESC"@,
    };
    assert(direction_text(x) =~= space + p);
    assert(direction_text(y) =~= space + q);
    assert(a + direction_text(x) =~= a + space + p);
    assert(b + direction_text(y) =~= b + space + q);
    lemma_split_last(a, p, b, q, ' ');
    assert("ASC"@[0] == 'A' && "DESC"@[0] == 'D');
}

/// What a file says of the order of its keys tells the key columns, in their order, and the direction
/// of each. No name holds the sign that separates them.
pub proof fn law_key_order_text_tells_columns_and_directions(
    a: Seq<(TableField, TableIndexColumnOrder)>,
    b: Seq<(TableField, TableIndexColumnOrder)>,
    i: int,
)
    requires
        a.len() > 0,
        b.len() > 0,
        key_order_text(a) == key_order_text(b),
        forall|k: int| 0 <= k < a.len() ==> lacks((#[trigger] a[k]).0.name@, ','),
        forall|k: int| 0 <= k < b.len() ==> lacks((#[trigger] b[k]).0.name@, ','),
    ensures
        a.len() == b.len(),
        0 <= i < a.len() ==> a[i].0.name@ == b[i].0.name@ && a[i].1 == b[i].1,
{
    reveal_strlit(",");
    assert(","@ =~= seq![',']);
    let x = Seq::new(a.len(), |k: int| a[k].0.name@ + direction_text(a[k].1));
    let y = Seq::new(b.len(), |k: int| b[k].0.name@ + direction_text(b[k].1));
    assert forall|k: int| 0 <= k < x.len() implies lacks(#[trigger] x[k], ',') by {
        assert(lacks(a[k].0.name@, ','));
        lemma_direction_lacks(a[k].0.name@, a[k].1);
    }
    assert forall|k: int| 0 <= k < y.len() implies lacks(#[trigger] y[k], ',') by {
        assert(lacks(b[k].0.name@, ','));
        lemma_direction_lacks(b[k].0.name@, b[k].1);
    }
    assert(key_order_text(a) == joined_text(x, ","@));
    assert(key_order_text(b) == joined_text(y, ","@));
    lemma_joined_tells(x, y, ',');
    if 0 <= i < a.len() {
        assert(x[i] == y[i]);
        lemma_direction_tells(a[i].0.name@, a[i].1, b[i].0.name@, b[i].1);
    }
}

/// A file tells the columns of its rows, in their order and each with a value for every row, and the
/// index that it is of.
pub proof fn law_index_meta_tells_the_index(
    meta: BtreeIndexMeta,
    builder: BtreeIndexBuilder,
    num_rows: usize,
    i: int,
)
    requires
        is_index_meta(meta, builder, num_rows),
    ensures
        meta.columns@.len() == builder.payload_fields@.len(),
        0 <= i < meta.columns@.len() ==> meta.columns@[i].0@ == builder.payload_fields@[i].name@
            && meta.columns@[i].1.num_values == num_rows,
        ({
            let told = mapping_view(meta.metadata@);
            &&& told.contains_key("index_name"@) && told["index_name"@] == builder.name@
            &&& told.contains_key("index_version"@) && told["index_version"@] == builder.version@
        }),
{
    reveal_strlit("index_name");
    reveal_strlit("index_version");
    reveal_strlit("encoding");
    assert("index_name"@.len() != "index_version"@.len());
    assert("encoding"@[0] == 'e' && "index_name"@[0] == 'i' && "index_version"@[0] == 'i');
    if 0 <= i < meta.columns@.len() {
        let column = meta.columns@[i];
    }
}

} // verus!
