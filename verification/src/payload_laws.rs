//! What a scan gives of decoded payloads, and the keys that parts of an index are cached under.

use vstd::prelude::*;
use vstd::utf8::encode_utf8;

use crate::digest::sha256;
use crate::filter::{field_index, BtreeScanError};
use crate::loader::block_key;
use crate::ordered_laws::{has_field, lemma_field_index};
use crate::payload::{output_gives, payload_key, resorted, resorted_block, row_weight,
    scalar_weight, scalars_weight};
use crate::plan_cache_laws::{lacks, lemma_split_first, lemma_split_last};
use crate::scalar::{ScalarModel, TableField};
use crate::select::{block_outcome, is_first_misfit, transposed, PayloadModel};
use crate::text::{decimal, hex, hex_digit, lemma_decimal_digits, lemma_decimal_injective};
use crate::types::BlockModel;

verus! {

/// The column holds, row by row, the values of the field with this name.
pub open spec fn holds_field(
    column: Seq<ScalarModel>,
    rows: Seq<Seq<ScalarModel>>,
    fields: Seq<TableField>,
    name: Seq<char>,
    place: int,
) -> bool {
    &&& 0 <= place < fields.len()
    &&& fields[place].name@ == name
    &&& column.len() == rows.len()
    &&& forall|i: int| 0 <= i < rows.len() ==> #[trigger] column[i] == rows[i][place]
}

proof fn lemma_resorted(
    columns: Seq<Seq<ScalarModel>>,
    fields: Seq<TableField>,
    names: Seq<Seq<char>>,
    c: int,
)
    requires
        resorted(columns, fields, names) is Ok,
        0 <= c < names.len(),
    ensures
        resorted(columns, fields, names)->Ok_0.len() == names.len(),
        exists|place: int|
            0 <= place < fields.len() && (#[trigger] fields[place]).name@ == names[c] && resorted(
                columns,
                fields,
                names,
            )->Ok_0[c] == columns[place],
    decreases names.len(),
{
    let head = names.drop_last();
    let n = names.len() - 1;
    lemma_field_index(fields, names[n]);
    if c < n {
        assert(head[c] == names[c]);
        lemma_resorted(columns, fields, head, c);
        let place = choose|place: int|
            0 <= place < fields.len() && (#[trigger] fields[place]).name@ == head[c] && resorted(
                columns,
                fields,
                head,
            )->Ok_0[c] == columns[place];
        assert(fields[place].name@ == names[c]);
    } else {
        if n > 0 {
            lemma_resorted(columns, fields, head, 0);
        }
        let place = field_index(fields, names[n])->Some_0;
        assert(fields[place].name@ == names[c]);
    }
}

proof fn lemma_resorted_len(
    columns: Seq<Seq<ScalarModel>>,
    fields: Seq<TableField>,
    names: Seq<Seq<char>>,
)
    ensures
        resorted(columns, fields, names) matches Ok(sorted) ==> sorted.len() == names.len(),
        resorted(columns, fields, names) matches Err(missing) ==> names.len() <= usize::MAX ==> missing
            < names.len() && forall|place: int|
            0 <= place < fields.len() ==> (#[trigger] fields[place]).name@ != names[missing as int],
    decreases names.len(),
{
    if names.len() > 0 {
        lemma_resorted_len(columns, fields, names.drop_last());
        let n = names.len() - 1;
        lemma_field_index(fields, names[n]);
        if field_index(fields, names[n]) is None {
            assert forall|place: int| 0 <= place < fields.len() implies (
            #[trigger] fields[place]).name@ != names[n] by {
                if fields[place].name@ == names[n] {
                    assert(has_field(fields, names[n]));
                }
            }
        }
    }
}

/// The block that a scan gives has a column for each name of the output, in their order, and each
/// holds, for every row, the value of the field with its name. There is none where there are no rows.
pub proof fn law_output_holds_the_values_by_name(
    fields: Seq<TableField>,
    rows: Seq<Seq<ScalarModel>>,
    names: Seq<Seq<char>>,
    r: Option<PayloadModel>,
    c: int,
)
    requires
        output_gives(fields, rows, names, Ok::<_, BtreeScanError>(r)),
        0 <= c < names.len(),
    ensures
        r is Some <==> rows.len() > 0,
        r matches Some(block) ==> {
            &&& block.0 == rows.len()
            &&& block.1.len() == names.len()
            &&& exists|place: int| #[trigger]
                holds_field(block.1[c], rows, fields, names[c], place)
            &&& forall|i: int| 0 <= i < rows.len() ==> (#[trigger] rows[i]).len() == fields.len()
        },
{
    if rows.len() > 0 {
        let block = choose|block: Result<PayloadModel, BtreeScanError>| #[trigger]
            block_outcome(rows, fields.len(), block) && resorted_block(
                fields,
                names,
                block,
                Ok::<_, BtreeScanError>(r),
            );
        let columns = block->Ok_0.1;
        let given = r->Some_0;
        lemma_resorted(columns, fields, names, c);
        let place = choose|place: int|
            0 <= place < fields.len() && (#[trigger] fields[place]).name@ == names[c] && resorted(
                columns,
                fields,
                names,
            )->Ok_0[c] == columns[place];
        assert(fields.len() > 0);
        assert(columns == transposed(rows, fields.len()));
        assert(given.1[c] == columns[place]);
        assert(holds_field(given.1[c], rows, fields, names[c], place));
        assert forall|i: int| 0 <= i < rows.len() implies (#[trigger] rows[i]).len()
            == fields.len() by {
            if rows[i].len() != fields.len() {
                lemma_first_misfit(rows, fields.len() as int, i);
            }
        }
    }
}

proof fn lemma_first_misfit(rows: Seq<Seq<ScalarModel>>, width: int, i: int)
    requires
        0 <= i < rows.len(),
        rows[i].len() != width,
    ensures
        exists|k: int| is_first_misfit(rows, width, k),
    decreases i,
{
    if exists|k: int| 0 <= k < i && (#[trigger] rows[k]).len() != width {
        let k = choose|k: int| 0 <= k < i && (#[trigger] rows[k]).len() != width;
        lemma_first_misfit(rows, width, k);
    } else {
        assert(is_first_misfit(rows, width, i));
    }
}

/// A scan fails for its output only where a name is not one of a field, and names it; or where a row
/// does not have a value for each field.
pub proof fn law_output_fails_for_what_is_missing(
    fields: Seq<TableField>,
    rows: Seq<Seq<ScalarModel>>,
    names: Seq<Seq<char>>,
    e: BtreeScanError,
)
    requires
        output_gives(fields, rows, names, Err::<Option<PayloadModel>, _>(e)),
        names.len() <= usize::MAX,
    ensures
        match e {
            BtreeScanError::UnknownOutputColumn { column } => column < names.len() && forall|
                place: int,
            |
                0 <= place < fields.len() ==> (#[trigger] fields[place]).name@
                    != names[column as int],
            _ => exists|i: int|
                0 <= i < rows.len() && (#[trigger] rows[i]).len() != fields.len(),
        },
{
    let block = choose|block: Result<PayloadModel, BtreeScanError>| #[trigger]
        block_outcome(rows, fields.len(), block) && resorted_block(
            fields,
            names,
            block,
            Err::<Option<PayloadModel>, _>(e),
        );
    match block {
        Ok((_, columns)) => {
            lemma_resorted_len(columns, fields, names);
        },
        Err(_) => {
            if fields.len() == 0 {
                let i = choose|i: int| 0 <= i < rows.len() && (#[trigger] rows[i]).len() > 0;
                assert(rows[i].len() != fields.len());
            } else {
                let i = choose|i: int| is_first_misfit(rows, fields.len() as int, i);
                assert(rows[i].len() != fields.len());
            }
        },
    }
}

/// What a value takes grows by what it holds: a byte string by its bytes, a text by those of its
/// spelling, a tuple by its values; a row by each of its values, and the room for it.
pub proof fn law_weight_grows_by_what_is_held(
    bytes: Seq<u8>,
    text: Seq<char>,
    values: Seq<ScalarModel>,
    value: ScalarModel,
    size: nat,
)
    ensures
        scalar_weight(ScalarModel::Null, size) == size,
        scalar_weight(ScalarModel::Binary(bytes), size) == size + bytes.len(),
        scalar_weight(ScalarModel::Bitmap(bytes), size) == size + bytes.len(),
        scalar_weight(ScalarModel::Variant(bytes), size) == size + bytes.len(),
        scalar_weight(ScalarModel::Geometry(bytes), size) == size + bytes.len(),
        scalar_weight(ScalarModel::String(text), size) == size + encode_utf8(text).len(),
        scalar_weight(ScalarModel::Tuple(values.push(value)), size) == scalar_weight(
            ScalarModel::Tuple(values),
            size,
        ) + scalar_weight(value, size),
        row_weight(values.push(value), size) == row_weight(values, size) + scalar_weight(value, size)
            + size,
        row_weight(Seq::empty(), size) == 0,
{
    let more = values.push(value);
    assert(more.drop_last() =~= values);
    assert(scalars_weight(more, size) == scalars_weight(values, size) + scalar_weight(value, size));
    assert((values.len() + 1) * size == values.len() * size + size) by (nonlinear_arith);
}

proof fn lemma_digits_lack(n: nat, c: char)
    requires
        !('0' <= c <= '9'),
    ensures
        lacks(decimal(n), c),
{
    lemma_decimal_digits(n);
}

/// The key of a cached data block tells the file, and where in it the block begins and how long it
/// is.
pub proof fn law_block_key_tells_the_block(
    a: Seq<char>,
    x: BlockModel,
    b: Seq<char>,
    y: BlockModel,
)
    requires
        block_key(a, x) == block_key(b, y),
    ensures
        a == b,
        x.2 == y.2,
        x.3 == y.3,
{
    reveal_strlit("#");
    reveal_strlit("+");
    let hash = seq!['#'];
    let plus = seq!['+'];
    assert("#"@ =~= hash);
    assert("+"@ =~= plus);
    lemma_digits_lack(x.2 as nat, '#');
    lemma_digits_lack(y.2 as nat, '#');
    lemma_digits_lack(x.3 as nat, '+');
    lemma_digits_lack(y.3 as nat, '+');
    lemma_split_last(
        a + hash + decimal(x.2 as nat),
        decimal(x.3 as nat),
        b + hash + decimal(y.2 as nat),
        decimal(y.3 as nat),
        '+',
    );
    lemma_split_last(a, decimal(x.2 as nat), b, decimal(y.2 as nat), '#');
    lemma_decimal_injective(x.2 as nat, y.2 as nat);
    lemma_decimal_injective(x.3 as nat, y.3 as nat);
}

proof fn lemma_hex_digit(m: int, n: int)
    requires
        0 <= m < 16,
        0 <= n < 16,
        hex_digit(m) == hex_digit(n),
    ensures
        m == n,
{
}

/// Bytes that are spelled alike are alike.
pub proof fn law_hex_tells_bytes(a: Seq<u8>, b: Seq<u8>)
    requires
        hex(a) == hex(b),
    ensures
        a == b,
    decreases a.len(),
{
    lemma_hex_len(a);
    lemma_hex_len(b);
    if a.len() > 0 {
        let p = a.drop_last();
        let q = b.drop_last();
        let n = hex(a).len();
        lemma_hex_len(p);
        lemma_hex_len(q);
        assert(hex(p) =~= hex(a).take(n - 2));
        assert(hex(q) =~= hex(b).take(n - 2));
        law_hex_tells_bytes(p, q);
        assert(hex(a)[n - 2] == hex_digit(a.last() as int / 16));
        assert(hex(b)[n - 2] == hex_digit(b.last() as int / 16));
        assert(hex(a)[n - 1] == hex_digit(a.last() as int % 16));
        assert(hex(b)[n - 1] == hex_digit(b.last() as int % 16));
        lemma_hex_digit(a.last() as int / 16, b.last() as int / 16);
        lemma_hex_digit(a.last() as int % 16, b.last() as int % 16);
        assert(a =~= p.push(a.last()));
        assert(b =~= q.push(b.last()));
    } else {
        assert(a =~= b);
    }
}

/// Each byte takes two digits.
pub proof fn lemma_hex_len(a: Seq<u8>)
    ensures
        hex(a).len() == 2 * a.len(),
    decreases a.len(),
{
    if a.len() > 0 {
        lemma_hex_len(a.drop_last());
    }
}

/// The key of a cached payload tells its length and its digest.
pub proof fn law_payload_key_tells_length_and_digest(a: Seq<u8>, b: Seq<u8>)
    requires
        payload_key(a) == payload_key(b),
    ensures
        a.len() == b.len(),
        sha256(a) == sha256(b),
{
    reveal_strlit(":");
    assert(":"@ =~= seq![':']);
    lemma_digits_lack(a.len(), ':');
    lemma_digits_lack(b.len(), ':');
    lemma_split_first(decimal(a.len()), hex(sha256(a)), decimal(b.len()), hex(sha256(b)), ':');
    lemma_decimal_injective(a.len(), b.len());
    law_hex_tells_bytes(sha256(a), sha256(b));
}

} // verus!
