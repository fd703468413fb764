//! The decoded payloads of rows: how they are cached, and the block that a scan gives of them.

use vstd::prelude::*;
use vstd::utf8::encode_utf8;

use crate::digest::{digest_bytes, sha256};
use crate::filter::{field_index, index_of, BtreeScanError};
use crate::scalar::{clone_scalars, lemma_scalars_view, scalar_view, scalars_view, Scalar,
    ScalarModel, TableField};
use crate::select::{block_outcome, payload_rows_to_block, table_view, PayloadBlock, PayloadModel};
use crate::text::{append_text, decimal, decimal_text, hex, texts_view};

verus! {

/// The key under which a decoded payload is cached: its length and its digest.
pub open spec fn payload_key(payload: Seq<u8>) -> Seq<char> {
    decimal(payload.len()) + ":"@ + hex(sha256(payload))
}

/// The key under which a decoded payload is cached.
pub fn decoded_payload_cache_key(payload: &[u8]) -> (r: String)
    ensures
        r@ == payload_key(payload@),
{
    let mut r = decimal_text(payload.len() as u64);
    append_text(&mut r, ":");
    append_text(&mut r, digest_bytes(payload).as_str());
    r
}

/// The bytes that a value takes, where a value itself takes `size`: what it holds is counted for
/// texts, byte strings and tuples.
pub open spec fn scalar_weight(scalar: ScalarModel, size: nat) -> nat
    decreases scalar,
{
    size + match scalar {
        ScalarModel::String(text) => encode_utf8(text).len(),
        ScalarModel::Binary(bytes) => bytes.len(),
        ScalarModel::Bitmap(bytes) => bytes.len(),
        ScalarModel::Variant(bytes) => bytes.len(),
        ScalarModel::Geometry(bytes) => bytes.len(),
        ScalarModel::Tuple(values) => scalars_weight(values, size),
        _ => 0,
    }
}

/// The bytes that several values take.
pub open spec fn scalars_weight(scalars: Seq<ScalarModel>, size: nat) -> nat
    decreases scalars,
{
    if scalars.len() == 0 {
        0
    } else {
        scalars_weight(scalars.drop_last(), size) + scalar_weight(scalars.last(), size)
    }
}

/// The bytes that a decoded row takes.
pub open spec fn row_weight(row: Seq<ScalarModel>, size: nat) -> nat {
    scalars_weight(row, size) + row.len() * size
}

proof fn lemma_scalars_weight_grows(scalars: Seq<ScalarModel>, size: nat, n: int)
    requires
        0 <= n <= scalars.len(),
    ensures
        scalars_weight(scalars.take(n), size) <= scalars_weight(scalars, size),
    decreases scalars.len(),
{
    if n == scalars.len() {
        assert(scalars.take(n) =~= scalars);
    } else {
        assert(scalars.drop_last().take(n) =~= scalars.take(n));
        lemma_scalars_weight_grows(scalars.drop_last(), size, n);
    }
}

fn scalars_mem_bytes(scalars: &Vec<Scalar>, size: usize) -> (r: usize)
    requires
        scalars_weight(scalars_view(scalars@), size as nat) <= usize::MAX,
    ensures
        r == scalars_weight(scalars_view(scalars@), size as nat),
    decreases scalars,
{
    let ghost models = scalars_view(scalars@);
    proof {
        lemma_scalars_view(scalars@);
        assert(models.take(0) =~= Seq::<ScalarModel>::empty());
    }
    let mut total: usize = 0;
    let mut i: usize = 0;
    while i < scalars.len()
        invariant
            i <= scalars@.len(),
            models == scalars_view(scalars@),
            models.len() == scalars@.len(),
            forall|k: int|
                0 <= k < scalars@.len() ==> #[trigger] models[k] == scalar_view(scalars@[k]),
            scalars_weight(models, size as nat) <= usize::MAX,
            total == scalars_weight(models.take(i as int), size as nat),
        decreases scalars@.len() - i,
    {
        proof {
            let t = models.take(i + 1);
            assert(t.drop_last() =~= models.take(i as int));
            assert(t.last() == scalars@[i as int]@);
            lemma_scalars_weight_grows(models, size as nat, i + 1);
        }
        assert(decreases_to!(scalars => scalars[i as int]));
        total = total + scalar_mem_bytes(&scalars[i], size);
        i = i + 1;
    }
    assert(models.take(models.len() as int) =~= models);
    total
}

/// The bytes that a value takes, where a value itself takes `size`.
pub fn scalar_mem_bytes(scalar: &Scalar, size: usize) -> (r: usize)
    requires
        scalar_weight(scalar@, size as nat) <= usize::MAX,
    ensures
        r == scalar_weight(scalar@, size as nat),
    decreases scalar,
{
    match scalar {
        Scalar::String(text) => {
            let held: usize = text.as_str().as_bytes().len();
            size + held
        },
        Scalar::Binary(bytes) => size + bytes.len(),
        Scalar::Bitmap(bytes) => size + bytes.len(),
        Scalar::Variant(bytes) => size + bytes.len(),
        Scalar::Geometry(bytes) => size + bytes.len(),
        Scalar::Tuple(values) => size + scalars_mem_bytes(values, size),
        _ => size,
    }
}

/// The bytes that a decoded row takes, where a value itself takes `size`.
pub fn scalar_rows_mem_bytes(row: &Vec<Scalar>, size: usize) -> (r: usize)
    requires
        row_weight(scalars_view(row@), size as nat) <= usize::MAX,
    ensures
        r == row_weight(scalars_view(row@), size as nat),
{
    proof {
        lemma_scalars_view(row@);
    }
    scalars_mem_bytes(row, size) + row.len() * size
}

/// The columns of a block in another order; the first name that the fields do not have is the error.
pub open spec fn resorted(
    columns: Seq<Seq<ScalarModel>>,
    fields: Seq<TableField>,
    names: Seq<Seq<char>>,
) -> Result<Seq<Seq<ScalarModel>>, usize>
    decreases names.len(),
{
    if names.len() == 0 {
        Ok(Seq::empty())
    } else {
        match resorted(columns, fields, names.drop_last()) {
            Err(missing) => Err(missing),
            Ok(before) => match field_index(fields, names.last()) {
                None => Err((names.len() - 1) as usize),
                Some(place) => Ok(before.push(columns[place])),
            },
        }
    }
}

proof fn lemma_resorted_fails(
    columns: Seq<Seq<ScalarModel>>,
    fields: Seq<TableField>,
    names: Seq<Seq<char>>,
    n: int,
)
    requires
        0 <= n <= names.len(),
        resorted(columns, fields, names.take(n)) is Err,
    ensures
        resorted(columns, fields, names) == resorted(columns, fields, names.take(n)),
    decreases names.len(),
{
    if n == names.len() {
        assert(names.take(n) =~= names);
    } else {
        assert(names.drop_last().take(n) =~= names.take(n));
        lemma_resorted_fails(columns, fields, names.drop_last(), n);
    }
}

/// The block that a scan gives may be this: nothing where there are no rows.
pub open spec fn output_gives(
    fields: Seq<TableField>,
    rows: Seq<Seq<ScalarModel>>,
    names: Seq<Seq<char>>,
    r: Result<Option<PayloadModel>, BtreeScanError>,
) -> bool {
    if rows.len() == 0 {
        r == Ok::<Option<PayloadModel>, BtreeScanError>(None)
    } else {
        exists|block: Result<PayloadModel, BtreeScanError>| #[trigger]
            block_outcome(rows, fields.len(), block) && resorted_block(fields, names, block, r)
    }
}

/// The block with its columns in the order of the output.
pub open spec fn resorted_block(
    fields: Seq<TableField>,
    names: Seq<Seq<char>>,
    block: Result<PayloadModel, BtreeScanError>,
    r: Result<Option<PayloadModel>, BtreeScanError>,
) -> bool {
    match block {
        Err(e) => r == Err::<Option<PayloadModel>, _>(e),
        Ok((num_rows, columns)) => match resorted(columns, fields, names) {
            Err(missing) => r == Err::<Option<PayloadModel>, _>(
                BtreeScanError::UnknownOutputColumn { column: missing },
            ),
            Ok(sorted) => r == Ok::<_, BtreeScanError>(Some((num_rows, sorted))),
        },
    }
}

/// The model of the block that a scan gives.
pub open spec fn output_view(r: Result<Option<PayloadBlock>, BtreeScanError>) -> Result<
    Option<PayloadModel>,
    BtreeScanError,
> {
    match r {
        Ok(Some(block)) => Ok(Some(block@)),
        Ok(None) => Ok(None),
        Err(e) => Err(e),
    }
}

/// The block that a scan gives of its decoded rows, with its columns in the order of the output.
pub fn build_output_block(
    payload_fields: &Vec<TableField>,
    rows: &Vec<Vec<Scalar>>,
    output_names: &Vec<String>,
) -> (r: Result<Option<PayloadBlock>, BtreeScanError>)
    ensures
        output_gives(
            payload_fields@,
            table_view(rows@),
            texts_view(output_names@),
            output_view(r),
        ),
{
    if rows.len() == 0 {
        return Ok(None);
    }
    let ghost fields = payload_fields@;
    let ghost names = texts_view(output_names@);
    let block = match payload_rows_to_block(payload_fields, rows) {
        Ok(block) => block,
        Err(e) => {
            assert(block_outcome(table_view(rows@), fields.len(), Err::<PayloadModel, _>(e)));
            assert(resorted_block(
                fields,
                names,
                Err::<PayloadModel, _>(e),
                Err::<Option<PayloadModel>, _>(e),
            ));
            return Err(e);
        },
    };
    let ghost all = block@.1;
    assert(block_outcome(
        table_view(rows@),
        fields.len(),
        Ok::<PayloadModel, BtreeScanError>(block@),
    ));
    assert(all.len() == fields.len());
    let mut columns: Vec<Vec<Scalar>> = Vec::new();
    let mut i: usize = 0;
    assert(names.take(0) =~= Seq::<Seq<char>>::empty());
    assert(table_view(columns@) =~= Seq::<Seq<ScalarModel>>::empty());
    while i < output_names.len()
        invariant
            i <= output_names@.len(),
            fields == payload_fields@,
            names == texts_view(output_names@),
            all == block@.1,
            all.len() == fields.len(),
            block_outcome(
                table_view(rows@),
                fields.len(),
                Ok::<PayloadModel, BtreeScanError>(block@),
            ),
            table_view(rows@).len() > 0,
            resorted(all, fields, names.take(i as int)) == Ok::<_, usize>(table_view(columns@)),
        decreases output_names@.len() - i,
    {
        let ghost before = columns@;
        proof {
            let t = names.take(i + 1);
            assert(t.drop_last() =~= names.take(i as int));
            assert(t.last() == output_names@[i as int]@);
        }
        match index_of(payload_fields, output_names[i].as_str()) {
            None => {
                let e = BtreeScanError::UnknownOutputColumn { column: i };
                proof {
                    lemma_resorted_fails(all, fields, names, i + 1);
                }
                assert(resorted_block(
                    fields,
                    names,
                    Ok::<PayloadModel, BtreeScanError>(block@),
                    Err::<Option<PayloadModel>, _>(e),
                ));
                return Err(e);
            },
            Some(place) => {
                assert(block.columns@.len() == all.len());
                columns.push(clone_scalars(&block.columns[place]));
                assert(table_view(columns@) =~= table_view(before).push(all[place as int]));
            },
        }
        i = i + 1;
    }
    assert(names.take(names.len() as int) =~= names);
    let output = PayloadBlock { num_rows: block.num_rows, columns };
    assert(resorted_block(
        fields,
        names,
        Ok::<PayloadModel, BtreeScanError>(block@),
        Ok::<_, BtreeScanError>(Some(output@)),
    ));
    Ok(Some(output))
}

/// The length of an index file that is known before it is read, where the table has one index.
pub fn index_len_hint(use_block_btree_index_size_hint: bool, btree_index_size: Option<u64>) -> (r:
    Option<u64>)
    ensures
        r == if use_block_btree_index_size_hint {
            btree_index_size
        } else {
            None
        },
{
    if use_block_btree_index_size_hint {
        btree_index_size
    } else {
        None
    }
}

} // verus!
