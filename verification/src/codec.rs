//! The outside crates behind the file format: checksums, shared byte buffers, and the binary
//! encoding of the records of a file.

use std::collections::BTreeMap;

use vstd::prelude::*;

use crate::record::{block_records_view, footer_record_view, meta_record_view};
use crate::record::{BlockRecord, FooterRecord, MetaRecord, SectionRecord};
use crate::types::{properties_ascend, rows_view};
use crate::types::{BlockModel, FileMetaModel, FilterModel, FooterModel, MetaModel, RowModel};
use crate::types::{BtreeIndexFilterBlock, BtreeIndexRow};

verus! {

/// A reference-counted byte buffer.
#[verifier::external_type_specification]
#[verifier::external_body]
pub struct ExBytes(bytes::Bytes);

/// Why a record could not be encoded.
#[verifier::external_type_specification]
#[verifier::external_body]
pub struct ExEncodeError(bincode::error::EncodeError);

/// Why a record could not be decoded.
#[verifier::external_type_specification]
#[verifier::external_body]
pub struct ExDecodeError(bincode::error::DecodeError);

/// The bytes that a buffer holds.
pub uninterp spec fn bytes_of(buffer: bytes::Bytes) -> Seq<u8>;

/// `Bytes::as_ref` lends the bytes that the buffer holds.
#[verifier::external_body]
pub(crate) fn bytes_as_slice(buffer: &bytes::Bytes) -> (r: &[u8])
    ensures
        r@ == bytes_of(*buffer),
{
    buffer.as_ref()
}

/// `Bytes::from` on a vector takes over its bytes unchanged.
#[verifier::external_body]
pub(crate) fn bytes_from_vec(bytes: Vec<u8>) -> (r: bytes::Bytes)
    ensures
        bytes_of(r) == bytes@,
{
    bytes::Bytes::from(bytes)
}

/// The CRC-32 checksum of a byte string.
pub uninterp spec fn crc32(bytes: Seq<u8>) -> u32;

/// The byte strings are of one length, and differ in the byte at this place alone.
pub open spec fn differ_at(a: Seq<u8>, b: Seq<u8>, i: int) -> bool {
    &&& a.len() == b.len()
    &&& 0 <= i < a.len()
    &&& a[i] != b[i]
    &&& forall|j: int| 0 <= j < a.len() && j != i ==> a[j] == b[j]
}

/// `crc32fast::hash` computes the CRC-32 checksum of its argument. The state of 32 bits takes the
/// bytes in one by one; a step from different states, or with different bytes, ends in different
/// states. So the checksums of byte strings that differ in a single byte differ.
#[verifier::external_body]
pub(crate) fn crc32_of(bytes: &[u8]) -> (r: u32)
    ensures
        r == crc32(bytes@),
        forall|other: Seq<u8>, i: int| #[trigger] differ_at(bytes@, other, i) ==> r != crc32(other),
{
    crc32fast::hash(bytes)
}

/// The encoded form of the rows of a data block.
pub uninterp spec fn encoded_rows(rows: Seq<RowModel>) -> Seq<u8>;

/// The rows at the start of a byte string and the number of bytes that they take, where it starts
/// with encoded rows.
pub uninterp spec fn decoded_rows(bytes: Seq<u8>) -> Option<(Seq<RowModel>, int)>;

/// `bincode::serde::encode_to_vec`, in the standard configuration, on a sequence of pairs of byte
/// strings: it always succeeds, and decoding what it wrote gives the pairs back and reads every
/// byte.
#[verifier::external_body]
pub(crate) fn encode_rows(rows: &[BtreeIndexRow]) -> (r: Result<
    Vec<u8>,
    bincode::error::EncodeError,
>)
    ensures
        r is Ok,
        r->Ok_0@ == encoded_rows(rows_view(rows@)),
        decoded_rows(r->Ok_0@) == Some((rows_view(rows@), r->Ok_0@.len() as int)),
{
    let pairs: Vec<(&Vec<u8>, &Vec<u8>)> = rows.iter().map(
        |row| (&row.encoded_key, &row.encoded_row_payload),
    ).collect();
    bincode::serde::encode_to_vec(pairs, bincode::config::standard())
}

/// `bincode::serde::decode_from_slice`, in the standard configuration, for a sequence of pairs of
/// byte strings: the pairs and the number of bytes read, or an error.
#[verifier::external_body]
pub(crate) fn decode_rows(bytes: &[u8]) -> (r: Result<
    (Vec<BtreeIndexRow>, usize),
    bincode::error::DecodeError,
>)
    ensures
        r is Ok <==> decoded_rows(bytes@) is Some,
        r matches Ok(v) ==> decoded_rows(bytes@) == Some((rows_view(v.0@), v.1 as int)),
{
    let (pairs, len): (Vec<(Vec<u8>, Vec<u8>)>, usize) = bincode::serde::decode_from_slice(
        bytes,
        bincode::config::standard(),
    )?;
    let rows = pairs.into_iter().map(
        |(encoded_key, encoded_row_payload)| BtreeIndexRow { encoded_key, encoded_row_payload },
    ).collect();
    Ok((rows, len))
}

/// The encoded form of the filter block.
pub uninterp spec fn encoded_filter(filter: FilterModel) -> Seq<u8>;

/// The filter block at the start of a byte string and the number of bytes that it takes.
pub uninterp spec fn decoded_filter(bytes: Seq<u8>) -> Option<(FilterModel, int)>;

/// `bincode::serde::encode_to_vec` on a byte string and a number: it always succeeds, and decoding
/// what it wrote gives them back and reads every byte.
#[verifier::external_body]
pub(crate) fn encode_filter(filter: &BtreeIndexFilterBlock) -> (r: Result<
    Vec<u8>,
    bincode::error::EncodeError,
>)
    ensures
        r is Ok,
        r->Ok_0@ == encoded_filter(filter@),
        decoded_filter(r->Ok_0@) == Some((filter@, r->Ok_0@.len() as int)),
{
    let record = (&filter.equality_prefix_bloom, filter.equality_prefix_count);
    bincode::serde::encode_to_vec(record, bincode::config::standard())
}

/// `bincode::serde::decode_from_slice` for a byte string and a number: both and the number of
/// bytes read, or an error.
#[verifier::external_body]
pub(crate) fn decode_filter(bytes: &[u8]) -> (r: Result<
    (BtreeIndexFilterBlock, usize),
    bincode::error::DecodeError,
>)
    ensures
        r is Ok <==> decoded_filter(bytes@) is Some,
        r matches Ok(v) ==> decoded_filter(bytes@) == Some((v.0@, v.1 as int)),
{
    let (record, len): ((Vec<u8>, u64), usize) = bincode::serde::decode_from_slice(
        bytes,
        bincode::config::standard(),
    )?;
    let filter = BtreeIndexFilterBlock {
        equality_prefix_bloom: record.0,
        equality_prefix_count: record.1,
    };
    Ok((filter, len))
}

/// The encoded form of the index block.
pub uninterp spec fn encoded_index(blocks: Seq<BlockModel>) -> Seq<u8>;

/// The index block at the start of a byte string and the number of bytes that it takes.
pub uninterp spec fn decoded_index(bytes: Seq<u8>) -> Option<(Seq<BlockModel>, int)>;

/// `bincode::serde::encode_to_vec` on a sequence of block entries: it always succeeds, and decoding
/// what it wrote gives them back and reads every byte.
#[verifier::external_body]
pub(crate) fn encode_index(records: &Vec<BlockRecord>) -> (r: Result<
    Vec<u8>,
    bincode::error::EncodeError,
>)
    ensures
        r is Ok,
        r->Ok_0@ == encoded_index(block_records_view(records@)),
        decoded_index(r->Ok_0@) == Some((block_records_view(records@), r->Ok_0@.len() as int)),
{
    bincode::serde::encode_to_vec(records, bincode::config::standard())
}

/// `bincode::serde::decode_from_slice` for a sequence of block entries: the entries and the number
/// of bytes read, or an error.
#[verifier::external_body]
pub(crate) fn decode_index(bytes: &[u8]) -> (r: Result<
    (Vec<BlockRecord>, usize),
    bincode::error::DecodeError,
>)
    ensures
        r is Ok <==> decoded_index(bytes@) is Some,
        r matches Ok(v) ==> decoded_index(bytes@) == Some((block_records_view(v.0@), v.1 as int)),
{
    bincode::serde::decode_from_slice(bytes, bincode::config::standard())
}

/// Columns and properties as they are written, with the properties in a map.
type WireMeta<'a> = (Vec<(&'a str, (u64, u64, u64))>, BTreeMap<&'a str, &'a str>);

/// A footer as it is written.
type WireFooter<'a> = (u32, &'a str, &'a str, &'a str, WireMeta<'a>, u32, Vec<SectionRecord>);

/// A footer, an index and a filter as they are written.
type WireFile<'a> = (WireFooter<'a>, Vec<BlockRecord>, (Vec<u8>, u64));

/// The encoded form of a file's metadata.
pub uninterp spec fn encoded_meta(meta: MetaModel) -> Seq<u8>;

/// The metadata at the start of a byte string and the number of bytes that it takes.
pub uninterp spec fn decoded_meta(bytes: Seq<u8>) -> Option<(MetaModel, int)>;

/// `bincode::serde::encode_to_vec` on columns and properties: it always succeeds. Decoding what it
/// wrote reads every byte; it gives the columns back, and the properties where each is named once
/// and they stand in ascending order.
#[verifier::external_body]
pub(crate) fn encode_meta(record: &MetaRecord) -> (r: Result<Vec<u8>, bincode::error::EncodeError>)
    ensures
        r is Ok,
        r->Ok_0@ == encoded_meta(meta_record_view(*record)),
        properties_ascend(meta_record_view(*record).1) ==> decoded_meta(r->Ok_0@) == Some(
            (meta_record_view(*record), r->Ok_0@.len() as int),
        ),
{
    bincode::serde::encode_to_vec(record, bincode::config::standard())
}

/// `bincode::serde::borrow_decode_from_slice` for columns and a map of properties: the columns, the
/// entries of the map in ascending order, and the number of bytes read, or an error.
#[verifier::external_body]
pub(crate) fn decode_meta(bytes: &[u8]) -> (r: Result<
    (MetaRecord, usize),
    bincode::error::DecodeError,
>)
    ensures
        r is Ok <==> decoded_meta(bytes@) is Some,
        r matches Ok(v) ==> decoded_meta(bytes@) == Some((meta_record_view(v.0), v.1 as int)),
        r matches Ok(v) ==> properties_ascend(meta_record_view(v.0).1),
{
    let (meta, len): (WireMeta<'_>, usize) =
        bincode::serde::borrow_decode_from_slice(bytes, bincode::config::standard())?;
    let columns = meta.0.into_iter().map(|(name, column)| (name.to_string(), column)).collect();
    let properties = meta.1.into_iter().map(|(k, v)| (k.to_string(), v.to_string())).collect();
    Ok(((columns, properties), len))
}

/// The encoded form of a footer.
pub uninterp spec fn encoded_footer(footer: FooterModel) -> Seq<u8>;

/// The footer at the start of a byte string and the number of bytes that it takes. The kinds of
/// its sections may be any numbers.
pub uninterp spec fn decoded_footer(bytes: Seq<u8>) -> Option<(FooterModel, int)>;

/// `bincode::serde::encode_to_vec` on a footer: it always succeeds. Decoding what it wrote reads
/// every byte; it gives the footer back where its properties are named once each and stand in
/// ascending order.
#[verifier::external_body]
pub(crate) fn encode_footer(record: &FooterRecord) -> (r: Result<
    Vec<u8>,
    bincode::error::EncodeError,
>)
    ensures
        r is Ok,
        r->Ok_0@ == encoded_footer(footer_record_view(*record)),
        properties_ascend(footer_record_view(*record).4.1) ==> decoded_footer(r->Ok_0@) == Some(
            (footer_record_view(*record), r->Ok_0@.len() as int),
        ),
{
    bincode::serde::encode_to_vec(record, bincode::config::standard())
}

/// `bincode::serde::borrow_decode_from_slice` for a footer with a map of properties: the footer,
/// with the entries of the map in ascending order, and the number of bytes read, or an error.
#[verifier::external_body]
pub(crate) fn decode_footer(bytes: &[u8]) -> (r: Result<
    (FooterRecord, usize),
    bincode::error::DecodeError,
>)
    ensures
        r is Ok <==> decoded_footer(bytes@) is Some,
        r matches Ok(v) ==> decoded_footer(bytes@) == Some((footer_record_view(v.0), v.1 as int)),
        r matches Ok(v) ==> properties_ascend(footer_record_view(v.0).4.1),
{
    let (f, len): (WireFooter<'_>, usize) =
        bincode::serde::borrow_decode_from_slice(bytes, bincode::config::standard())?;
    let (columns, properties) = f.4;
    let columns = columns.into_iter().map(|c| (c.0.to_string(), c.1)).collect();
    let properties = properties.into_iter().map(|p| (p.0.to_string(), p.1.to_string())).collect();
    let (schema, key_order, compression) = (f.1.to_string(), f.2.to_string(), f.3.to_string());
    Ok(((f.0, schema, key_order, compression, (columns, properties), f.5, f.6), len))
}

/// The encoded form of what a reader keeps of a file.
pub uninterp spec fn encoded_file_meta(meta: FileMetaModel) -> Seq<u8>;

/// What a reader keeps of a file, at the start of a byte string, and the number of bytes that it
/// takes. The kinds of the footer's sections may be any numbers.
pub uninterp spec fn decoded_file_meta(bytes: Seq<u8>) -> Option<(FileMetaModel, int)>;

/// The view of a file's footer, index and filter records.
pub open spec fn file_record_view(
    footer: FooterRecord,
    index: Seq<BlockRecord>,
    filter: (Vec<u8>, u64),
) -> FileMetaModel {
    (footer_record_view(footer), block_records_view(index), (filter.0@, filter.1))
}

/// `bincode::serde::encode_to_vec` on a footer, an index and a filter: it always succeeds. Decoding
/// what it wrote reads every byte; it gives all three back where the footer's properties are named
/// once each and stand in ascending order.
#[verifier::external_body]
pub(crate) fn encode_file_meta(
    footer: &FooterRecord,
    index: &Vec<BlockRecord>,
    filter: &(Vec<u8>, u64),
) -> (r: Result<Vec<u8>, bincode::error::EncodeError>)
    ensures
        r is Ok,
        r->Ok_0@ == encoded_file_meta(file_record_view(*footer, index@, *filter)),
        properties_ascend(footer_record_view(*footer).4.1) ==> decoded_file_meta(r->Ok_0@) == Some(
            (file_record_view(*footer, index@, *filter), r->Ok_0@.len() as int),
        ),
{
    bincode::serde::encode_to_vec((footer, index, filter), bincode::config::standard())
}

/// `bincode::serde::borrow_decode_from_slice` for a footer with a map of properties, an index and a
/// filter: the three, with the entries of the map in ascending order, and the number of bytes
/// read, or an error.
#[verifier::external_body]
pub(crate) fn decode_file_meta(bytes: &[u8]) -> (r: Result<
    ((FooterRecord, Vec<BlockRecord>, (Vec<u8>, u64)), usize),
    bincode::error::DecodeError,
>)
    ensures
        r is Ok <==> decoded_file_meta(bytes@) is Some,
        r matches Ok(v) ==> decoded_file_meta(bytes@) == Some(
            (file_record_view(v.0.0, v.0.1@, v.0.2), v.1 as int),
        ),
        r matches Ok(v) ==> properties_ascend(footer_record_view(v.0.0).4.1),
{
    let ((f, index, filter), len): (WireFile<'_>, usize) =
        bincode::serde::borrow_decode_from_slice(bytes, bincode::config::standard())?;
    let (columns, properties) = f.4;
    let columns = columns.into_iter().map(|c| (c.0.to_string(), c.1)).collect();
    let properties = properties.into_iter().map(|p| (p.0.to_string(), p.1.to_string())).collect();
    let (schema, key_order, compression) = (f.1.to_string(), f.2.to_string(), f.3.to_string());
    let footer = (f.0, schema, key_order, compression, (columns, properties), f.5, f.6);
    Ok(((footer, index, filter), len))
}

} // verus!
