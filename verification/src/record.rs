//! The records of an index file as plain tuples, in the shape in which they are encoded.

use vstd::prelude::*;

use crate::lex::bytes_clone;
use crate::types::{blocks_view, columns_view, properties_view, sections_view};
use crate::types::{BlockModel, FooterModel, MetaModel, SectionModel};
use crate::types::{BtreeIndexDataBlockMeta, BtreeIndexFooter, BtreeIndexMeta, BtreeIndexSection,
    BtreeIndexSectionKind, SingleColumnMeta};

verus! {

/// A block entry as it is encoded.
pub type BlockRecord = (Vec<u8>, Vec<u8>, u64, u64, u64, u32, u32);

/// A file's metadata as it is encoded.
pub type MetaRecord = (Vec<(String, (u64, u64, u64))>, Vec<(String, String)>);

/// A section as it is encoded.
pub type SectionRecord = (u32, u64, u64, u32);

/// A footer as it is encoded.
pub type FooterRecord = (u32, String, String, String, MetaRecord, u32, Vec<SectionRecord>);

/// The view of a block entry's record.
pub open spec fn block_record_view(r: BlockRecord) -> BlockModel {
    (r.0@, r.1@, r.2, r.3, r.4, r.5, r.6)
}

/// The views of the block entries' records.
pub open spec fn block_records_view(records: Seq<BlockRecord>) -> Seq<BlockModel> {
    Seq::new(records.len(), |i: int| block_record_view(records[i]))
}

/// The view of a metadata record.
pub open spec fn meta_record_view(r: MetaRecord) -> MetaModel {
    (Seq::new(r.0@.len(), |i: int| (r.0@[i].0@, r.0@[i].1)), properties_view(r.1@))
}

/// The view of a footer record.
pub open spec fn footer_record_view(r: FooterRecord) -> FooterModel {
    (r.0, r.1@, r.2@, r.3@, meta_record_view(r.4), r.5, r.6@)
}

/// Every section of the footer is of a known kind.
pub open spec fn kinds_known(sections: Seq<SectionModel>) -> bool {
    forall|i: int| 0 <= i < sections.len() ==> (#[trigger] sections[i]).0 <= 3
}

/// The record of a metadata value.
pub fn meta_record(meta: &BtreeIndexMeta) -> (r: MetaRecord)
    ensures
        meta_record_view(r) == meta@,
{
    let mut columns: Vec<(String, (u64, u64, u64))> = Vec::new();
    let mut i: usize = 0;
    while i < meta.columns.len()
        invariant
            i <= meta.columns@.len(),
            columns@.len() == i,
            forall|k: int|
                0 <= k < i ==> (#[trigger] columns@[k].0@, columns@[k].1) == columns_view(
                    meta.columns@,
                )[k],
        decreases meta.columns@.len() - i,
    {
        let column = &meta.columns[i];
        columns.push((column.0.clone(), (column.1.offset, column.1.len, column.1.num_values)));
        i = i + 1;
    }
    let metadata = clone_properties(&meta.metadata);
    let r = (columns, metadata);
    assert(meta_record_view(r).0 =~= meta@.0);
    r
}

/// A copy of the properties.
pub fn clone_properties(properties: &Vec<(String, String)>) -> (r: Vec<(String, String)>)
    ensures
        properties_view(r@) == properties_view(properties@),
{
    let mut r: Vec<(String, String)> = Vec::new();
    let mut i: usize = 0;
    while i < properties.len()
        invariant
            i <= properties@.len(),
            r@.len() == i,
            forall|k: int|
                0 <= k < i ==> (#[trigger] r@[k]).0@ == properties@[k].0@ && r@[k].1@
                    == properties@[k].1@,
        decreases properties@.len() - i,
    {
        r.push((properties[i].0.clone(), properties[i].1.clone()));
        i = i + 1;
    }
    assert(properties_view(r@) =~= properties_view(properties@));
    r
}

/// The metadata value of a record.
pub fn meta_from_record(record: MetaRecord) -> (r: BtreeIndexMeta)
    ensures
        r@ == meta_record_view(record),
{
    let mut columns: Vec<(String, SingleColumnMeta)> = Vec::new();
    let mut i: usize = 0;
    while i < record.0.len()
        invariant
            i <= record.0@.len(),
            columns@.len() == i,
            forall|k: int|
                0 <= k < i ==> columns_view(columns@)[k] == (
                    #[trigger] record.0@[k].0@,
                    record.0@[k].1,
                ),
        decreases record.0@.len() - i,
    {
        let column = &record.0[i];
        let ghost before = columns@;
        columns.push(
            (
                column.0.clone(),
                SingleColumnMeta {
                    offset: column.1.0,
                    len: column.1.1,
                    num_values: column.1.2,
                },
            ),
        );
        assert forall|k: int| 0 <= k < i + 1 implies columns_view(columns@)[k] == (
            #[trigger] record.0@[k].0@,
            record.0@[k].1,
        ) by {
            if k < i {
                assert(columns_view(before)[k] == (record.0@[k].0@, record.0@[k].1));
                assert(columns@[k] == before[k]);
            }
        }
        i = i + 1;
    }
    let r = BtreeIndexMeta { columns, metadata: record.1 };
    assert(r@.0 =~= meta_record_view(record).0);
    r
}

/// The record of a footer.
pub fn footer_record(footer: &BtreeIndexFooter) -> (r: FooterRecord)
    ensures
        footer_record_view(r) == footer@,
{
    let mut sections: Vec<SectionRecord> = Vec::new();
    let mut i: usize = 0;
    while i < footer.sections.len()
        invariant
            i <= footer.sections@.len(),
            sections@.len() == i,
            forall|k: int| 0 <= k < i ==> #[trigger] sections@[k] == footer.sections@[k]@,
        decreases footer.sections@.len() - i,
    {
        let s = &footer.sections[i];
        sections.push((s.kind.index(), s.offset, s.length, s.checksum));
        i = i + 1;
    }
    assert(sections@ =~= sections_view(footer.sections@));
    (
        footer.version,
        footer.schema.clone(),
        footer.key_order.clone(),
        footer.compression.clone(),
        meta_record(&footer.meta),
        footer.checksum,
        sections,
    )
}

/// The footer of a record, where each of its sections is of a known kind.
pub fn footer_from_record(record: FooterRecord) -> (r: Option<BtreeIndexFooter>)
    ensures
        r is Some <==> kinds_known(record.6@),
        r matches Some(footer) ==> footer@ == footer_record_view(record),
{
    let mut sections: Vec<BtreeIndexSection> = Vec::new();
    let mut i: usize = 0;
    while i < record.6.len()
        invariant
            i <= record.6@.len(),
            sections@.len() == i,
            forall|k: int| 0 <= k < i ==> (#[trigger] record.6@[k]).0 <= 3,
            forall|k: int| 0 <= k < i ==> (#[trigger] sections@[k])@ == record.6@[k],
        decreases record.6@.len() - i,
    {
        let s = record.6[i];
        match BtreeIndexSectionKind::from_index(s.0) {
            Some(kind) => {
                sections.push(
                    BtreeIndexSection { kind, offset: s.1, length: s.2, checksum: s.3 },
                );
            },
            None => {
                assert(record.6@[i as int].0 > 3);
                return None;
            },
        }
        i = i + 1;
    }
    assert(sections_view(sections@) =~= record.6@);
    let (version, schema, key_order, compression, meta, checksum, _) = record;
    Some(
        BtreeIndexFooter {
            version,
            schema,
            key_order,
            compression,
            meta: meta_from_record(meta),
            checksum,
            sections,
        },
    )
}

/// The records of the block entries.
pub fn block_records(blocks: &Vec<BtreeIndexDataBlockMeta>) -> (r: Vec<BlockRecord>)
    ensures
        block_records_view(r@) == blocks_view(blocks@),
{
    let mut r: Vec<BlockRecord> = Vec::new();
    let mut i: usize = 0;
    while i < blocks.len()
        invariant
            i <= blocks@.len(),
            r@.len() == i,
            forall|k: int| 0 <= k < i ==> block_record_view(#[trigger] r@[k]) == blocks@[k]@,
        decreases blocks@.len() - i,
    {
        let b = &blocks[i];
        r.push(
            (
                bytes_clone(b.first_key.as_slice()),
                bytes_clone(b.last_key.as_slice()),
                b.offset,
                b.length,
                b.uncompressed_length,
                b.row_count,
                b.checksum,
            ),
        );
        i = i + 1;
    }
    assert(block_records_view(r@) =~= blocks_view(blocks@));
    r
}

/// The block entries of the records.
pub fn blocks_from_records(records: &Vec<BlockRecord>) -> (r: Vec<BtreeIndexDataBlockMeta>)
    ensures
        blocks_view(r@) == block_records_view(records@),
{
    let mut r: Vec<BtreeIndexDataBlockMeta> = Vec::new();
    let mut i: usize = 0;
    while i < records.len()
        invariant
            i <= records@.len(),
            r@.len() == i,
            forall|k: int| 0 <= k < i ==> (#[trigger] r@[k])@ == block_record_view(records@[k]),
        decreases records@.len() - i,
    {
        let b = &records[i];
        r.push(
            BtreeIndexDataBlockMeta {
                first_key: bytes_clone(b.0.as_slice()),
                last_key: bytes_clone(b.1.as_slice()),
                offset: b.2,
                length: b.3,
                uncompressed_length: b.4,
                row_count: b.5,
                checksum: b.6,
            },
        );
        i = i + 1;
    }
    assert(blocks_view(r@) =~= block_records_view(records@));
    r
}

} // verus!
