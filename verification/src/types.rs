//! The data of an index file.

use vstd::prelude::*;
use vstd::utf8::encode_utf8;

use crate::lex::{bytes_clone, lex_lt};

verus! {

/// A row as a pair of byte strings: its key and its payload.
pub type RowModel = (Seq<u8>, Seq<u8>);

/// A data block's entry in the index: first key, last key, offset, length, uncompressed length,
/// row count, checksum.
pub type BlockModel = (Seq<u8>, Seq<u8>, u64, u64, u64, u32, u32);

/// A section's entry in the footer: kind, offset, length, checksum.
pub type SectionModel = (u32, u64, u64, u32);

/// The filter block: the filter's bytes and the number of prefixes in it.
pub type FilterModel = (Seq<u8>, u64);

/// A file's metadata: its columns, each with offset, length and number of values, and its
/// properties in the order of their names.
pub type MetaModel = (Seq<(Seq<char>, (u64, u64, u64))>, Seq<(Seq<char>, Seq<char>)>);

/// The footer: version, schema, key order, compression, metadata, checksum, sections.
pub type FooterModel = (u32, Seq<char>, Seq<char>, Seq<char>, MetaModel, u32, Seq<SectionModel>);

/// What a reader keeps of a file: footer, index and filter.
pub type FileMetaModel = (FooterModel, Seq<BlockModel>, FilterModel);

/// Where a column's values stand in a file.
#[derive(Clone, Copy, Debug, PartialEq, Eq, Structural)]
pub struct SingleColumnMeta {
    pub offset: u64,
    pub len: u64,
    pub num_values: u64,
}

/// The metadata that a writer puts into the footer.
///
/// `metadata` holds the file's properties in ascending order of their names, each name once.
#[derive(Debug)]
pub struct BtreeIndexMeta {
    pub columns: Vec<(String, SingleColumnMeta)>,
    pub metadata: Vec<(String, String)>,
}

/// One row of the index: an encoded key and the payload stored under it.
#[derive(Debug)]
pub struct BtreeIndexRow {
    pub encoded_key: Vec<u8>,
    pub encoded_row_payload: Vec<u8>,
}

/// The direction in which a key component is ordered.
#[derive(Clone, Copy, Debug, PartialEq, Eq, Structural)]
pub enum BtreeIndexKeyOrder {
    Asc,
    Desc,
}

/// The sections of an index file.
#[derive(Clone, Copy, Debug, PartialEq, Eq, Structural)]
pub enum BtreeIndexSectionKind {
    Data,
    Filter,
    Index,
    Footer,
}

/// A section's place in the file. A checksum of zero is not checked.
#[derive(Clone, Copy, Debug, PartialEq, Eq, Structural)]
pub struct BtreeIndexSection {
    pub kind: BtreeIndexSectionKind,
    pub offset: u64,
    pub length: u64,
    pub checksum: u32,
}

/// The footer of an index file.
#[derive(Debug)]
pub struct BtreeIndexFooter {
    pub version: u32,
    pub schema: String,
    pub key_order: String,
    pub compression: String,
    pub meta: BtreeIndexMeta,
    pub checksum: u32,
    pub sections: Vec<BtreeIndexSection>,
}

/// A data block's entry in the index.
#[derive(Debug)]
pub struct BtreeIndexDataBlockMeta {
    pub first_key: Vec<u8>,
    pub last_key: Vec<u8>,
    pub offset: u64,
    pub length: u64,
    pub uncompressed_length: u64,
    pub row_count: u32,
    pub checksum: u32,
}

/// The filter over the equality prefixes of the keys.
#[derive(Debug)]
pub struct BtreeIndexFilterBlock {
    pub equality_prefix_bloom: Vec<u8>,
    pub equality_prefix_count: u64,
}

/// The entries of the data blocks, in file order.
#[derive(Debug)]
pub struct BtreeIndexIndexBlock {
    pub data_blocks: Vec<BtreeIndexDataBlockMeta>,
}

/// The codec of the data blocks, as the host that compresses them numbers it.
#[derive(Clone, Copy, Debug, PartialEq, Eq, Structural)]
pub struct CommonCompression {
    pub codec: u8,
}

impl View for BtreeIndexRow {
    type V = RowModel;

    open spec fn view(&self) -> RowModel {
        (self.encoded_key@, self.encoded_row_payload@)
    }
}

impl View for BtreeIndexDataBlockMeta {
    type V = BlockModel;

    open spec fn view(&self) -> BlockModel {
        (
            self.first_key@,
            self.last_key@,
            self.offset,
            self.length,
            self.uncompressed_length,
            self.row_count,
            self.checksum,
        )
    }
}

impl View for BtreeIndexFilterBlock {
    type V = FilterModel;

    open spec fn view(&self) -> FilterModel {
        (self.equality_prefix_bloom@, self.equality_prefix_count)
    }
}

impl View for BtreeIndexIndexBlock {
    type V = Seq<BlockModel>;

    open spec fn view(&self) -> Seq<BlockModel> {
        blocks_view(self.data_blocks@)
    }
}

impl View for BtreeIndexMeta {
    type V = MetaModel;

    open spec fn view(&self) -> MetaModel {
        (columns_view(self.columns@), properties_view(self.metadata@))
    }
}

impl View for BtreeIndexSection {
    type V = SectionModel;

    open spec fn view(&self) -> SectionModel {
        (kind_index(self.kind), self.offset, self.length, self.checksum)
    }
}

impl View for BtreeIndexFooter {
    type V = FooterModel;

    open spec fn view(&self) -> FooterModel {
        (
            self.version,
            self.schema@,
            self.key_order@,
            self.compression@,
            self.meta@,
            self.checksum,
            sections_view(self.sections@),
        )
    }
}

/// The views of a sequence of rows.
pub open spec fn rows_view(rows: Seq<BtreeIndexRow>) -> Seq<RowModel> {
    Seq::new(rows.len(), |i: int| rows[i]@)
}

/// The views of a sequence of block entries.
pub open spec fn blocks_view(blocks: Seq<BtreeIndexDataBlockMeta>) -> Seq<BlockModel> {
    Seq::new(blocks.len(), |i: int| blocks[i]@)
}

/// The views of a sequence of sections.
pub open spec fn sections_view(sections: Seq<BtreeIndexSection>) -> Seq<SectionModel> {
    Seq::new(sections.len(), |i: int| sections[i]@)
}

/// The views of a sequence of columns.
pub open spec fn columns_view(columns: Seq<(String, SingleColumnMeta)>) -> Seq<
    (Seq<char>, (u64, u64, u64)),
> {
    Seq::new(
        columns.len(),
        |i: int|
            (columns[i].0@, (columns[i].1.offset, columns[i].1.len, columns[i].1.num_values)),
    )
}

/// The views of a sequence of properties.
pub open spec fn properties_view(properties: Seq<(String, String)>) -> Seq<
    (Seq<char>, Seq<char>),
> {
    Seq::new(properties.len(), |i: int| (properties[i].0@, properties[i].1@))
}

/// The number under which the footer stores a section kind.
pub open spec fn kind_index(kind: BtreeIndexSectionKind) -> u32 {
    match kind {
        BtreeIndexSectionKind::Data => 0,
        BtreeIndexSectionKind::Filter => 1,
        BtreeIndexSectionKind::Index => 2,
        BtreeIndexSectionKind::Footer => 3,
    }
}

/// The properties stand in ascending order of their names, each name once.
pub open spec fn properties_ascend(properties: Seq<(Seq<char>, Seq<char>)>) -> bool {
    forall|i: int, j: int|
        0 <= i < j < properties.len() ==> lex_lt(
            encode_utf8((#[trigger] properties[i]).0),
            encode_utf8((#[trigger] properties[j]).0),
        )
}

impl BtreeIndexMeta {
    /// Each property is named once, and they stand in ascending order of their names.
    pub open spec fn wf(self) -> bool {
        properties_ascend(self@.1)
    }
}

impl BtreeIndexSectionKind {
    /// The number under which the footer stores this kind.
    pub fn index(self) -> (r: u32)
        ensures
            r == kind_index(self),
    {
        match self {
            BtreeIndexSectionKind::Data => 0,
            BtreeIndexSectionKind::Filter => 1,
            BtreeIndexSectionKind::Index => 2,
            BtreeIndexSectionKind::Footer => 3,
        }
    }

    /// The kind that is stored under a number, for the four numbers that stand for one.
    pub fn from_index(index: u32) -> (r: Option<BtreeIndexSectionKind>)
        ensures
            match r {
                Some(kind) => kind_index(kind) == index,
                None => index > 3,
            },
    {
        if index == 0 {
            Some(BtreeIndexSectionKind::Data)
        } else if index == 1 {
            Some(BtreeIndexSectionKind::Filter)
        } else if index == 2 {
            Some(BtreeIndexSectionKind::Index)
        } else if index == 3 {
            Some(BtreeIndexSectionKind::Footer)
        } else {
            None
        }
    }
}

impl Clone for BtreeIndexRow {
    fn clone(&self) -> (r: Self)
        ensures
            r@ == self@,
    {
        BtreeIndexRow {
            encoded_key: bytes_clone(self.encoded_key.as_slice()),
            encoded_row_payload: bytes_clone(self.encoded_row_payload.as_slice()),
        }
    }
}

impl Clone for BtreeIndexDataBlockMeta {
    fn clone(&self) -> (r: Self)
        ensures
            r@ == self@,
    {
        BtreeIndexDataBlockMeta {
            first_key: bytes_clone(self.first_key.as_slice()),
            last_key: bytes_clone(self.last_key.as_slice()),
            offset: self.offset,
            length: self.length,
            uncompressed_length: self.uncompressed_length,
            row_count: self.row_count,
            checksum: self.checksum,
        }
    }
}

} // verus!
