//! Loading an index file piece by piece.

use vstd::prelude::*;

use bytes::Bytes;

use crate::codec::{bytes_as_slice, bytes_of};
use crate::error::{BtreeIndexError, BtreeIndexPart};
use crate::format::{btree_footer_range, btree_index_section, footer_outcome, footer_place,
    lemma_tail_places_footer, section_bytes_outcome, section_outcome, tail_place,
    try_decode_btree_footer_bytes, BTREE_INDEX_FOOTER_TAIL_SIZE};
use crate::text::{append_text, decimal, decimal_text};
use crate::types::{BlockModel, BtreeIndexDataBlockMeta, BtreeIndexFooter, BtreeIndexSection,
    BtreeIndexSectionKind, CommonCompression, FileMetaModel, FooterModel, SectionModel};
use crate::view::{block_bytes_outcome, block_checksum_outcome, open_outcome, sections_outcome,
    BtreeIndexFileMeta, BtreeIndexFileView, FileModel};

verus! {

/// The load of what a reader keeps of a file, and how far it is.
#[derive(Debug)]
pub enum MetaLoad {
    /// The length of the file is wanted.
    Length,
    /// The bytes after the footer are wanted.
    Tail { file_len: u64 },
    /// The footer is wanted.
    Footer { start: u64, end: u64 },
    /// The bytes of the index section are wanted.
    Index {
        footer: BtreeIndexFooter,
        index_section: BtreeIndexSection,
        filter_section: BtreeIndexSection,
    },
    /// The bytes of the filter section are wanted.
    Filter { footer: BtreeIndexFooter, filter_section: BtreeIndexSection, index_block: Bytes },
    /// All is there.
    Done { meta: BtreeIndexFileMeta },
}

/// The model of a load.
pub enum LoadModel {
    Length,
    Tail { file_len: u64 },
    Footer { start: u64, end: u64 },
    Index { footer: FooterModel, index: SectionModel, filter: SectionModel },
    Filter { footer: FooterModel, filter: SectionModel, index_bytes: Seq<u8> },
    Done { meta: FileMetaModel },
}

impl View for MetaLoad {
    type V = LoadModel;

    open spec fn view(&self) -> LoadModel {
        match self {
            MetaLoad::Length => LoadModel::Length,
            MetaLoad::Tail { file_len } => LoadModel::Tail { file_len: *file_len },
            MetaLoad::Footer { start, end } => LoadModel::Footer { start: *start, end: *end },
            MetaLoad::Index { footer, index_section, filter_section } => LoadModel::Index {
                footer: footer@,
                index: index_section@,
                filter: filter_section@,
            },
            MetaLoad::Filter { footer, filter_section, index_block } => LoadModel::Filter {
                footer: footer@,
                filter: filter_section@,
                index_bytes: bytes_of(*index_block),
            },
            MetaLoad::Done { meta } => LoadModel::Done { meta: meta@ },
        }
    }
}

impl LoadModel {
    /// The load of a file of this length.
    pub open spec fn of_length(file_len: u64) -> Result<LoadModel, BtreeIndexError> {
        if file_len < BTREE_INDEX_FOOTER_TAIL_SIZE {
            Err(BtreeIndexError::InvalidFileLength { file_len })
        } else {
            Ok(LoadModel::Tail { file_len })
        }
    }

    /// The bytes of the file that are wanted, where bytes are.
    pub open spec fn wanted(self) -> Option<(int, int)> {
        match self {
            LoadModel::Length => None,
            LoadModel::Tail { file_len } => Some((file_len - 12, file_len as int)),
            LoadModel::Footer { start, end } => Some((start as int, end as int)),
            LoadModel::Index { index, .. } => Some((index.1 as int, index.1 + index.2)),
            LoadModel::Filter { filter, .. } => Some((filter.1 as int, filter.1 + filter.2)),
            LoadModel::Done { .. } => None,
        }
    }

    /// Ranges do not end past every number.
    pub open spec fn wf(self) -> bool {
        match self {
            LoadModel::Tail { file_len } => file_len >= BTREE_INDEX_FOOTER_TAIL_SIZE,
            LoadModel::Index { index, .. } => index.1 + index.2 <= u64::MAX,
            LoadModel::Filter { filter, .. } => filter.1 + filter.2 <= u64::MAX,
            _ => true,
        }
    }

    /// The load once the wanted bytes are there; nothing where a part holds more than it should, or
    /// a section ends past every number.
    pub open spec fn step(self, bytes: Seq<u8>) -> Option<Result<LoadModel, BtreeIndexError>> {
        match self {
            LoadModel::Tail { file_len } => match tail_place(file_len, bytes) {
                Err(e) => Some(Err(e)),
                Ok(place) => Some(
                    Ok(LoadModel::Footer { start: place.0 as u64, end: place.1 as u64 }),
                ),
            },
            LoadModel::Footer { .. } => match footer_outcome(bytes) {
                None => None,
                Some(Err(e)) => Some(Err(e)),
                Some(Ok(footer)) => match (
                    section_outcome(footer.6, BtreeIndexSectionKind::Index),
                    section_outcome(footer.6, BtreeIndexSectionKind::Filter),
                ) {
                    (Err(e), _) => Some(Err(e)),
                    (Ok(_), Err(e)) => Some(Err(e)),
                    (Ok(index), Ok(filter)) => if index.1 + index.2 > u64::MAX {
                        None
                    } else {
                        Some(Ok(LoadModel::Index { footer, index, filter }))
                    },
                },
            },
            LoadModel::Index { footer, index, filter } => if filter.1 + filter.2 > u64::MAX {
                None
            } else {
                Some(Ok(LoadModel::Filter { footer, filter, index_bytes: bytes }))
            },
            LoadModel::Filter { footer, filter, index_bytes } => match sections_outcome(
                footer,
                index_bytes,
                bytes,
            ) {
                None => None,
                Some(Err(e)) => Some(Err(e)),
                Some(Ok(meta)) => Some(Ok(LoadModel::Done { meta })),
            },
            LoadModel::Length => None,
            LoadModel::Done { .. } => None,
        }
    }
}

/// The model of what a step gave.
pub open spec fn step_view(r: Option<Result<MetaLoad, BtreeIndexError>>) -> Option<
    Result<LoadModel, BtreeIndexError>,
> {
    match r {
        None => None,
        Some(Ok(load)) => Some(Ok(load@)),
        Some(Err(e)) => Some(Err(e)),
    }
}

impl MetaLoad {
    /// The load of a file of this length.
    fn of_length(file_len: u64) -> (r: Result<MetaLoad, BtreeIndexError>)
        ensures
            match r {
                Ok(load) => LoadModel::of_length(file_len) == Ok::<_, BtreeIndexError>(load@)
                    && load@.wf(),
                Err(e) => LoadModel::of_length(file_len) == Err::<LoadModel, _>(e),
            },
    {
        if file_len < BTREE_INDEX_FOOTER_TAIL_SIZE as u64 {
            Err(BtreeIndexError::InvalidFileLength { file_len })
        } else {
            Ok(MetaLoad::Tail { file_len })
        }
    }

    /// Begins a load; the length of the file is wanted first where it is not known.
    pub fn start(len_hint: Option<u64>) -> (r: Result<MetaLoad, BtreeIndexError>)
        ensures
            match len_hint {
                None => r == Ok::<MetaLoad, BtreeIndexError>(MetaLoad::Length),
                Some(file_len) => match r {
                    Ok(load) => LoadModel::of_length(file_len) == Ok::<_, BtreeIndexError>(load@)
                        && load@.wf(),
                    Err(e) => LoadModel::of_length(file_len) == Err::<LoadModel, _>(e),
                },
            },
    {
        match len_hint {
            None => Ok(MetaLoad::Length),
            Some(file_len) => MetaLoad::of_length(file_len),
        }
    }

    /// Takes the length of the file.
    pub fn accept_length(self, file_len: u64) -> (r: Result<MetaLoad, BtreeIndexError>)
        requires
            self is Length,
        ensures
            match r {
                Ok(load) => LoadModel::of_length(file_len) == Ok::<_, BtreeIndexError>(load@)
                    && load@.wf(),
                Err(e) => LoadModel::of_length(file_len) == Err::<LoadModel, _>(e),
            },
    {
        MetaLoad::of_length(file_len)
    }

    /// The bytes of the file that are wanted, where bytes are.
    pub fn request(&self) -> (r: Option<(u64, u64)>)
        requires
            self@.wf(),
        ensures
            match r {
                Some((start, end)) => self@.wanted() == Some((start as int, end as int)),
                None => self@.wanted() is None,
            },
    {
        match self {
            MetaLoad::Length => None,
            MetaLoad::Tail { file_len } => Some(
                (*file_len - BTREE_INDEX_FOOTER_TAIL_SIZE as u64, *file_len),
            ),
            MetaLoad::Footer { start, end } => Some((*start, *end)),
            MetaLoad::Index { index_section, .. } => Some(
                (index_section.offset, index_section.offset + index_section.length),
            ),
            MetaLoad::Filter { filter_section, .. } => Some(
                (filter_section.offset, filter_section.offset + filter_section.length),
            ),
            MetaLoad::Done { .. } => None,
        }
    }

    /// Takes the bytes that were wanted; `None` where a part of the file holds more than it should,
    /// or says that a section ends past every number.
    pub fn accept_bytes(self, bytes: Bytes) -> (r: Option<Result<MetaLoad, BtreeIndexError>>)
        requires
            self@.wf(),
        ensures
            step_view(r) == self@.step(bytes_of(bytes)),
            r matches Some(Ok(load)) ==> load@.wf(),
    {
        match self {
            MetaLoad::Length => None,
            MetaLoad::Tail { file_len } => match btree_footer_range(
                file_len,
                bytes_as_slice(&bytes),
            ) {
                Ok(range) => Some(Ok(MetaLoad::Footer { start: range.start, end: range.end })),
                Err(e) => Some(Err(e)),
            },
            MetaLoad::Footer { .. } => match try_decode_btree_footer_bytes(bytes_as_slice(&bytes)) {
                None => None,
                Some(Err(e)) => Some(Err(e)),
                Some(Ok(footer)) => {
                    let index_section: BtreeIndexSection = match btree_index_section(
                        &footer,
                        BtreeIndexSectionKind::Index,
                    ) {
                        Ok(section) => *section,
                        Err(e) => {
                            return Some(Err(e));
                        },
                    };
                    let filter_section: BtreeIndexSection = match btree_index_section(
                        &footer,
                        BtreeIndexSectionKind::Filter,
                    ) {
                        Ok(section) => *section,
                        Err(e) => {
                            return Some(Err(e));
                        },
                    };
                    if index_section.offset.checked_add(index_section.length).is_none() {
                        return None;
                    }
                    Some(Ok(MetaLoad::Index { footer, index_section, filter_section }))
                },
            },
            MetaLoad::Index { footer, index_section, filter_section } => {
                if filter_section.offset.checked_add(filter_section.length).is_none() {
                    return None;
                }
                Some(Ok(MetaLoad::Filter { footer, filter_section, index_block: bytes }))
            },
            MetaLoad::Filter { footer, filter_section, index_block } => {
                match BtreeIndexFileMeta::try_from_sections(footer, index_block, bytes) {
                    None => None,
                    Some(Err(e)) => Some(Err(e)),
                    Some(Ok(meta)) => Some(Ok(MetaLoad::Done { meta })),
                }
            },
            MetaLoad::Done { .. } => None,
        }
    }
}

/// How many steps a load still has to take.
pub open spec fn steps_left(load: LoadModel) -> nat {
    match load {
        LoadModel::Length => 5,
        LoadModel::Tail { .. } => 4,
        LoadModel::Footer { .. } => 3,
        LoadModel::Index { .. } => 2,
        LoadModel::Filter { .. } => 1,
        LoadModel::Done { .. } => 0,
    }
}

/// What loading from a file of these bytes comes to; nothing where a range is not in the file.
pub open spec fn loaded(data: Seq<u8>, load: LoadModel) -> Option<
    Result<FileMetaModel, BtreeIndexError>,
>
    decreases steps_left(load),
{
    match load {
        LoadModel::Done { meta } => Some(Ok(meta)),
        LoadModel::Length => match LoadModel::of_length(data.len() as u64) {
            Err(e) => Some(Err(e)),
            Ok(next) => loaded(data, next),
        },
        _ => {
            let (start, end) = load.wanted()->Some_0;
            if 0 <= start <= end <= data.len() {
                match load.step(data.subrange(start, end)) {
                    None => None,
                    Some(Err(e)) => Some(Err(e)),
                    Some(Ok(next)) => loaded(data, next),
                }
            } else {
                None
            }
        },
    }
}

/// Loading a file piece by piece gives the footer, the index and the filter that opening it whole
/// does.
pub proof fn law_loading_agrees_with_opening(
    data: Seq<u8>,
    compression: CommonCompression,
    file: FileModel,
)
    requires
        data.len() <= u64::MAX,
        open_outcome(data, Some(compression)) == Some(Ok::<_, BtreeIndexError>(file)),
    ensures
        loaded(data, LoadModel::Length) == Some(
            Ok::<_, BtreeIndexError>((file.footer, file.blocks, file.filter)),
        ),
{
    reveal_with_fuel(loaded, 6);
    let n = data.len() as int;
    lemma_tail_places_footer(data);
    let place = footer_place(data)->Ok_0;
    let footer = file.footer;
    let index = section_outcome(footer.6, BtreeIndexSectionKind::Index)->Ok_0;
    let filter = section_outcome(footer.6, BtreeIndexSectionKind::Filter)->Ok_0;
    assert(section_bytes_outcome(data, index, BtreeIndexPart::IndexBlock) is Some);
    assert(section_bytes_outcome(data, filter, BtreeIndexPart::FilterBlock) is Some);
    let tail = LoadModel::Tail { file_len: data.len() as u64 };
    let at_footer = LoadModel::Footer { start: place.0 as u64, end: place.1 as u64 };
    assert(tail.step(data.subrange(n - 12, n)) == Some(Ok::<_, BtreeIndexError>(at_footer)));
    let at_index = LoadModel::Index { footer, index, filter };
    assert(at_footer.step(data.subrange(place.0, place.1)) == Some(
        Ok::<_, BtreeIndexError>(at_index),
    ));
    let index_bytes = data.subrange(index.1 as int, index.1 + index.2);
    let filter_bytes = data.subrange(filter.1 as int, filter.1 + filter.2);
    let at_filter = LoadModel::Filter { footer, filter, index_bytes };
    assert(at_index.step(index_bytes) == Some(Ok::<_, BtreeIndexError>(at_filter)));
    let meta = (file.footer, file.blocks, file.filter);
    assert(at_filter.step(filter_bytes) == Some(
        Ok::<_, BtreeIndexError>(LoadModel::Done { meta }),
    ));
    assert(loaded(data, LoadModel::Done { meta }) == Some(Ok::<_, BtreeIndexError>(meta)));
    assert(loaded(data, at_filter) == Some(Ok::<_, BtreeIndexError>(meta)));
    assert(loaded(data, at_index) == Some(Ok::<_, BtreeIndexError>(meta)));
    assert(loaded(data, at_footer) == Some(Ok::<_, BtreeIndexError>(meta)));
    assert(loaded(data, tail) == Some(Ok::<_, BtreeIndexError>(meta)));
}

/// What a reader keeps of a file that is at hand whole.
pub fn meta_of_open_file(view: BtreeIndexFileView) -> (r: BtreeIndexFileMeta)
    ensures
        r@ == (view@.footer, view@.blocks, view@.filter),
{
    view.into_meta()
}

/// The key under which a data block is cached.
pub open spec fn block_key(location: Seq<char>, block: BlockModel) -> Seq<char> {
    location + "#"@ + decimal(block.2 as nat) + "+"@ + decimal(block.3 as nat)
}

/// The key under which a data block is cached.
pub fn data_block_cache_key(location: &str, block_meta: &BtreeIndexDataBlockMeta) -> (r: String)
    ensures
        r@ == block_key(location@, block_meta@),
{
    let mut r = String::from_str(location);
    append_text(&mut r, "#");
    append_text(&mut r, decimal_text(block_meta.offset).as_str());
    append_text(&mut r, "+");
    append_text(&mut r, decimal_text(block_meta.length).as_str());
    r
}

/// The bytes of the file that a data block takes; `None` where it ends past every number.
pub fn data_block_range(block_meta: &BtreeIndexDataBlockMeta) -> (r: Option<(u64, u64)>)
    ensures
        match r {
            Some((start, end)) => start == block_meta.offset && end == block_meta.offset
                + block_meta.length,
            None => block_meta.offset + block_meta.length > u64::MAX,
        },
{
    match block_meta.offset.checked_add(block_meta.length) {
        Some(end) => Some((block_meta.offset, end)),
        None => None,
    }
}

/// The bytes of a data block that were read by its range are accepted, or refused, as those that
/// are taken out of the whole file.
pub proof fn law_block_by_range_agrees_with_file(data: Seq<u8>, block: BlockModel)
    requires
        block.2 + block.3 <= data.len() <= u64::MAX,
    ensures
        ({
            let bytes = data.subrange(block.2 as int, block.2 + block.3);
            block_bytes_outcome(data, block) == (match block_checksum_outcome(block, bytes) {
                Ok(_) => Some(Ok::<_, BtreeIndexError>(bytes)),
                Err(e) => Some(Err::<Seq<u8>, _>(e)),
            })
        }),
{
}

} // verus!
