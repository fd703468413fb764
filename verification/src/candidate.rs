//! Reading the data blocks that may hold what a scan asks for.

use std::sync::Arc;

use vstd::prelude::*;
use vstd::utf8::encode_utf8;

use crate::lex::{bytes_clone, bytes_eq, bytes_le, bytes_lt, lex_le, lex_lt};
use crate::lex::{lemma_lex_irreflexive, lemma_lex_le_transitive, lemma_lex_lt_is_le,
    lemma_lex_total};
use crate::predicate::{block_may_satisfy, candidate_block_may_match_key_predicates,
    key_predicates_view, BtreeIndexKeyPredicate, KeyPredicateModel};
use crate::rows::{sort_and_truncate_rows, sort_rows};
use crate::sort::{lemma_stable_sort_exists, lemma_stable_sort_sorted, lemma_stable_sort_unique,
    lemma_stable_sort_view, sort_stably, stable_sort, Ranked, Sortable};
use crate::text::{lemma_utf8_injective, text_eq, text_is_before, text_lt};
use crate::types::{blocks_view, rows_view, BlockModel, BtreeIndexDataBlockMeta, BtreeIndexRow,
    FileMetaModel, RowModel};
use crate::view::{candidate_blocks, BtreeIndexFileMeta, QueryModel};

verus! {

/// So many data blocks are read at once where every one has to be read.
pub const BTREE_INDEX_DATA_BLOCK_READ_BATCH_SIZE: usize = 32;

/// A data block that may hold rows of a scan, with the file that it stands in.
#[derive(Debug)]
pub struct BtreeIndexCandidateBlock {
    pub index_location: String,
    pub meta: Arc<BtreeIndexFileMeta>,
    pub block_meta: BtreeIndexDataBlockMeta,
}

/// The model of a candidate: the file's location, what is kept of the file, and the block's entry
/// in the file's index.
pub struct CandidateModel {
    pub location: Seq<char>,
    pub meta: FileMetaModel,
    pub block: BlockModel,
}

impl View for BtreeIndexCandidateBlock {
    type V = CandidateModel;

    open spec fn view(&self) -> CandidateModel {
        CandidateModel {
            location: self.index_location@,
            meta: self.meta@,
            block: self.block_meta@,
        }
    }
}

/// The models of candidates.
pub open spec fn candidates_view(candidates: Seq<BtreeIndexCandidateBlock>) -> Seq<
    CandidateModel,
> {
    Seq::new(candidates.len(), |i: int| candidates[i]@)
}

impl Ranked for CandidateModel {
    open spec fn ranks_before(self, other: Self) -> bool {
        ||| lex_lt(self.block.0, other.block.0)
        ||| self.block.0 == other.block.0 && {
            ||| lex_lt(self.block.1, other.block.1)
            ||| self.block.1 == other.block.1 && {
                ||| text_lt(self.location, other.location)
                ||| self.location == other.location && self.block.2 < other.block.2
            }
        }
    }

    proof fn rank_asymmetric(a: Self, b: Self) {
        if lex_lt(a.block.0, b.block.0) {
            lemma_lex_lt_is_le(a.block.0, b.block.0);
        }
        if lex_lt(a.block.1, b.block.1) {
            lemma_lex_lt_is_le(a.block.1, b.block.1);
        }
        if text_lt(a.location, b.location) {
            lemma_lex_lt_is_le(encode_utf8(a.location), encode_utf8(b.location));
        }
        lemma_lex_irreflexive(a.block.0);
        lemma_lex_irreflexive(a.block.1);
        lemma_lex_irreflexive(encode_utf8(a.location));
    }

    proof fn rank_negatively_transitive(a: Self, b: Self, c: Self) {
        // Each of the four keys is totally ordered.
        let (a0, b0, c0) = (a.block.0, b.block.0, c.block.0);
        let (a1, b1, c1) = (a.block.1, b.block.1, c.block.1);
        let (a2, b2, c2) = (
            encode_utf8(a.location),
            encode_utf8(b.location),
            encode_utf8(c.location),
        );
        if c.ranks_before(a) {
            lemma_lex_total(a0, b0);
            lemma_lex_total(b0, c0);
            lemma_lex_le_transitive(a0, b0, c0);
            lemma_lex_irreflexive(a0);
            lemma_lex_irreflexive(c0);
            if a0 == b0 && b0 == c0 {
                lemma_lex_total(a1, b1);
                lemma_lex_total(b1, c1);
                lemma_lex_le_transitive(a1, b1, c1);
                lemma_lex_irreflexive(a1);
                lemma_lex_irreflexive(c1);
                if a1 == b1 && b1 == c1 {
                    lemma_lex_total(a2, b2);
                    lemma_lex_total(b2, c2);
                    lemma_lex_le_transitive(a2, b2, c2);
                    lemma_lex_irreflexive(a2);
                    lemma_lex_irreflexive(c2);
                    if a2 == b2 {
                        lemma_utf8_injective(a.location, b.location);
                    }
                    if b2 == c2 {
                        lemma_utf8_injective(b.location, c.location);
                    }
                }
            }
        }
    }
}

impl Ranked for BtreeIndexCandidateBlock {
    open spec fn ranks_before(self, other: Self) -> bool {
        self@.ranks_before(other@)
    }

    proof fn rank_asymmetric(a: Self, b: Self) {
        CandidateModel::rank_asymmetric(a@, b@);
    }

    proof fn rank_negatively_transitive(a: Self, b: Self, c: Self) {
        CandidateModel::rank_negatively_transitive(a@, b@, c@);
    }
}

impl Sortable for BtreeIndexCandidateBlock {
    fn is_before(&self, other: &Self) -> (r: bool) {
        let a = &self.block_meta;
        let b = &other.block_meta;
        if bytes_lt(a.first_key.as_slice(), b.first_key.as_slice()) {
            return true;
        }
        if !bytes_eq(a.first_key.as_slice(), b.first_key.as_slice()) {
            return false;
        }
        if bytes_lt(a.last_key.as_slice(), b.last_key.as_slice()) {
            return true;
        }
        if !bytes_eq(a.last_key.as_slice(), b.last_key.as_slice()) {
            return false;
        }
        if text_is_before(self.index_location.as_str(), other.index_location.as_str()) {
            return true;
        }
        text_eq(self.index_location.as_str(), other.index_location.as_str()) && a.offset < b.offset
    }
}

/// Each candidate's last key comes before the next one's first key.
pub open spec fn are_disjoint(candidates: Seq<CandidateModel>) -> bool {
    forall|i: int|
        0 <= i < candidates.len() - 1 ==> lex_lt(
            (#[trigger] candidates[i]).block.1,
            candidates[i + 1].block.0,
        )
}

/// Whether each candidate's last key comes before the next one's first key.
pub fn candidate_blocks_are_disjoint(candidates: &Vec<BtreeIndexCandidateBlock>) -> (r: bool)
    ensures
        r == are_disjoint(candidates_view(candidates@)),
{
    let ghost models = candidates_view(candidates@);
    if candidates.len() == 0 {
        return true;
    }
    let mut i: usize = 0;
    while i < candidates.len() - 1
        invariant
            i < candidates@.len(),
            models == candidates_view(candidates@),
            forall|k: int|
                0 <= k < i ==> lex_lt((#[trigger] models[k]).block.1, models[k + 1].block.0),
        decreases candidates@.len() - i,
    {
        let last = candidates[i].block_meta.last_key.as_slice();
        let first = candidates[i + 1].block_meta.first_key.as_slice();
        assert(models[i as int].block.1 == last@ && models[i + 1].block.0 == first@);
        if !bytes_lt(last, first) {
            return false;
        }
        i = i + 1;
    }
    true
}

/// The entries of a file that may hold rows of a scan: its keys begin with `prefix`, and filters hold
/// of them.
pub open spec fn promising_blocks(
    blocks: Seq<BlockModel>,
    prefix: Seq<u8>,
    prefix_component_count: usize,
    predicates: Seq<KeyPredicateModel>,
) -> Seq<BlockModel>
    decreases blocks.len(),
{
    if blocks.len() == 0 {
        Seq::empty()
    } else {
        let before = promising_blocks(
            blocks.drop_last(),
            prefix,
            prefix_component_count,
            predicates,
        );
        let last = blocks.last();
        if block_may_satisfy(last.0, last.1, prefix, prefix_component_count, predicates) {
            before.push(last)
        } else {
            before
        }
    }
}

/// These are the candidates of one file, given whether its filter may hold the equality prefix.
pub open spec fn are_file_candidates(
    r: Seq<BtreeIndexCandidateBlock>,
    index_location: Seq<char>,
    meta: Arc<BtreeIndexFileMeta>,
    may_contain_prefix: bool,
    prefix: Seq<u8>,
    prefix_component_count: usize,
    predicates: Seq<KeyPredicateModel>,
) -> bool {
    &&& !may_contain_prefix ==> r.len() == 0
    &&& may_contain_prefix ==> {
        let blocks = promising_blocks(
            candidate_blocks((QueryModel::Prefix { prefix, limit: None }), meta.index_block@),
            prefix,
            prefix_component_count,
            predicates,
        );
        &&& r.len() == blocks.len()
        &&& forall|i: int|
            0 <= i < blocks.len() ==> (#[trigger] r[i])@ == (CandidateModel {
                location: index_location,
                meta: meta@,
                block: blocks[i],
            }) && r[i].meta == meta
    }
}

/// The candidates of one file, given whether its filter may hold the equality prefix.
pub fn candidate_blocks_of_file(
    index_location: &str,
    meta: &Arc<BtreeIndexFileMeta>,
    may_contain_prefix: bool,
    prefix: &[u8],
    prefix_component_count: usize,
    key_predicates: &Vec<BtreeIndexKeyPredicate>,
) -> (r: Vec<BtreeIndexCandidateBlock>)
    ensures
        are_file_candidates(
            r@,
            index_location@,
            *meta,
            may_contain_prefix,
            prefix@,
            prefix_component_count,
            key_predicates_view(key_predicates@),
        ),
{
    let mut r: Vec<BtreeIndexCandidateBlock> = Vec::new();
    if !may_contain_prefix {
        return r;
    }
    let blocks = meta.blocks_for_prefix(prefix);
    let ghost models = blocks_view(blocks@);
    let ghost predicates = key_predicates_view(key_predicates@);
    let mut i: usize = 0;
    assert(models.take(0) =~= Seq::<BlockModel>::empty());
    while i < blocks.len()
        invariant
            i <= blocks@.len(),
            models == blocks_view(blocks@),
            predicates == key_predicates_view(key_predicates@),
            r@.len() == promising_blocks(
                models.take(i as int),
                prefix@,
                prefix_component_count,
                predicates,
            ).len(),
            forall|k: int|
                0 <= k < r@.len() ==> (#[trigger] r@[k])@ == (CandidateModel {
                    location: index_location@,
                    meta: meta@,
                    block: promising_blocks(
                        models.take(i as int),
                        prefix@,
                        prefix_component_count,
                        predicates,
                    )[k],
                }) && r@[k].meta == *meta,
        decreases blocks@.len() - i,
    {
        let block = &blocks[i];
        proof {
            let t = models.take(i + 1);
            assert(t.drop_last() =~= models.take(i as int));
            assert(t.last() == block@);
        }
        if candidate_block_may_match_key_predicates(
            block,
            prefix,
            prefix_component_count,
            key_predicates,
        ) {
            r.push(
                BtreeIndexCandidateBlock {
                    index_location: index_location.to_owned(),
                    meta: meta.clone(),
                    block_meta: block.clone(),
                },
            );
        }
        i = i + 1;
    }
    assert(models.take(models.len() as int) =~= models);
    r
}

/// The rows before the first one whose key is not before the bound, where the rows are sorted.
pub open spec fn rows_before(rows: Seq<RowModel>, bound: Option<Seq<u8>>) -> Seq<RowModel>
    decreases rows.len(),
{
    match bound {
        None => rows,
        Some(key) => if rows.len() == 0 {
            rows
        } else if lex_lt(rows.last().0, key) {
            rows
        } else {
            rows_before(rows.drop_last(), bound)
        },
    }
}

/// A request for the rows of a candidate: at most so many, and only those before a bound.
#[derive(Debug)]
pub struct CandidateRequest {
    pub candidate: usize,
    pub limit: Option<usize>,
    pub upper_bound_key: Option<Vec<u8>>,
}

/// The model of a request.
pub struct RequestModel {
    pub candidate: int,
    pub limit: Option<usize>,
    pub upper_bound_key: Option<Seq<u8>>,
}

impl View for CandidateRequest {
    type V = RequestModel;

    open spec fn view(&self) -> RequestModel {
        RequestModel {
            candidate: self.candidate as int,
            limit: self.limit,
            upper_bound_key: match self.upper_bound_key {
                Some(key) => Some(key@),
                None => None,
            },
        }
    }
}

/// Reading candidates one after the other until enough rows are found.
#[derive(Debug)]
pub struct CandidateRead {
    pub candidates: Vec<BtreeIndexCandidateBlock>,
    pub in_order: bool,
    pub limit: Option<usize>,
    pub next: usize,
    pub rows: Vec<BtreeIndexRow>,
    pub done: bool,
}

/// The model of a reading: the first keys of the candidates, and what was read so far.
pub struct ReadModel {
    pub first_keys: Seq<Seq<u8>>,
    pub in_order: bool,
    pub limit: Option<usize>,
    pub next: int,
    pub rows: Seq<RowModel>,
    pub done: bool,
}

/// The first keys of candidates.
pub open spec fn first_keys_of(candidates: Seq<CandidateModel>) -> Seq<Seq<u8>> {
    Seq::new(candidates.len(), |i: int| candidates[i].block.0)
}

impl View for CandidateRead {
    type V = ReadModel;

    open spec fn view(&self) -> ReadModel {
        ReadModel {
            first_keys: first_keys_of(candidates_view(self.candidates@)),
            in_order: self.in_order,
            limit: self.limit,
            next: self.next as int,
            rows: rows_view(self.rows@),
            done: self.done,
        }
    }
}

impl ReadModel {
    /// A reading that has not begun.
    pub open spec fn begun(
        first_keys: Seq<Seq<u8>>,
        in_order: bool,
        limit: Option<usize>,
    ) -> ReadModel {
        ReadModel {
            first_keys,
            in_order,
            limit,
            next: 0,
            rows: Seq::empty(),
            done: first_keys.len() == 0 || (in_order && limit == Some(0usize)),
        }
    }

    /// The reading is in a state that it can be in: there is a candidate left while it is not done;
    /// fewer rows than the limit are held in order, and at most as many out of order.
    pub open spec fn wf(self) -> bool {
        &&& 0 <= self.next <= self.first_keys.len()
        &&& !self.done ==> self.next < self.first_keys.len()
        &&& !self.done ==> (self.limit matches Some(n) ==> n > 0 && self.rows.len() <= n && (
        self.in_order ==> self.rows.len() < n))
    }

    /// How many candidates may be read at once.
    pub open spec fn batch(self) -> int {
        if self.done {
            0
        } else if self.in_order || self.limit is Some {
            1
        } else if self.first_keys.len() - self.next < BTREE_INDEX_DATA_BLOCK_READ_BATCH_SIZE {
            self.first_keys.len() - self.next
        } else {
            BTREE_INDEX_DATA_BLOCK_READ_BATCH_SIZE as int
        }
    }

    /// What is asked of the next candidate.
    pub open spec fn request(self) -> RequestModel {
        RequestModel {
            candidate: self.next,
            limit: match self.limit {
                None => None,
                Some(n) => if self.in_order {
                    Some((n - self.rows.len()) as usize)
                } else {
                    Some(n)
                },
            },
            upper_bound_key: match self.limit {
                Some(n) => if !self.in_order && self.rows.len() == n {
                    Some(self.rows.last().0)
                } else {
                    None
                },
                None => None,
            },
        }
    }

    /// The reading after the rows of a candidate came in.
    pub open spec fn accepted(self, block_rows: Seq<RowModel>) -> ReadModel {
        let all = self.rows + block_rows;
        let next = self.next + 1;
        let last = next == self.first_keys.len();
        if self.in_order {
            match self.limit {
                Some(n) => if all.len() >= n {
                    ReadModel { next, rows: all.take(n as int), done: true, ..self }
                } else {
                    ReadModel { next, rows: all, done: last, ..self }
                },
                None => ReadModel { next, rows: all, done: last, ..self },
            }
        } else {
            match self.limit {
                None => ReadModel {
                    next,
                    rows: if last {
                        stable_sort(all)
                    } else {
                        all
                    },
                    done: last,
                    ..self
                },
                Some(n) => if all.len() >= n {
                    let rows = stable_sort(all).take(n as int);
                    ReadModel {
                        next,
                        rows,
                        done: last || lex_le(rows.last().0, self.first_keys[next]),
                        ..self
                    }
                } else {
                    ReadModel {
                        next,
                        rows: if last {
                            stable_sort(all)
                        } else {
                            all
                        },
                        done: last,
                        ..self
                    }
                },
            }
        }
    }
}

/// The candidates in the order in which they are read.
pub open spec fn read_order(candidates: Seq<CandidateModel>) -> Seq<CandidateModel> {
    stable_sort(candidates)
}

impl CandidateRead {
    /// Begins to read candidates: in order where their key ranges do not overlap, else with the rows
    /// sorted as they come in. Overlapping candidates are not read with a limit of zero.
    pub fn start(candidates: Vec<BtreeIndexCandidateBlock>, limit: Option<usize>) -> (r: Self)
        requires
            limit == Some(0usize) ==> are_disjoint(read_order(candidates_view(candidates@))),
        ensures
            r.starts(candidates@, limit),
    {
        CandidateRead::try_start(candidates, limit).unwrap()
    }

    /// The reading begins with these candidates, in the order in which they are read.
    pub open spec fn starts(
        self,
        candidates: Seq<BtreeIndexCandidateBlock>,
        limit: Option<usize>,
    ) -> bool {
        let sorted = read_order(candidates_view(candidates));
        &&& self.candidates@ == stable_sort(candidates)
        &&& candidates_view(self.candidates@) == sorted
        &&& self@ == ReadModel::begun(first_keys_of(sorted), are_disjoint(sorted), limit)
        &&& self@.wf()
    }

    /// Begins to read candidates; `None` where they overlap and the limit is zero.
    pub fn try_start(candidates: Vec<BtreeIndexCandidateBlock>, limit: Option<usize>) -> (r: Option<
        Self,
    >)
        ensures
            match r {
                Some(read) => read.starts(candidates@, limit),
                None => limit == Some(0usize) && !are_disjoint(
                    read_order(candidates_view(candidates@)),
                ),
            },
    {
        let sorted = sort_stably(candidates);
        proof {
            lemma_stable_sort_sorted(candidates@, sorted@);
            lemma_stable_sort_view(
                candidates@,
                sorted@,
                candidates_view(candidates@),
                candidates_view(sorted@),
                |c: BtreeIndexCandidateBlock| c@,
            );
            lemma_stable_sort_unique(candidates@, sorted@);
            lemma_stable_sort_unique(candidates_view(candidates@), candidates_view(sorted@));
        }
        let in_order = candidate_blocks_are_disjoint(&sorted);
        if !in_order && limit == Some(0) {
            return None;
        }
        let done = sorted.len() == 0 || (in_order && limit == Some(0));
        let rows: Vec<BtreeIndexRow> = Vec::new();
        assert(rows_view(rows@) =~= Seq::<RowModel>::empty());
        Some(CandidateRead { candidates: sorted, in_order, limit, next: 0, rows, done })
    }

    /// How many candidates may be read at once.
    pub fn batch_size(&self) -> (r: usize)
        requires
            self@.wf(),
        ensures
            r as int == self@.batch(),
    {
        if self.done {
            0
        } else if self.in_order || self.limit.is_some() {
            1
        } else {
            let left: usize = self.candidates.len() - self.next;
            if left < BTREE_INDEX_DATA_BLOCK_READ_BATCH_SIZE {
                left
            } else {
                BTREE_INDEX_DATA_BLOCK_READ_BATCH_SIZE
            }
        }
    }

    /// What to ask of the next candidate.
    pub fn request(&self) -> (r: CandidateRequest)
        requires
            self@.wf(),
            !self.done,
        ensures
            r@ == self@.request(),
            r.candidate < self.candidates@.len(),
    {
        let limit: Option<usize> = match self.limit {
            None => None,
            Some(n) => if self.in_order {
                assert(rows_view(self.rows@).len() == self.rows@.len());
                Some(n - self.rows.len())
            } else {
                Some(n)
            },
        };
        let mut upper_bound_key: Option<Vec<u8>> = None;
        if let Some(n) = self.limit {
            if !self.in_order && self.rows.len() == n {
                let last = &self.rows[n - 1];
                assert(rows_view(self.rows@).last() == last@);
                upper_bound_key = Some(bytes_clone(last.encoded_key.as_slice()));
            }
        }
        CandidateRequest { candidate: self.next, limit, upper_bound_key }
    }

    /// Takes in the rows of the candidate that was asked.
    pub fn accept(&mut self, block_rows: Vec<BtreeIndexRow>)
        requires
            old(self)@.wf(),
            !old(self).done,
        ensures
            final(self)@ == old(self)@.accepted(rows_view(block_rows@)),
            final(self)@.wf(),
            final(self).candidates@ == old(self).candidates@,
    {
        let ghost before = self@;
        let ghost block = rows_view(block_rows@);
        let mut block_rows = block_rows;
        let mut rows: Vec<BtreeIndexRow> = Vec::new();
        core::mem::swap(&mut rows, &mut self.rows);
        rows.append(&mut block_rows);
        assert(rows_view(rows@) =~= before.rows + block);
        let ghost all = rows_view(rows@);
        assert(before.first_keys.len() == self.candidates.len());
        self.next = self.next + 1;
        let last = self.next == self.candidates.len();
        match self.limit {
            None => {
                if !self.in_order && last {
                    self.rows = sort_rows(rows);
                } else {
                    self.rows = rows;
                }
                self.done = last;
            },
            Some(n) => {
                assert(all.len() == rows@.len());
                if self.in_order {
                    if rows.len() >= n {
                        rows.truncate(n);
                        assert(rows_view(rows@) =~= all.take(n as int));
                        self.rows = rows;
                        self.done = true;
                    } else {
                        self.rows = rows;
                        self.done = last;
                    }
                } else if rows.len() >= n {
                    let top = sort_and_truncate_rows(rows, n);
                    proof {
                        lemma_stable_sort_exists(all);
                        lemma_stable_sort_sorted(all, stable_sort(all));
                        assert(stable_sort(all).take(n as int) =~= rows_view(top@));
                        assert(rows_view(top@).len() == top@.len());
                        assert(rows_view(top@).last() == top@[n - 1]@);
                    }
                    self.done = if last {
                        true
                    } else {
                        bytes_le(
                            top[n - 1].encoded_key.as_slice(),
                            self.candidates[self.next].block_meta.first_key.as_slice(),
                        )
                    };
                    self.rows = top;
                } else {
                    if last {
                        let top = sort_and_truncate_rows(rows, n);
                        proof {
                            lemma_stable_sort_exists(all);
                            lemma_stable_sort_sorted(all, stable_sort(all));
                        }
                        self.rows = top;
                    } else {
                        self.rows = rows;
                    }
                    self.done = last;
                }
            },
        }
    }
}

} // verus!
