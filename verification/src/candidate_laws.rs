//! Which data blocks of a file are read for a scan.

use std::sync::Arc;

use vstd::prelude::*;

use crate::candidate::{are_file_candidates, promising_blocks, BtreeIndexCandidateBlock,
    ReadModel};
use crate::lex::{has_prefix, lemma_lex_le_transitive, lemma_prefix_interval, lemma_prefix_is_le,
    lex_le};
use crate::predicate::{block_may_satisfy, key_satisfies_all, KeyPredicateModel};
use crate::pruning::{filter_bounds_hold, law_pruning_keeps_matching_blocks};
use crate::types::BlockModel;
use crate::view::{candidate_blocks, BtreeIndexFileMeta, QueryModel};

verus! {

proof fn lemma_promising(
    blocks: Seq<BlockModel>,
    prefix: Seq<u8>,
    count: usize,
    predicates: Seq<KeyPredicateModel>,
    block: BlockModel,
)
    ensures
        promising_blocks(blocks, prefix, count, predicates).contains(block) <==> blocks.contains(
            block,
        ) && block_may_satisfy(block.0, block.1, prefix, count, predicates),
    decreases blocks.len(),
{
    if blocks.len() > 0 {
        let head = blocks.drop_last();
        let n = blocks.len() - 1;
        lemma_promising(head, prefix, count, predicates, block);
        let before = promising_blocks(head, prefix, count, predicates);
        let now = promising_blocks(blocks, prefix, count, predicates);
        lemma_grows(head, blocks, block);
        if now != before {
            assert(now.drop_last() =~= before);
            lemma_grows(before, now, block);
        }
    }
}

proof fn lemma_candidate(query: QueryModel, blocks: Seq<BlockModel>, block: BlockModel)
    ensures
        candidate_blocks(query, blocks).contains(block) <==> blocks.contains(block)
            && query.may_be_in(block),
    decreases blocks.len(),
{
    if blocks.len() > 0 {
        let head = blocks.drop_last();
        lemma_candidate(query, head, block);
        let before = candidate_blocks(query, head);
        let now = candidate_blocks(query, blocks);
        lemma_grows(head, blocks, block);
        if now != before {
            assert(now.drop_last() =~= before);
            lemma_grows(before, now, block);
        }
    }
}

proof fn lemma_grows(before: Seq<BlockModel>, now: Seq<BlockModel>, block: BlockModel)
    requires
        now.len() == before.len() + 1,
        now.drop_last() == before,
    ensures
        now.contains(block) <==> before.contains(block) || now.last() == block,
{
    if now.contains(block) {
        let k = choose|k: int| 0 <= k < now.len() && now[k] == block;
        if k < before.len() {
            assert(before[k] == block);
        }
    }
    if before.contains(block) {
        let k = choose|k: int| 0 <= k < before.len() && before[k] == block;
        assert(now.drop_last()[k] == now[k]);
        assert(now[k] == block);
    }
    if now.last() == block {
        assert(now[now.len() - 1] == block);
    }
}

/// A file whose filter does not deny the prefix of a scan gives, as candidates, only data blocks of
/// its own, and each data block between whose first and last key lies a key that the scan asks for:
/// one that begins with the prefix and of which all the filters on the key hold. A file whose filter
/// denies the prefix gives none.
pub proof fn law_file_gives_the_blocks_that_may_match(
    r: Seq<BtreeIndexCandidateBlock>,
    index_location: Seq<char>,
    meta: Arc<BtreeIndexFileMeta>,
    may_contain_prefix: bool,
    prefix: Seq<u8>,
    count: usize,
    predicates: Seq<KeyPredicateModel>,
    block: BlockModel,
    key: Seq<u8>,
    i: int,
)
    requires
        are_file_candidates(
            r,
            index_location,
            meta,
            may_contain_prefix,
            prefix,
            count,
            predicates,
        ),
        meta.index_block@.contains(block),
        lex_le(block.0, key),
        lex_le(key, block.1),
        has_prefix(key, prefix),
        key_satisfies_all(predicates, key),
        forall|k: int|
            0 <= k < predicates.len() ==> filter_bounds_hold(
                block.0,
                key,
                block.1,
                count,
                #[trigger] predicates[k],
            ),
    ensures
        !may_contain_prefix ==> r.len() == 0,
        0 <= i < r.len() ==> r[i]@.location == index_location && r[i]@.meta == meta@
            && meta.index_block@.contains(r[i]@.block),
        may_contain_prefix ==> exists|k: int| 0 <= k < r.len() && (#[trigger] r[k])@.block == block,
{
    let query = QueryModel::Prefix { prefix, limit: None };
    let near = candidate_blocks(query, meta.index_block@);
    let blocks = promising_blocks(near, prefix, count, predicates);
    if 0 <= i < r.len() {
        assert(r[i]@.block == blocks[i]);
        assert(blocks.contains(blocks[i]));
        lemma_promising(near, prefix, count, predicates, blocks[i]);
        lemma_candidate(query, meta.index_block@, blocks[i]);
    }
    lemma_prefix_is_le(key, prefix);
    lemma_lex_le_transitive(prefix, key, block.1);
    if lex_le(prefix, block.0) {
        lemma_prefix_interval(block.0, key, prefix);
    }
    assert(query.may_be_in(block));
    lemma_candidate(query, meta.index_block@, block);
    law_pruning_keeps_matching_blocks(block.0, key, block.1, prefix, count, predicates);
    lemma_promising(near, prefix, count, predicates, block);
    if may_contain_prefix {
        let k = choose|k: int| 0 <= k < blocks.len() && blocks[k] == block;
        assert(r[k]@.block == block);
    }
}

/// A reading that is not done reads at least one candidate at a time, and never more than are left;
/// only one where it may stop early, because it has a limit or reads in order.
pub proof fn law_batch_is_of_candidates_left(state: ReadModel)
    requires
        state.wf(),
    ensures
        state.done <==> state.batch() == 0,
        0 <= state.batch() <= state.first_keys.len() - state.next,
        !state.done && (state.limit is Some || state.in_order) ==> state.batch() == 1,
        !state.done && state.limit is None && !state.in_order ==> state.batch() == 32
            || state.batch() == state.first_keys.len() - state.next && state.batch() < 32,
{
}

} // verus!
