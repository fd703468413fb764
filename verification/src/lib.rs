use vstd::prelude::*;

pub mod agg_index;
pub mod assoc;
pub mod candidate;
pub mod candidate_laws;
pub mod codec;
pub mod column_set;
pub mod columns;
pub mod digest;
pub mod error;
pub mod expr;
pub mod expr_meaning;
pub mod fast;
pub mod filter;
pub mod filter_laws;
pub mod filter_meaning;
pub mod filter_parts;
pub mod format;
pub mod index_def;
pub mod index_laws;
pub mod index_scan;
pub mod key;
pub mod key_laws;
pub mod key_value_laws;
pub mod layout;
pub mod lex;
pub mod loader;
pub mod normalize;
pub mod normalize_laws;
pub mod ordered_choice_laws;
pub mod ordered_index;
pub mod ordered_laws;
pub mod ordered_scan;
pub mod payload;
pub mod payload_laws;
pub mod plan_cache;
pub mod plan_cache_laws;
pub mod plan_laws;
pub mod plan_meaning;
pub mod plan_reuse_laws;
pub mod predicate;
pub mod pruning;
pub mod push_down;
pub mod push_laws;
pub mod reading;
pub mod record;
pub mod round_trip;
pub mod rows;
pub mod rows_laws;
pub mod scalar;
pub mod scalar_expr;
pub mod scan;
pub mod scan_laws;
pub mod scan_plan;
pub mod select;
pub mod select_laws;
pub mod sort;
pub mod table_laws;
pub mod table_meta;
pub mod table_plan;
pub mod table_scan;
pub mod text;
pub mod text_laws;
pub mod topk;
pub mod types;
pub mod view;
pub mod wide;
pub mod writer;

verus! {

} // verus!
