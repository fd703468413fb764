# btree_index

An ordered index over the blocks of a table, and the planning of table scans that use it.

An index file is a sorted string table: data blocks of rows in the order of their encoded keys, a
filter over the equality prefixes of the keys, an index of the data blocks, and a footer. The
library writes and reads such files, scans many of them for the first rows of a key prefix, and
decides when a query plan is answered by an index. Its behaviour is stated in contracts and proved
with [Verus](https://github.com/verus-lang/verus).

- `src/lex.rs`, `src/sort.rs`, `src/text.rs`, `src/wide.rs`: byte order, stable sorting, texts, wide
  integers.
- `src/key.rs`, `src/key_laws.rs`: encoded keys, and how they order.
- `src/types.rs`, `src/format.rs`, `src/record.rs`, `src/codec.rs`: the file format.
- `src/writer.rs`, `src/index_def.rs`: building index files.
- `src/view.rs`, `src/loader.rs`, `src/round_trip.rs`, `src/layout.rs`: opening and reading them,
  that lookups find what was written, and what a written file looks like.
- `src/expr.rs`, `src/filter.rs`, `src/fast.rs`, `src/predicate.rs`, `src/normalize.rs`,
  `src/filter_meaning.rs`, `src/filter_parts.rs`, `src/pruning.rs`: filters on keys and payloads.
- `src/candidate.rs`, `src/rows.rs`, `src/select.rs`, `src/index_scan.rs`, `src/reading.rs`,
  `src/topk.rs`, `src/payload.rs`: scanning candidate blocks.
- `src/scan.rs`, `src/columns.rs`, `src/column_set.rs`, `src/push_down.rs`, `src/table_scan.rs`,
  `src/table_plan.rs`, `src/scan_plan.rs`, `src/agg_index.rs`: planning table scans.
- `src/table_meta.rs`, `src/scalar_expr.rs`, `src/ordered_index.rs`, `src/ordered_scan.rs`: choosing
  an ordered index.
- `src/plan_cache.rs`: when a cached plan may be used again.
- `app/`: the services around the library, over an object store.
