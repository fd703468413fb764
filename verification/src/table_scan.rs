//! Planning the scan of a table.

use vstd::prelude::*;

use crate::assoc::{find_entry, insert_entry, keys_ascend, map_of};
use crate::column_set::ColumnSet;
use crate::columns::{ColumnEntry, InternalColumn, VirtualColumn};
use crate::digest::{digest_text, text_digest};
use crate::scalar::TableField;
use crate::scan::{Prewhere, Scan};
use crate::sort::{arranged, is_permutation, law_sort_ignores_order, stable_sort, Ranked};
use crate::text::{append_text, decimal, decimal_text, join_texts, joined_text,
    lemma_decimal_digits, lemma_decimal_injective, lemma_text_total, sort_texts, texts_view};

verus! {

/// The name of the column of row ids.
pub const ROW_ID_COL_NAME: &'static str = "_row_id";

/// What is left of a scan once the columns that nobody uses are dropped.
pub struct PrunedModel {
    /// The columns that are read.
    pub columns: Set<usize>,
    /// The columns that are left once the early filter was tried, where there is one.
    pub output_columns: Option<Set<usize>>,
    /// The columns that are read later, by row id, where the table is read so.
    pub lazy_columns: Option<Set<usize>>,
    /// The columns that the plan must keep, where columns are read later.
    pub retained_columns: Set<usize>,
}

/// What is left of a scan once the columns that nobody uses are dropped. Virtual columns that are
/// required are added; the columns of the row access policies, and those of the early filter, are
/// kept.
pub open spec fn pruned(
    scan: Scan,
    required: Set<usize>,
    virtual_columns: Set<usize>,
    secure_columns: Set<usize>,
    supported_lazy_materialize: bool,
    has_ordered_index: bool,
) -> PrunedModel {
    if scan.columns@ == Set::<usize>::empty() {
        PrunedModel {
            columns: scan.columns@,
            output_columns: match scan.prewhere {
                Some(prewhere) => Some(prewhere.output_columns@),
                None => None,
            },
            lazy_columns: None,
            retained_columns: Set::empty(),
        }
    } else {
        let columns = scan.columns@.union(required.intersect(virtual_columns));
        let needed = required.intersect(columns).union(secure_columns);
        let lazy = scan.is_lazy_table && supported_lazy_materialize;
        let used = if lazy && has_ordered_index {
            columns
        } else {
            needed
        };
        PrunedModel {
            columns: match scan.prewhere {
                Some(prewhere) => used.union(prewhere.prewhere_columns@),
                None => used,
            },
            output_columns: match scan.prewhere {
                Some(_) => Some(used),
                None => None,
            },
            lazy_columns: if !lazy {
                None
            } else if has_ordered_index {
                Some(Set::empty())
            } else {
                Some(columns.difference(needed))
            },
            retained_columns: if lazy {
                used
            } else {
                Set::empty()
            },
        }
    }
}

/// A scan without the columns that nobody uses.
#[derive(Debug)]
pub struct PrunedScan {
    pub scan: Scan,
    /// The columns that are read later, by row id, where the table is read so.
    pub lazy_columns: Option<ColumnSet>,
    /// The columns that the plan must keep, where columns are read later.
    pub retained_columns: ColumnSet,
}

/// The scans agree but for the columns that they read.
pub open spec fn same_but_columns(a: Scan, b: Scan) -> bool {
    &&& a.table_index == b.table_index
    &&& a.scan_id == b.scan_id
    &&& a.push_down_predicates == b.push_down_predicates
    &&& a.secure_predicates == b.secure_predicates
    &&& a.limit == b.limit
    &&& a.order_by == b.order_by
    &&& a.is_lazy_table == b.is_lazy_table
    &&& a.update_stream_columns == b.update_stream_columns
    &&& a.change_type == b.change_type
    &&& a.inverted_index == b.inverted_index
    &&& a.vector_index == b.vector_index
    &&& a.sample == b.sample
    &&& match (a.prewhere, b.prewhere) {
        (Some(x), Some(y)) => x.prewhere_columns == y.prewhere_columns && x.predicates
            == y.predicates,
        (None, None) => true,
        _ => false,
    }
}

/// The columns of a set, where there is one.
pub open spec fn opt_columns(columns: Option<ColumnSet>) -> Option<Set<usize>> {
    match columns {
        Some(columns) => Some(columns@),
        None => None,
    }
}

/// The columns that are left once the early filter was tried, where there is one.
pub open spec fn output_of(prewhere: Option<Prewhere>) -> Option<Set<usize>> {
    match prewhere {
        Some(prewhere) => Some(prewhere.output_columns@),
        None => None,
    }
}

/// This is the scan without the columns that nobody uses.
pub open spec fn prunes_to(
    r: PrunedScan,
    scan: Scan,
    required: Set<usize>,
    virtual_columns: Set<usize>,
    secure_columns: Set<usize>,
    supported_lazy_materialize: bool,
    has_ordered_index: bool,
) -> bool {
    let model = pruned(
        scan,
        required,
        virtual_columns,
        secure_columns,
        supported_lazy_materialize,
        has_ordered_index,
    );
    &&& same_but_columns(r.scan, scan)
    &&& r.scan.columns.wf()
    &&& r.lazy_columns matches Some(lazy) ==> lazy.wf()
    &&& r.retained_columns.wf()
    &&& r.scan.columns@ == model.columns
    &&& output_of(r.scan.prewhere) == model.output_columns
    &&& opt_columns(r.lazy_columns) == model.lazy_columns
    &&& r.retained_columns@ == model.retained_columns
    &&& scan.columns@ != Set::<usize>::empty() ==> (r.scan.prewhere matches Some(prewhere)
        ==> prewhere.output_columns.wf())
}

/// Drops the columns of a scan that nobody uses.
///
/// `virtual_columns` are those of the table, `secure_columns` those that the row access policies
/// read, and `has_ordered_index` says whether an ordered index answers the scan.
pub fn prune_scan_columns(
    scan: Scan,
    required: &ColumnSet,
    virtual_columns: &ColumnSet,
    secure_columns: &ColumnSet,
    supported_lazy_materialize: bool,
    has_ordered_index: bool,
) -> (r: PrunedScan)
    requires
        scan.columns.wf(),
        required.wf(),
    ensures
        prunes_to(
            r,
            scan,
            required@,
            virtual_columns@,
            secure_columns@,
            supported_lazy_materialize,
            has_ordered_index,
        ),
{
    if scan.columns.is_empty() {
        return PrunedScan {
            scan,
            lazy_columns: None,
            retained_columns: ColumnSet::empty(),
        };
    }
    let added = required.intersection(virtual_columns);
    let columns = scan.columns.union(&added);
    let mut used = required.intersection(&columns).union(secure_columns);
    let mut lazy_columns: Option<ColumnSet> = None;
    let mut retained_columns = ColumnSet::empty();
    if scan.is_lazy_table && supported_lazy_materialize {
        if has_ordered_index {
            lazy_columns = Some(ColumnSet::empty());
            used = columns;
        } else {
            lazy_columns = Some(columns.difference(&used));
        }
        retained_columns = used.copy();
    }
    let prewhere: Option<Prewhere> = match scan.prewhere {
        None => None,
        Some(prewhere) => {
            let output_columns = used.copy();
            used = used.union(&prewhere.prewhere_columns);
            Some(
                Prewhere {
                    output_columns,
                    prewhere_columns: prewhere.prewhere_columns,
                    predicates: prewhere.predicates,
                },
            )
        },
    };
    PrunedScan {
        scan: Scan {
            table_index: scan.table_index,
            scan_id: scan.scan_id,
            columns: used,
            push_down_predicates: scan.push_down_predicates,
            secure_predicates: scan.secure_predicates,
            limit: scan.limit,
            order_by: scan.order_by,
            prewhere,
            is_lazy_table: scan.is_lazy_table,
            update_stream_columns: scan.update_stream_columns,
            change_type: scan.change_type,
            inverted_index: scan.inverted_index,
            vector_index: scan.vector_index,
            sample: scan.sample,
        },
        lazy_columns,
        retained_columns,
    }
}

/// A column that is required and that the table has, or makes up, is still read after the columns
/// that nobody uses are dropped; and so is every column of a row access policy.
pub proof fn law_pruning_keeps_what_is_used(
    scan: Scan,
    required: Set<usize>,
    virtual_columns: Set<usize>,
    secure_columns: Set<usize>,
    supported_lazy_materialize: bool,
    has_ordered_index: bool,
    column: usize,
)
    requires
        scan.columns@ != Set::<usize>::empty(),
        secure_columns.subset_of(scan.columns@),
        required.contains(column) && (scan.columns@.contains(column) || virtual_columns.contains(
            column,
        )) || secure_columns.contains(column),
    ensures
        pruned(
            scan,
            required,
            virtual_columns,
            secure_columns,
            supported_lazy_materialize,
            has_ordered_index,
        ).columns.contains(column),
{
}

/// Where columns are read later, those that are read now and those that are read later are the
/// columns of the scan, and no column is both, but for one that the early filter reads.
pub proof fn law_lazy_columns_complete_the_scan(
    scan: Scan,
    required: Set<usize>,
    virtual_columns: Set<usize>,
    secure_columns: Set<usize>,
    has_ordered_index: bool,
)
    requires
        scan.columns@ != Set::<usize>::empty(),
        scan.is_lazy_table,
        scan.prewhere is None,
        secure_columns.subset_of(scan.columns@),
    ensures
        ({
            let model = pruned(
                scan,
                required,
                virtual_columns,
                secure_columns,
                true,
                has_ordered_index,
            );
            &&& model.lazy_columns is Some
            &&& model.columns.union(model.lazy_columns->Some_0) == scan.columns@.union(
                required.intersect(virtual_columns),
            )
            &&& model.columns.disjoint(model.lazy_columns->Some_0)
        }),
{
    let model = pruned(scan, required, virtual_columns, secure_columns, true, has_ordered_index);
    assert(model.columns.union(model.lazy_columns->Some_0) =~= scan.columns@.union(
        required.intersect(virtual_columns),
    ));
}

/// What the columns of a scan are read as.
pub struct ScanColumnsModel {
    pub has_inner_column: bool,
    /// The symbols of the columns that the scan gives, in decimal, under their names.
    pub name_mapping: Map<Seq<char>, Seq<char>>,
    pub internal_columns: Map<usize, InternalColumn>,
    pub virtual_columns: Map<usize, VirtualColumn>,
}

/// What the columns of a scan are read as: those that are read later are left out, and where there
/// is an early filter only the columns that are left after it are given.
pub open spec fn scan_columns_of(
    columns: Seq<ColumnEntry>,
    symbols: Seq<usize>,
    lazy_columns: Set<usize>,
    output_columns: Option<Set<usize>>,
) -> ScanColumnsModel
    decreases symbols.len(),
{
    if symbols.len() == 0 {
        ScanColumnsModel {
            has_inner_column: false,
            name_mapping: Map::empty(),
            internal_columns: Map::empty(),
            virtual_columns: Map::empty(),
        }
    } else {
        let before = scan_columns_of(columns, symbols.drop_last(), lazy_columns, output_columns);
        let symbol = symbols.last();
        let entry = columns[symbol as int];
        if lazy_columns.contains(symbol) {
            before
        } else {
            ScanColumnsModel {
                has_inner_column: before.has_inner_column || is_inner(entry),
                name_mapping: if output_columns matches Some(output) && !output.contains(symbol) {
                    before.name_mapping
                } else {
                    before.name_mapping.insert(entry.named(), decimal(symbol as nat))
                },
                internal_columns: match entry {
                    ColumnEntry::InternalColumn(column) => before.internal_columns.insert(
                        symbol,
                        column.internal_column,
                    ),
                    _ => before.internal_columns,
                },
                virtual_columns: match entry {
                    ColumnEntry::VirtualColumn(column) => before.virtual_columns.insert(
                        symbol,
                        column,
                    ),
                    _ => before.virtual_columns,
                },
            }
        }
    }
}

/// The column lies inside another one.
pub open spec fn is_inner(entry: ColumnEntry) -> bool {
    entry matches ColumnEntry::BaseTableColumn(column) && column.path_indices is Some
}

/// The columns of a scan with that of the row ids, where it is not among them and is needed.
pub open spec fn with_row_id(
    given: ScanColumnsModel,
    row_id: Option<(usize, InternalColumn)>,
) -> ScanColumnsModel {
    match row_id {
        Some((index, column)) => if given.name_mapping.contains_key(ROW_ID_COL_NAME@) {
            given
        } else {
            ScanColumnsModel {
                has_inner_column: given.has_inner_column,
                name_mapping: given.name_mapping.insert(ROW_ID_COL_NAME@, decimal(index as nat)),
                internal_columns: given.internal_columns.insert(index, column),
                virtual_columns: given.virtual_columns,
            }
        },
        None => given,
    }
}

/// What the columns of a scan are read as.
#[derive(Debug)]
pub struct ScanColumns {
    pub has_inner_column: bool,
    /// In the order of the names.
    pub name_mapping: Vec<(String, String)>,
    /// In the order of the symbols.
    pub internal_columns: Vec<(usize, InternalColumn)>,
    /// In the order of the symbols.
    pub virtual_columns: Vec<(usize, VirtualColumn)>,
}

/// The texts under their names.
pub open spec fn mapping_view(entries: Seq<(String, String)>) -> Map<Seq<char>, Seq<char>> {
    map_of(entries).map_values(|text: String| text@)
}

impl View for ScanColumns {
    type V = ScanColumnsModel;

    open spec fn view(&self) -> ScanColumnsModel {
        ScanColumnsModel {
            has_inner_column: self.has_inner_column,
            name_mapping: mapping_view(self.name_mapping@),
            internal_columns: map_of(self.internal_columns@),
            virtual_columns: map_of(self.virtual_columns@),
        }
    }
}

impl ScanColumns {
    /// The entries of each map are in the order of their keys.
    pub open spec fn wf(self) -> bool {
        &&& keys_ascend(self.name_mapping@)
        &&& keys_ascend(self.internal_columns@)
        &&& keys_ascend(self.virtual_columns@)
    }
}

fn map_name(entries: &mut Vec<(String, String)>, name: String, symbol: usize)
    requires
        keys_ascend(old(entries)@),
    ensures
        keys_ascend(final(entries)@),
        mapping_view(final(entries)@) == mapping_view(old(entries)@).insert(
            name@,
            decimal(symbol as nat),
        ),
{
    let ghost before = mapping_view(entries@);
    let text = decimal_text(symbol as u64);
    let ghost shown = text@;
    let ghost under = name@;
    insert_entry(entries, name, text);
    assert(mapping_view(entries@) =~= before.insert(under, shown));
}

/// Finds what the columns of a scan are read as.
///
/// `lazy_columns` are all the columns that are read later, `output_columns` those that are left
/// after the early filter, and `row_id` is the column of row ids of a table some of whose columns
/// are read later.
pub fn project_scan_columns(
    columns: &Vec<ColumnEntry>,
    symbols: &Vec<usize>,
    lazy_columns: &ColumnSet,
    output_columns: Option<&ColumnSet>,
    row_id: Option<(usize, InternalColumn)>,
) -> (r: ScanColumns)
    requires
        forall|i: int| 0 <= i < symbols@.len() ==> (#[trigger] symbols@[i]) < columns@.len(),
    ensures
        r.wf(),
        r@ == with_row_id(
            scan_columns_of(
                columns@,
                symbols@,
                lazy_columns@,
                match output_columns {
                    Some(output) => Some(output@),
                    None => None,
                },
            ),
            row_id,
        ),
{
    let ghost output = match output_columns {
        Some(output) => Some(output@),
        None => None,
    };
    let mut r = ScanColumns {
        has_inner_column: false,
        name_mapping: Vec::new(),
        internal_columns: Vec::new(),
        virtual_columns: Vec::new(),
    };
    let mut i: usize = 0;
    proof {
        assert(symbols@.take(0) =~= Seq::<usize>::empty());
        let none = scan_columns_of(columns@, symbols@.take(0), lazy_columns@, output);
        assert(r@.name_mapping =~= none.name_mapping);
        assert(r@.internal_columns =~= none.internal_columns);
        assert(r@.virtual_columns =~= none.virtual_columns);
    }
    while i < symbols.len()
        invariant
            i <= symbols@.len(),
            forall|i: int| 0 <= i < symbols@.len() ==> (#[trigger] symbols@[i]) < columns@.len(),
            output == (match output_columns {
                Some(output) => Some(output@),
                None => None,
            }),
            r.wf(),
            r@ == scan_columns_of(columns@, symbols@.take(i as int), lazy_columns@, output),
        decreases symbols@.len() - i,
    {
        let symbol: usize = symbols[i];
        proof {
            let t = symbols@.take(i + 1);
            assert(t.drop_last() =~= symbols@.take(i as int));
            assert(t.last() == symbol);
        }
        if !lazy_columns.contains(symbol) {
            let column = &columns[symbol];
            match column {
                ColumnEntry::BaseTableColumn(base) => {
                    if base.path_indices.is_some() {
                        r.has_inner_column = true;
                    }
                },
                ColumnEntry::InternalColumn(internal) => {
                    insert_entry(&mut r.internal_columns, symbol, internal.internal_column.clone());
                },
                ColumnEntry::VirtualColumn(virtual_column) => {
                    insert_entry(&mut r.virtual_columns, symbol, virtual_column.clone());
                },
                ColumnEntry::DerivedColumn(_) => {},
            }
            let given: bool = match output_columns {
                Some(output) => output.contains(symbol),
                None => true,
            };
            if given {
                map_name(&mut r.name_mapping, String::from_str(column.name()), symbol);
            }
        }
        i = i + 1;
    }
    assert(symbols@.take(symbols@.len() as int) =~= symbols@);
    match row_id {
        None => {},
        Some((index, column)) => {
            let name = String::from_str(ROW_ID_COL_NAME);
            if find_entry(&r.name_mapping, &name).is_none() {
                map_name(&mut r.name_mapping, name, index);
                insert_entry(&mut r.internal_columns, index, column);
            }
        },
    }
    r
}

/// The fields of internal columns.
pub open spec fn internal_fields(internal_columns: Seq<(usize, InternalColumn)>) -> Seq<TableField> {
    Seq::new(
        internal_columns.len(),
        |i: int|
            (TableField {
                name: internal_columns[i].1.column_name,
                data_type: internal_columns[i].1.data_type,
                column_id: internal_columns[i].1.column_id,
                virtual_computed: false,
            }),
    )
}

/// The schema with the internal columns that are read behind its own.
pub fn schema_with_internal_columns(
    schema: &Vec<TableField>,
    internal_columns: &Vec<(usize, InternalColumn)>,
) -> (r: Vec<TableField>)
    ensures
        r@ == schema@ + internal_fields(internal_columns@),
{
    let mut r: Vec<TableField> = Vec::new();
    let mut i: usize = 0;
    while i < schema.len()
        invariant
            i <= schema@.len(),
            r@ == schema@.take(i as int),
        decreases schema@.len() - i,
    {
        r.push(schema[i].clone());
        assert(r@ =~= schema@.take(i + 1));
        i = i + 1;
    }
    let ghost added = internal_fields(internal_columns@);
    let mut k: usize = 0;
    assert(r@ =~= schema@ + added.take(0));
    while k < internal_columns.len()
        invariant
            k <= internal_columns@.len(),
            added == internal_fields(internal_columns@),
            r@ == schema@ + added.take(k as int),
        decreases internal_columns@.len() - k,
    {
        let column = &internal_columns[k].1;
        r.push(
            TableField {
                name: column.column_name.clone(),
                data_type: column.data_type,
                column_id: column.column_id,
                virtual_computed: false,
            },
        );
        assert(r@ =~= schema@ + added.take(k + 1));
        k = k + 1;
    }
    assert(added.take(added.len() as int) =~= added);
    r
}

/// What tells the row access policies of a table: the table's number and the policies, sorted.
pub open spec fn secure_text(table_index: usize, serialized: Seq<Seq<char>>) -> Seq<char> {
    decimal(table_index as nat) + "|"@ + joined_text(stable_sort(serialized), "|"@)
}

/// What is added to the cache key of a result for the row access policies of a table: the digest of
/// the text that tells them.
pub open spec fn secure_key(table_index: usize, serialized: Seq<Seq<char>>) -> Seq<char> {
    "secure:"@ + text_digest(secure_text(table_index, serialized))
}

/// What is added to the cache key of a result for the row access policies of a table.
pub fn secure_cache_key(table_index: usize, serialized: Vec<String>) -> (r: String)
    ensures
        r@ == secure_key(table_index, texts_view(serialized@)),
{
    let serialized = sort_texts(serialized);
    let mut combined = decimal_text(table_index as u64);
    append_text(&mut combined, "|");
    append_text(&mut combined, join_texts(&serialized, "|").as_str());
    let hash = digest_text(combined.as_str());
    let mut r = String::from_str("secure:");
    append_text(&mut r, hash.as_str());
    r
}

/// The key for row access policies does not depend on the order in which they are listed.
pub proof fn law_secure_key_ignores_order(
    table_index: usize,
    listed: Seq<Seq<char>>,
    places: Seq<int>,
    relisted: Seq<Seq<char>>,
)
    requires
        is_permutation(listed, places),
        arranged(listed, places, relisted),
    ensures
        secure_key(table_index, listed) == secure_key(table_index, relisted),
{
    assert forall|a: Seq<char>, b: Seq<char>|
        !(#[trigger] a.ranks_before(b)) && !b.ranks_before(a) implies a == b by {
        lemma_text_total(a, b);
    }
    law_sort_ignores_order(listed, places, relisted);
}

/// The texts of two tables differ, also where their policies are the same.
pub proof fn law_secure_text_tells_tables_apart(
    table_index: usize,
    serialized: Seq<Seq<char>>,
    other_index: usize,
    other_serialized: Seq<Seq<char>>,
)
    requires
        table_index != other_index,
    ensures
        secure_text(table_index, serialized) != secure_text(other_index, other_serialized),
{
    let a = decimal(table_index as nat);
    let b = decimal(other_index as nat);
    let x = secure_text(table_index, serialized);
    let y = secure_text(other_index, other_serialized);
    reveal_strlit("|");
    lemma_decimal_digits(table_index as nat);
    lemma_decimal_digits(other_index as nat);
    if x == y {
        assert(x[a.len() as int] == '|');
        assert(y[b.len() as int] == '|');
        if a.len() < b.len() {
            assert(y[a.len() as int] == b[a.len() as int]);
        } else if b.len() < a.len() {
            assert(x[b.len() as int] == a[b.len() as int]);
        } else {
            assert forall|i: int| 0 <= i < a.len() implies a[i] == b[i] by {
                assert(x[i] == a[i] && y[i] == b[i]);
            }
            assert(a =~= b);
            lemma_decimal_injective(table_index as nat, other_index as nat);
        }
    }
}

} // verus!
