//! What the plan of a table scan reads, gives and guards.

use vstd::prelude::*;

use crate::agg_index::{agg_planned, AggIndexError, AggIndexInfo};
use crate::columns::{ColumnEntry, InternalColumn};
use crate::expr::{Expr, ExprModel};
use crate::filter::{BtreeIndexInfo, Filters};
use crate::ordered_scan::chooses_index;
use crate::plan_cache_laws::{all_lack, lemma_joined_tells, lemma_sorted_texts, same_texts};
use crate::plan_laws::{is_filter_of_all, law_filter_of_predicates_is_their_conjunction,
    lemma_place_named};
use crate::push_down::{filter_of, filters_made, predicates_of, AggIndexPlan, PushDownFilters,
    PushDownInfo};
use crate::scalar::{ScalarModel, TableDataType};
use crate::scalar_expr::ScalarExpr;
use crate::scan::Scan;
use crate::scan_plan::{data_fields_view, output_fields_of, place_named, DataField, DataSourcePlan, TableScan};
use crate::table_plan::{all_always_true, all_bound, all_spelled, applies_policies, index_found,
    is_scan_of, key_extra, lemma_chosen_is_offered, offers_index, scan_planned, scan_pruned,
    secure_filter_planned, source_scan_planned, PlannedScan, ScanSourceError, SecureFilter,
    TableFacts};
use crate::table_scan::{internal_fields, law_secure_text_tells_tables_apart, prunes_to,
    scan_columns_of, secure_key, secure_text, with_row_id, PrunedScan, ScanColumns};
use crate::sort::stable_sort;
use crate::text::{decimal, joined_text, lemma_decimal_injective, texts_view};

verus! {

/// The scan has the column, or the table makes it up and it is required.
pub open spec fn is_column_to_read(
    scan: Scan,
    required: Set<usize>,
    virtual_columns: Set<usize>,
    column: usize,
) -> bool {
    scan.columns@.contains(column) || virtual_columns.contains(column) && required.contains(column)
}

/// A pruned scan reads every column that is required, that a row access policy reads or that the
/// early filter reads, and no other, unless an ordered index answers a scan that could read columns
/// later: then it reads all. What the early filter leaves is what is read without it.
pub proof fn law_pruned_scan_reads_what_is_used(
    r: PrunedScan,
    scan: Scan,
    required: Set<usize>,
    virtual_columns: Set<usize>,
    secure_columns: Set<usize>,
    supported_lazy_materialize: bool,
    has_ordered_index: bool,
    column: usize,
)
    requires
        prunes_to(
            r,
            scan,
            required,
            virtual_columns,
            secure_columns,
            supported_lazy_materialize,
            has_ordered_index,
        ),
        scan.columns@ != Set::<usize>::empty(),
    ensures
        ({
            let to_read = is_column_to_read(scan, required, virtual_columns, column);
            let reads_all = scan.is_lazy_table && supported_lazy_materialize && has_ordered_index;
            let used = if reads_all {
                to_read
            } else {
                to_read && required.contains(column) || secure_columns.contains(column)
            };
            let early = scan.prewhere matches Some(prewhere)
                && prewhere.prewhere_columns@.contains(column);
            &&& r.scan.columns@.contains(column) <==> used || early
            &&& r.scan.prewhere is Some <==> scan.prewhere is Some
            &&& r.scan.prewhere matches Some(prewhere) ==> (prewhere.output_columns@.contains(
                column,
            ) <==> used)
            &&& r.retained_columns@.contains(column) <==> used && scan.is_lazy_table
                && supported_lazy_materialize
            &&& r.lazy_columns is Some <==> scan.is_lazy_table && supported_lazy_materialize
            &&& r.lazy_columns matches Some(lazy) ==> (lazy@.contains(column) <==> to_read && !used)
        }),
{
    let columns = scan.columns@.union(required.intersect(virtual_columns));
    assert(columns.contains(column) <==> is_column_to_read(
        scan,
        required,
        virtual_columns,
        column,
    ));
    let needed = required.intersect(columns).union(secure_columns);
    assert(needed.contains(column) <==> required.contains(column) && columns.contains(column)
        || secure_columns.contains(column));
}

/// Pruning a scan changes nothing but the columns that are read, and a scan of no columns is not
/// pruned.
pub proof fn law_pruning_changes_columns_only(
    r: PrunedScan,
    scan: Scan,
    required: Set<usize>,
    virtual_columns: Set<usize>,
    secure_columns: Set<usize>,
    supported_lazy_materialize: bool,
    has_ordered_index: bool,
)
    requires
        prunes_to(
            r,
            scan,
            required,
            virtual_columns,
            secure_columns,
            supported_lazy_materialize,
            has_ordered_index,
        ),
    ensures
        r.scan.table_index == scan.table_index,
        r.scan.scan_id == scan.scan_id,
        r.scan.push_down_predicates == scan.push_down_predicates,
        r.scan.secure_predicates == scan.secure_predicates,
        r.scan.limit == scan.limit,
        r.scan.order_by == scan.order_by,
        r.scan.change_type == scan.change_type,
        r.scan.sample == scan.sample,
        r.scan.inverted_index == scan.inverted_index,
        r.scan.vector_index == scan.vector_index,
        r.scan.update_stream_columns == scan.update_stream_columns,
        r.scan.is_lazy_table == scan.is_lazy_table,
        scan.prewhere matches Some(given) ==> (r.scan.prewhere matches Some(prewhere)
            && prewhere.predicates == given.predicates && prewhere.prewhere_columns
            == given.prewhere_columns),
        scan.columns@ == Set::<usize>::empty() ==> r.scan.columns@ == scan.columns@
            && r.lazy_columns is None && r.retained_columns@ == Set::<usize>::empty(),
{
}

/// The scan gives the column: it is not read later, and the early filter leaves it.
pub open spec fn is_given(
    symbol: usize,
    lazy_columns: Set<usize>,
    output_columns: Option<Set<usize>>,
) -> bool {
    !lazy_columns.contains(symbol) && (output_columns matches Some(output) ==> output.contains(
        symbol,
    ))
}

/// The column has this name in the table.
pub open spec fn is_named(entry: ColumnEntry, name: Seq<char>) -> bool {
    match entry {
        ColumnEntry::BaseTableColumn(column) => column.column_name@ == name,
        ColumnEntry::DerivedColumn(column) => column.alias@ == name,
        ColumnEntry::InternalColumn(column) => column.internal_column.column_name@ == name,
        ColumnEntry::VirtualColumn(column) => column.column_name@ == name,
    }
}

/// The columns that a scan gives are mapped from their names to their symbols, and nothing else is:
/// a name leads to the last column that has it and is given.
pub proof fn law_scan_gives_its_columns_by_name(
    columns: Seq<ColumnEntry>,
    symbols: Seq<usize>,
    lazy_columns: Set<usize>,
    output_columns: Option<Set<usize>>,
    name: Seq<char>,
    symbol: usize,
)
    ensures
        ({
            let mapping = scan_columns_of(
                columns,
                symbols,
                lazy_columns,
                output_columns,
            ).name_mapping;
            mapping.contains_key(name) && mapping[name] == decimal(symbol as nat) <==> exists|i: int|
             #[trigger]
                leads_to(columns, symbols, lazy_columns, output_columns, name, symbol, i)
        }),
    decreases symbols.len(),
{
    let mapping = scan_columns_of(columns, symbols, lazy_columns, output_columns).name_mapping;
    if symbols.len() > 0 {
        let head = symbols.drop_last();
        let n = symbols.len() - 1;
        let last = symbols[n];
        let entry = columns[last as int];
        assert forall|k: int| 0 <= k < head.len() implies #[trigger] head[k] == symbols[k] by {}
        law_scan_gives_its_columns_by_name(
            columns,
            head,
            lazy_columns,
            output_columns,
            name,
            symbol,
        );
        if is_given(last, lazy_columns, output_columns) && is_named(entry, name) {
            assert(entry.named() == name);
            assert(mapping[name] == decimal(last as nat));
            if last == symbol {
                assert(leads_to(columns, symbols, lazy_columns, output_columns, name, symbol, n));
            } else {
                if decimal(last as nat) == decimal(symbol as nat) {
                    lemma_decimal_injective(last as nat, symbol as nat);
                }
                assert forall|i: int| !#[trigger] leads_to(
                    columns,
                    symbols,
                    lazy_columns,
                    output_columns,
                    name,
                    symbol,
                    i,
                ) by {
                    assert(symbols[n] == last);
                }
            }
        } else {
            assert(entry.named() == name <==> is_named(entry, name));
            let before = scan_columns_of(columns, head, lazy_columns, output_columns).name_mapping;
            assert(mapping.contains_key(name) == before.contains_key(name));
            assert(before.contains_key(name) ==> mapping[name] == before[name]);
            if exists|i: int| #[trigger]
                leads_to(columns, head, lazy_columns, output_columns, name, symbol, i) {
                let i = choose|i: int| #[trigger]
                    leads_to(columns, head, lazy_columns, output_columns, name, symbol, i);
                assert forall|k: int|
                    i < k < symbols.len() && is_given(
                        #[trigger] symbols[k],
                        lazy_columns,
                        output_columns,
                    ) implies !is_named(columns[symbols[k] as int], name) by {
                    if k < n {
                        assert(head[k] == symbols[k]);
                    }
                }
                assert(head[i] == symbols[i]);
                assert(leads_to(columns, symbols, lazy_columns, output_columns, name, symbol, i));
            }
            if exists|i: int| #[trigger]
                leads_to(columns, symbols, lazy_columns, output_columns, name, symbol, i) {
                let i = choose|i: int| #[trigger]
                    leads_to(columns, symbols, lazy_columns, output_columns, name, symbol, i);
                assert(i < n);
                assert(head[i] == symbols[i]);
                assert(leads_to(columns, head, lazy_columns, output_columns, name, symbol, i));
            }
        }
    } else {
        assert forall|i: int| !#[trigger] leads_to(
            columns,
            symbols,
            lazy_columns,
            output_columns,
            name,
            symbol,
            i,
        ) by {}
    }
}

/// The column at this place is given, has the name, and is the last of those.
pub open spec fn leads_to(
    columns: Seq<ColumnEntry>,
    symbols: Seq<usize>,
    lazy_columns: Set<usize>,
    output_columns: Option<Set<usize>>,
    name: Seq<char>,
    symbol: usize,
    i: int,
) -> bool {
    &&& 0 <= i < symbols.len()
    &&& symbols[i] == symbol
    &&& is_given(symbol, lazy_columns, output_columns)
    &&& is_named(columns[symbol as int], name)
    &&& forall|k: int|
        i < k < symbols.len() && is_given(#[trigger] symbols[k], lazy_columns, output_columns)
            ==> !is_named(columns[symbols[k] as int], name)
}

/// The internal and the virtual columns of a scan, and no others, are read as such, unless they are
/// read later; and a scan reads inside a column where one of those that it reads now lies inside
/// another.
pub proof fn law_scan_reads_its_columns_by_kind(
    columns: Seq<ColumnEntry>,
    symbols: Seq<usize>,
    lazy_columns: Set<usize>,
    output_columns: Option<Set<usize>>,
    symbol: usize,
)
    ensures
        ({
            let read = scan_columns_of(columns, symbols, lazy_columns, output_columns);
            let reads = symbols.contains(symbol) && !lazy_columns.contains(symbol);
            let entry = columns[symbol as int];
            &&& read.internal_columns.contains_key(symbol) <==> reads && entry is InternalColumn
            &&& reads && entry is InternalColumn ==> read.internal_columns[symbol]
                == entry->InternalColumn_0.internal_column
            &&& read.virtual_columns.contains_key(symbol) <==> reads && entry is VirtualColumn
            &&& reads && entry is VirtualColumn ==> read.virtual_columns[symbol]
                == entry->VirtualColumn_0
            &&& reads && (entry matches ColumnEntry::BaseTableColumn(column)
                && column.path_indices is Some) ==> read.has_inner_column
            &&& read.has_inner_column ==> exists|i: int|
                0 <= i < symbols.len() && !lazy_columns.contains(#[trigger] symbols[i]) && (
                columns[symbols[i] as int] matches ColumnEntry::BaseTableColumn(column)
                    && column.path_indices is Some)
        }),
    decreases symbols.len(),
{
    if symbols.len() > 0 {
        let head = symbols.drop_last();
        let n = symbols.len() - 1;
        law_scan_reads_its_columns_by_kind(columns, head, lazy_columns, output_columns, symbol);
        let before = scan_columns_of(columns, head, lazy_columns, output_columns);
        assert(symbols.contains(symbol) <==> head.contains(symbol) || symbols[n] == symbol) by {
            if symbols.contains(symbol) {
                let i = choose|i: int| 0 <= i < symbols.len() && symbols[i] == symbol;
                if i < n {
                    assert(head[i] == symbol);
                }
            }
            if head.contains(symbol) {
                let i = choose|i: int| 0 <= i < head.len() && head[i] == symbol;
                assert(symbols[i] == symbol);
            }
        }
        if before.has_inner_column {
            let i = choose|i: int|
                0 <= i < head.len() && !lazy_columns.contains(#[trigger] head[i]) && (
                columns[head[i] as int] matches ColumnEntry::BaseTableColumn(column)
                    && column.path_indices is Some);
            assert(symbols[i] == head[i]);
        }
    }
}

/// Where rows are read later by their ids, the scan gives the row id under its name, and keeps all
/// other names; it is added only where the scan does not give it yet.
pub proof fn law_row_id_is_given(
    columns: Seq<ColumnEntry>,
    symbols: Seq<usize>,
    lazy_columns: Set<usize>,
    output_columns: Option<Set<usize>>,
    index: usize,
    column: InternalColumn,
    name: Seq<char>,
)
    ensures
        ({
            let given = scan_columns_of(columns, symbols, lazy_columns, output_columns);
            let read = with_row_id(given, Some((index, column)));
            &&& read.name_mapping.contains_key("_row_id"@)
            &&& given.name_mapping.contains_key(name) ==> read.name_mapping.contains_key(name)
                && read.name_mapping[name] == given.name_mapping[name]
            &&& read.name_mapping.contains_key(name) && !given.name_mapping.contains_key(name)
                ==> name == "_row_id"@ && read.name_mapping[name] == decimal(index as nat)
                && read.internal_columns.contains_key(index) && read.internal_columns[index]
                == column
            &&& with_row_id(given, None) == given
        }),
{
}

/// The schema of a planned scan begins with the fields of the table, and behind them has, for each
/// internal column that is read, a field of its name and type, and no other.
pub proof fn law_planned_schema_has_what_is_read<
    H,
    P: Fn(&ScalarExpr) -> Result<Filters, H>,
    D: Fn(&Filters) -> bool,
    N: Fn(&Filters) -> Result<Expr, H>,
    S: Fn(TableDataType) -> String,
    J: Fn(&ScalarExpr) -> Result<String, H>,
>(
    prepare: P,
    deterministic: D,
    negate: N,
    spell: S,
    serialize: J,
    scan: Scan,
    table: TableFacts,
    columns: Seq<ColumnEntry>,
    lazy_columns: Set<usize>,
    reads_rows_later: bool,
    planned: PlannedScan,
    i: int,
)
    requires
        scan_planned(
            prepare,
            deterministic,
            negate,
            spell,
            serialize,
            scan,
            table,
            columns,
            lazy_columns,
            reads_rows_later,
            Ok::<_, H>(planned),
        ),
        0 <= i < planned.schema@.len(),
    ensures
        ({
            let width = table.schema@.len();
            let internal = planned.columns.internal_columns@;
            &&& planned.schema@.len() == width + internal.len()
            &&& i < width ==> planned.schema@[i] == table.schema@[i]
            &&& i >= width ==> {
                let field = planned.schema@[i];
                let column = internal[i - width].1;
                &&& field.name == column.column_name
                &&& field.data_type == column.data_type
                &&& field.column_id == column.column_id
            }
            &&& planned.push_downs.lazy_materialization <==> exists|c: usize|
                lazy_columns.contains(c)
        }),
{
    assert(internal_fields(planned.columns.internal_columns@).len()
        == planned.columns.internal_columns@.len());
    if exists|c: usize| lazy_columns.contains(c) {
        let c = choose|c: usize| lazy_columns.contains(c);
        assert(lazy_columns != Set::<usize>::empty());
    } else {
        assert(lazy_columns =~= Set::<usize>::empty());
    }
}

/// A scan with row access policies, and only such a scan, adds something to the key of its result;
/// what it adds is made of its table and of the policies as the host spells them, all of them.
pub proof fn law_policies_are_in_the_key_of_a_result<
    H,
    J: Fn(&ScalarExpr) -> Result<String, H>,
>(serialize: J, scan: Scan, extra: Option<String>)
    requires
        key_extra(serialize, scan, Ok::<_, H>(extra)),
    ensures
        extra is Some <==> (scan.secure_predicates matches Some(predicates) && predicates@.len()
            > 0),
        extra matches Some(key) ==> exists|texts: Seq<String>|
            {
                &&& texts.len() == scan.secure_predicates->Some_0@.len()
                &&& forall|i: int|
                    0 <= i < texts.len() ==> call_ensures(
                        serialize,
                        (&scan.secure_predicates->Some_0@[i],),
                        Ok::<String, H>(#[trigger] texts[i]),
                    )
                &&& key@ == #[trigger] secure_key(scan.table_index, texts_view(texts))
            },
{
    if extra is Some {
        let predicates = scan.secure_predicates->Some_0@;
        let texts = choose|texts: Seq<String>| #[trigger]
            all_spelled(serialize, predicates, texts) && extra->Some_0@ == secure_key(
                scan.table_index,
                texts_view(texts),
            );
        assert forall|i: int| 0 <= i < texts.len() implies call_ensures(
            serialize,
            (&predicates[i],),
            Ok::<String, H>(#[trigger] texts[i]),
        ) by {
            let predicate = predicates[i];
        }
        assert(extra->Some_0@ == secure_key(scan.table_index, texts_view(texts)));
    }
}

/// The text that tells row access policies tells the table, and which policies it has: two tables,
/// or one with other policies, have other texts. No spelled policy holds the sign that separates
/// them.
pub proof fn law_secure_text_tells_table_and_policies(
    table_index: usize,
    serialized: Seq<Seq<char>>,
    other_index: usize,
    other_serialized: Seq<Seq<char>>,
)
    requires
        serialized.len() > 0,
        other_serialized.len() > 0,
        all_lack(serialized, '|'),
        all_lack(other_serialized, '|'),
        secure_text(table_index, serialized) == secure_text(other_index, other_serialized),
    ensures
        table_index == other_index,
        same_texts(serialized, other_serialized),
{
    if table_index != other_index {
        law_secure_text_tells_tables_apart(
            table_index,
            serialized,
            other_index,
            other_serialized,
        );
    }
    reveal_strlit("|");
    let bar = seq!['|'];
    assert("|"@ =~= bar);
    let a = stable_sort(serialized);
    let b = stable_sort(other_serialized);
    lemma_sorted_texts(serialized, '|');
    lemma_sorted_texts(other_serialized, '|');
    let head = decimal(table_index as nat) + bar;
    let x = joined_text(a, bar);
    let y = joined_text(b, bar);
    assert(head + x == head + y);
    assert(x =~= (head + x).skip(head.len() as int));
    assert(y =~= (head + y).skip(head.len() as int));
    lemma_joined_tells(a, b, '|');
    assert(same_texts(serialized, a));
    assert(same_texts(other_serialized, b));
}

/// Where there is no filter of the row access policies, either none is to be applied, or the host
/// binds each of them to what is true of every row. Where there is one, it holds each policy, as the
/// host binds it.
pub proof fn law_policies_are_applied<H, B: Fn(&ScalarExpr, &Vec<DataField>) -> Result<Expr, H>>(
    bind: B,
    scan: Scan,
    required: Set<usize>,
    retained: Set<usize>,
    fields: Vec<DataField>,
    secure_not_applied: bool,
    r: Option<SecureFilter>,
    holds: spec_fn(ExprModel) -> bool,
)
    requires
        secure_filter_planned(
            bind,
            scan,
            required,
            retained,
            fields,
            secure_not_applied,
            Ok::<_, H>(r),
        ),
        forall|data_type: TableDataType| #[trigger]
            holds(ExprModel::Constant(ScalarModel::Boolean(true), data_type)),
        scan.secure_predicates matches Some(predicates) && predicates@.len() > 0,
        secure_not_applied,
    ensures
        ({
            let predicates = scan.secure_predicates->Some_0@;
            match r {
                Some(filter) => {
                    &&& filter.predicates@.len() == predicates.len()
                    &&& forall|i: int|
                        0 <= i < predicates.len() ==> call_ensures(
                            bind,
                            (&predicates[i], &fields),
                            Ok::<Expr, H>(#[trigger] filter.predicates@[i]),
                        )
                },
                None => exists|bound: Seq<Expr>|
                    {
                        &&& bound.len() == predicates.len()
                        &&& forall|i: int|
                            0 <= i < predicates.len() ==> holds((#[trigger] bound[i])@)
                                && call_ensures(
                                bind,
                                (&predicates[i], &fields),
                                Ok::<Expr, H>(bound[i]),
                            )
                    },
            }
        }),
{
    let predicates = scan.secure_predicates->Some_0@;
    assert(applies_policies(scan, secure_not_applied));
    match r {
        Some(filter) => {
            assert forall|i: int| 0 <= i < predicates.len() implies call_ensures(
                bind,
                (&predicates[i], &fields),
                Ok::<Expr, H>(#[trigger] filter.predicates@[i]),
            ) by {
                let predicate = predicates[i];
            }
        },
        None => {
            let bound = choose|bound: Seq<Expr>| #[trigger]
                all_bound(bind, predicates, fields, bound) && all_always_true(bound);
            assert forall|i: int| 0 <= i < predicates.len() implies holds((#[trigger] bound[i])@)
                && call_ensures(bind, (&predicates[i], &fields), Ok::<Expr, H>(bound[i])) by {
                let predicate = predicates[i];
                let data_type = bound[i]@->Constant_1;
                assert(holds(ExprModel::Constant(ScalarModel::Boolean(true), data_type)));
            }
            assert(bound.len() == predicates.len());
        },
    }
}

/// The filter of the row access policies keeps, in ascending order, the field of each column that is
/// required or retained, and no other.
pub proof fn law_secure_filter_keeps_what_is_used<
    H,
    B: Fn(&ScalarExpr, &Vec<DataField>) -> Result<Expr, H>,
>(
    bind: B,
    scan: Scan,
    required: Set<usize>,
    retained: Set<usize>,
    fields: Vec<DataField>,
    secure_not_applied: bool,
    filter: SecureFilter,
    column: usize,
    i: int,
)
    requires
        secure_filter_planned(
            bind,
            scan,
            required,
            retained,
            fields,
            secure_not_applied,
            Ok::<_, H>(Some(filter)),
        ),
    ensures
        forall|k: int, m: int|
            0 <= k < m < filter.projections@.len() ==> #[trigger] filter.projections@[k]
                < #[trigger] filter.projections@[m],
        (required.contains(column) || retained.contains(column)) && (exists|k: int|
            0 <= k < fields@.len() && (#[trigger] fields@[k]).name@ == decimal(column as nat))
            ==> exists|k: int|
            0 <= k < filter.projections@.len() && fields@[(
            #[trigger] filter.projections@[k]) as int].name@ == decimal(column as nat),
        0 <= i < filter.projections@.len() ==> filter.projections@[i] < fields@.len() && exists|
            c: usize,
        |
            (required.contains(c) || retained.contains(c)) && fields@[filter.projections@[i] as int].name@
                == #[trigger] decimal(c as nat),
{
    let models = data_fields_view(fields@);
    let kept = required.union(retained);
    let places = filter.projections@;
    assert(fields.len() == fields@.len());
    let name = decimal(column as nat);
    lemma_place_named(models, name);
    if (required.contains(column) || retained.contains(column)) && (exists|k: int|
        0 <= k < fields@.len() && (#[trigger] fields@[k]).name@ == name) {
        let k = choose|k: int| 0 <= k < fields@.len() && (#[trigger] fields@[k]).name@ == name;
        assert(models[k].0 == name);
        let place = place_named(models, name)->Some_0;
        assert(kept.contains(column));
        assert(place_named(models, name) == Some((place as usize) as int));
        assert(places.to_set().contains(place as usize));
        let m = choose|m: int| 0 <= m < places.len() && places[m] == place as usize;
        assert(models[place].0 == name);
        assert(fields@[places[m] as int].name@ == name);
    }
    if 0 <= i < places.len() {
        assert(places.to_set().contains(places[i]));
        let c = choose|c: usize| #[trigger]
            kept.contains(c) && place_named(models, decimal(c as nat)) == Some(places[i] as int);
        lemma_place_named(models, decimal(c as nat));
        assert(models[places[i] as int].0 == decimal(c as nat));
        assert(required.contains(c) || retained.contains(c));
    }
}

/// What is pushed down to the source of a planned scan is what was, but for the aggregating index.
pub open spec fn hands_on(now: PushDownInfo, given: PushDownInfo) -> bool {
    &&& now.filters == given.filters
    &&& now.secure_filters == given.secure_filters
    &&& now.is_deterministic == given.is_deterministic
    &&& now.prewhere == given.prewhere
    &&& now.limit == given.limit
    &&& now.order_by == given.order_by
    &&& now.projection == given.projection
    &&& now.output_columns == given.output_columns
    &&& now.virtual_column == given.virtual_column
    &&& now.lazy_materialization == given.lazy_materialization
    &&& now.ordered_index == given.ordered_index
    &&& now.change_type == given.change_type
    &&& now.sample == given.sample
}

/// The plan of a scan is that of its table and its scan, names its columns as the scan does, and
/// hands on to its source what is pushed down; an aggregating index is read as it is planned for the
/// fields that the scan gives.
pub proof fn law_planned_scan_is_of_its_table<
    H,
    P: Fn(&ScalarExpr) -> Result<Filters, H>,
    C: Fn(Expr) -> Result<Expr, H>,
>(
    check: P,
    cast: C,
    plan: TableScan,
    scan: Scan,
    columns: ScanColumns,
    source: DataSourcePlan,
    reserve_block_index: bool,
    agg: Option<AggIndexInfo>,
)
    requires
        source_scan_planned(
            check,
            cast,
            scan,
            columns,
            source,
            reserve_block_index,
            agg,
            Ok::<_, ScanSourceError<H>>(plan),
        ),
    ensures
        plan.scan_id == scan.scan_id,
        plan.source.scan_id == scan.scan_id,
        plan.table_index == Some(scan.table_index),
        plan.source.table_index == scan.table_index,
        plan.source.reserve_block_index == reserve_block_index,
        plan.source.output_schema == source.output_schema,
        plan.source.source_info == source.source_info,
        plan.name_mapping == columns.name_mapping,
        plan.internal_column is None <==> columns.internal_columns@.len() == 0,
        plan.internal_column matches Some(internal) ==> internal == columns.internal_columns,
        plan.source.push_downs is Some <==> source.push_downs is Some,
        plan.source.push_downs matches Some(now) ==> hands_on(now, source.push_downs->Some_0) && (
        agg is None ==> now.agg_index == source.push_downs->Some_0.agg_index) && (
        agg matches Some(agg) ==> (now.agg_index matches Some(agg_index) && output_fields_of(
            source.output_schema@,
            columns.name_mapping@,
        ) is Ok && agg_planned(
            agg,
            output_fields_of(source.output_schema@, columns.name_mapping@)->Ok_0,
            check,
            cast,
            Ok::<AggIndexPlan, AggIndexError<H>>(agg_index),
        ))),
{
    let fields = output_fields_of(source.output_schema@, columns.name_mapping@);
    let agg_index: Option<AggIndexPlan> = match agg {
        None => None,
        Some(agg) => {
            let planned = choose|agg_index: AggIndexPlan| #[trigger]
                agg_planned(
                    agg,
                    fields->Ok_0,
                    check,
                    cast,
                    Ok::<AggIndexPlan, AggIndexError<H>>(agg_index),
                ) && is_scan_of(plan, scan, columns, source, reserve_block_index, Some(agg_index));
            Some(planned)
        },
    };
    assert(is_scan_of(plan, scan, columns, source, reserve_block_index, agg_index));
}

/// The columns that are left once the early filter was tried, where there is one.
pub open spec fn left_by_early_filter(scan: Scan) -> Option<Set<usize>> {
    match scan.prewhere {
        Some(prewhere) => Some(prewhere.output_columns@),
        None => None,
    }
}

/// A planned scan gives, under its name, each column that is not read later and that the early filter
/// leaves; and, where rows of the table are read later, the row id.
pub proof fn law_planned_scan_gives_its_columns<
    H,
    P: Fn(&ScalarExpr) -> Result<Filters, H>,
    D: Fn(&Filters) -> bool,
    N: Fn(&Filters) -> Result<Expr, H>,
    S: Fn(TableDataType) -> String,
    J: Fn(&ScalarExpr) -> Result<String, H>,
>(
    prepare: P,
    deterministic: D,
    negate: N,
    spell: S,
    serialize: J,
    scan: Scan,
    table: TableFacts,
    columns: Seq<ColumnEntry>,
    lazy_columns: Set<usize>,
    reads_rows_later: bool,
    planned: PlannedScan,
    name: Seq<char>,
    symbol: usize,
)
    requires
        scan_planned(
            prepare,
            deterministic,
            negate,
            spell,
            serialize,
            scan,
            table,
            columns,
            lazy_columns,
            reads_rows_later,
            Ok::<_, H>(planned),
        ),
    ensures
        ({
            let mapping = planned.columns@.name_mapping;
            &&& !reads_rows_later || table.row_id is None || name != "_row_id"@ ==> (
            mapping.contains_key(name) && mapping[name] == decimal(symbol as nat) <==> exists|i: int|
             #[trigger]
                leads_to(
                    columns,
                    scan.columns.items@,
                    lazy_columns,
                    left_by_early_filter(scan),
                    name,
                    symbol,
                    i,
                ))
            &&& reads_rows_later && table.row_id is Some ==> mapping.contains_key("_row_id"@)
        }),
{
    law_scan_gives_its_columns_by_name(
        columns,
        scan.columns.items@,
        lazy_columns,
        left_by_early_filter(scan),
        name,
        symbol,
    );
}

/// Where columns could be read later, a scan reads all its columns at once if an ordered index
/// answers it with the filter of its predicates, and else those that are used.
pub proof fn law_pruned_scan_reads_all_where_an_index_answers<
    H,
    P: Fn(&ScalarExpr) -> Result<Filters, H>,
    D: Fn(&Filters) -> bool,
    N: Fn(&Filters) -> Result<Expr, H>,
>(
    prepare: P,
    deterministic: D,
    negate: N,
    scan: Scan,
    required: Set<usize>,
    secure_columns: Set<usize>,
    table: TableFacts,
    columns: Seq<ColumnEntry>,
    pruned: PrunedScan,
    column: usize,
)
    requires
        scan_pruned(
            prepare,
            deterministic,
            negate,
            scan,
            required,
            secure_columns,
            table,
            columns,
            Ok::<_, H>(pruned),
        ),
        scan.columns@.contains(column),
        scan.is_lazy_table,
        table.supported_lazy_materialize,
        scan.prewhere is None,
    ensures
        exists|filters: Option<PushDownFilters>|
            #[trigger] is_filter_of_all::<H, P, N>(
                prepare,
                negate,
                predicates_of(scan.push_down_predicates),
                filters,
            ) && forall|r: Option<BtreeIndexInfo>| #[trigger]
                chooses_index(r, scan, table.meta, columns, filter_of(filters)) ==> {
                    &&& r is Some ==> pruned.scan.columns@.contains(column)
                    &&& r is None ==> (pruned.scan.columns@.contains(column) <==> required.contains(
                        column,
                    ) || secure_columns.contains(column))
                },
{
    let has_index = choose|has_index: bool| #[trigger]
        index_found(prepare, deterministic, negate, scan, table, columns, has_index) && prunes_to(
            pruned,
            scan,
            required,
            table.virtual_columns@,
            secure_columns,
            table.supported_lazy_materialize,
            has_index,
        );
    assert(scan.columns@ != Set::<usize>::empty());
    let (filters, said) = choose|filters: Option<PushDownFilters>, said: bool| #[trigger]
        filters_made(
            prepare,
            deterministic,
            negate,
            predicates_of(scan.push_down_predicates),
            Ok::<_, H>((filters, said)),
        ) && has_index == offers_index(scan, table.meta, columns, filter_of(filters));
    law_filter_of_predicates_is_their_conjunction(
        prepare,
        deterministic,
        negate,
        predicates_of(scan.push_down_predicates),
        Ok::<_, H>((filters, said)),
    );
    law_pruned_scan_reads_what_is_used(
        pruned,
        scan,
        required,
        table.virtual_columns@,
        secure_columns,
        table.supported_lazy_materialize,
        has_index,
        column,
    );
    assert forall|r: Option<BtreeIndexInfo>| #[trigger]
        chooses_index(r, scan, table.meta, columns, filter_of(filters)) implies {
        &&& r is Some ==> pruned.scan.columns@.contains(column)
        &&& r is None ==> (pruned.scan.columns@.contains(column) <==> required.contains(column)
            || secure_columns.contains(column))
    } by {
        lemma_chosen_is_offered(r, scan, table.meta, columns, filter_of(filters));
    }
}

} // verus!
