//! The columns of a plan, and where a table scan reads them from.

use vstd::prelude::*;

use crate::assoc::{insert_entry, keys_ascend, map_of};
use crate::filter::{field_index, index_of};
use crate::scalar::{ColumnKind, TableDataType, TableField};
use crate::sort::{lemma_stable_sort_unique, sort_stably, stable_sort};
use crate::table_meta::{first_places, holds_id};
use crate::text::{append_text, text_eq};

verus! {

/// A column of a table.
#[derive(Debug)]
pub struct BaseTableColumn {
    pub table_index: usize,
    pub column_index: usize,
    pub column_name: String,
    pub data_type: TableDataType,
    /// Where the column lies inside another one.
    pub path_indices: Option<Vec<usize>>,
}

/// A column that the query computes.
#[derive(Debug)]
pub struct DerivedColumn {
    pub column_index: usize,
    pub alias: String,
}

/// A column that the storage makes up.
#[derive(Debug)]
pub struct InternalColumn {
    pub column_name: String,
    pub data_type: TableDataType,
    pub column_id: u32,
}

/// An internal column of a table.
#[derive(Debug)]
pub struct TableInternalColumn {
    pub table_index: usize,
    pub column_index: usize,
    pub internal_column: InternalColumn,
}

/// A column that is read out of a semi-structured one.
#[derive(Debug)]
pub struct VirtualColumn {
    pub table_index: usize,
    pub column_index: usize,
    pub column_id: u32,
    pub column_name: String,
    pub source_column_id: u32,
    pub source_column_name: String,
    pub key_paths: String,
    pub data_type: TableDataType,
}

/// A column of a plan.
#[derive(Debug)]
pub enum ColumnEntry {
    BaseTableColumn(BaseTableColumn),
    DerivedColumn(DerivedColumn),
    InternalColumn(TableInternalColumn),
    VirtualColumn(VirtualColumn),
}

impl Clone for InternalColumn {
    fn clone(&self) -> (r: Self)
        ensures
            r == *self,
    {
        InternalColumn {
            column_name: self.column_name.clone(),
            data_type: self.data_type,
            column_id: self.column_id,
        }
    }
}

impl Clone for VirtualColumn {
    fn clone(&self) -> (r: Self)
        ensures
            r == *self,
    {
        VirtualColumn {
            table_index: self.table_index,
            column_index: self.column_index,
            column_id: self.column_id,
            column_name: self.column_name.clone(),
            source_column_id: self.source_column_id,
            source_column_name: self.source_column_name.clone(),
            key_paths: self.key_paths.clone(),
            data_type: self.data_type,
        }
    }
}

impl ColumnEntry {
    /// The name of the column.
    pub open spec fn named(self) -> Seq<char> {
        match self {
            ColumnEntry::BaseTableColumn(column) => column.column_name@,
            ColumnEntry::DerivedColumn(column) => column.alias@,
            ColumnEntry::InternalColumn(column) => column.internal_column.column_name@,
            ColumnEntry::VirtualColumn(column) => column.column_name@,
        }
    }

    /// The symbol of the column.
    pub open spec fn symbol(self) -> usize {
        match self {
            ColumnEntry::BaseTableColumn(column) => column.column_index,
            ColumnEntry::DerivedColumn(column) => column.column_index,
            ColumnEntry::InternalColumn(column) => column.column_index,
            ColumnEntry::VirtualColumn(column) => column.column_index,
        }
    }

    /// The name of the column.
    pub fn name(&self) -> (r: &str)
        ensures
            r@ == self.named(),
    {
        match self {
            ColumnEntry::BaseTableColumn(column) => column.column_name.as_str(),
            ColumnEntry::DerivedColumn(column) => column.alias.as_str(),
            ColumnEntry::InternalColumn(column) => column.internal_column.column_name.as_str(),
            ColumnEntry::VirtualColumn(column) => column.column_name.as_str(),
        }
    }

    /// The symbol of the column.
    pub fn index(&self) -> (r: usize)
        ensures
            r == self.symbol(),
    {
        match self {
            ColumnEntry::BaseTableColumn(column) => column.column_index,
            ColumnEntry::DerivedColumn(column) => column.column_index,
            ColumnEntry::InternalColumn(column) => column.column_index,
            ColumnEntry::VirtualColumn(column) => column.column_index,
        }
    }
}

/// The column is this one of the table, whole.
pub open spec fn is_field_column(entry: ColumnEntry, table_index: usize, name: Seq<char>) -> bool {
    entry matches ColumnEntry::BaseTableColumn(column) && column.table_index == table_index
        && column.path_indices is None && column.column_name@ == name
}

/// The symbol of the first column that is this one of the table.
pub open spec fn symbol_of_field(
    columns: Seq<ColumnEntry>,
    table_index: usize,
    name: Seq<char>,
) -> Option<usize>
    decreases columns.len(),
{
    if columns.len() == 0 {
        None
    } else if is_field_column(columns[0], table_index, name) {
        Some(columns[0].symbol())
    } else {
        symbol_of_field(columns.skip(1), table_index, name)
    }
}

/// Finds the symbol of a column of a table.
pub fn table_symbol_for_field(columns: &Vec<ColumnEntry>, table_index: usize, name: &str) -> (r:
    Option<usize>)
    ensures
        r == symbol_of_field(columns@, table_index, name@),
{
    let mut i: usize = 0;
    assert(columns@.skip(0) =~= columns@);
    while i < columns.len()
        invariant
            i <= columns@.len(),
            symbol_of_field(columns@, table_index, name@) == symbol_of_field(
                columns@.skip(i as int),
                table_index,
                name@,
            ),
        decreases columns@.len() - i,
    {
        assert(columns@.skip(i as int)[0] == columns@[i as int]);
        match &columns[i] {
            ColumnEntry::BaseTableColumn(column) => {
                if column.table_index == table_index && column.path_indices.is_none() && text_eq(
                    column.column_name.as_str(),
                    name,
                ) {
                    return Some(column.column_index);
                }
            },
            _ => {},
        }
        assert(columns@.skip(i as int).skip(1) =~= columns@.skip(i + 1));
        i = i + 1;
    }
    None
}

/// Which columns of a table a scan reads.
#[derive(Debug)]
pub enum Projection {
    /// Whole columns, by their places in the schema.
    Columns(Vec<usize>),
    /// Columns by their paths into the schema, under their symbols.
    InnerColumns(Vec<(usize, Vec<usize>)>),
}

/// The model of a projection.
pub enum ProjectionModel {
    Columns(Seq<usize>),
    InnerColumns(Map<usize, Seq<usize>>),
}

/// The paths under their symbols.
pub open spec fn paths_view(entries: Seq<(usize, Vec<usize>)>) -> Map<usize, Seq<usize>> {
    map_of(entries).map_values(|path: Vec<usize>| path@)
}

impl View for Projection {
    type V = ProjectionModel;

    open spec fn view(&self) -> ProjectionModel {
        match self {
            Projection::Columns(places) => ProjectionModel::Columns(places@),
            Projection::InnerColumns(entries) => ProjectionModel::InnerColumns(
                paths_view(entries@),
            ),
        }
    }
}

impl Projection {
    /// The symbols of inner columns are in ascending order.
    pub open spec fn wf(self) -> bool {
        self matches Projection::InnerColumns(entries) ==> keys_ascend(entries@)
    }
}

/// The place of a name in a schema.
pub open spec fn place_of(schema: Seq<TableField>, name: Seq<char>) -> usize {
    field_index(schema, name)->Some_0 as usize
}

/// The name under which a column is read by itself.
pub open spec fn plain_name(entry: ColumnEntry, ignore_internal_column: bool) -> Option<Seq<char>> {
    match entry {
        ColumnEntry::BaseTableColumn(column) => Some(column.column_name@),
        ColumnEntry::DerivedColumn(column) => Some(column.alias@),
        ColumnEntry::InternalColumn(column) => if ignore_internal_column {
            None
        } else {
            Some(column.internal_column.column_name@)
        },
        ColumnEntry::VirtualColumn(_) => None,
    }
}

/// The places of the columns that are read by themselves.
pub open spec fn direct_places(
    columns: Seq<ColumnEntry>,
    schema: Seq<TableField>,
    symbols: Seq<usize>,
    ignore_internal_column: bool,
) -> Seq<usize>
    decreases symbols.len(),
{
    if symbols.len() == 0 {
        Seq::empty()
    } else {
        let before = direct_places(columns, schema, symbols.drop_last(), ignore_internal_column);
        match plain_name(columns[symbols.last() as int], ignore_internal_column) {
            Some(name) => before.push(place_of(schema, name)),
            None => before,
        }
    }
}

/// The places of the columns that virtual columns are read out of, each once.
pub open spec fn virtual_places(
    columns: Seq<ColumnEntry>,
    schema: Seq<TableField>,
    symbols: Seq<usize>,
) -> Seq<usize>
    decreases symbols.len(),
{
    if symbols.len() == 0 {
        Seq::empty()
    } else {
        let before = virtual_places(columns, schema, symbols.drop_last());
        match columns[symbols.last() as int] {
            ColumnEntry::VirtualColumn(column) => {
                let place = place_of(schema, column.source_column_name@);
                if before.contains(place) {
                    before
                } else {
                    before.push(place)
                }
            },
            _ => before,
        }
    }
}

/// The places that are not among others.
pub open spec fn places_apart(places: Seq<usize>, others: Seq<usize>) -> Seq<usize> {
    places.filter(|place: usize| !others.contains(place))
}

/// The path of a column, and what it stands under.
pub open spec fn path_of(
    entry: ColumnEntry,
    schema: Seq<TableField>,
    ignore_internal_column: bool,
    add_virtual_source_column: bool,
) -> Option<(usize, Seq<usize>)> {
    match entry {
        ColumnEntry::BaseTableColumn(column) => match column.path_indices {
            Some(path) => Some((column.column_index, path@)),
            None => Some((column.column_index, seq![place_of(schema, column.column_name@)])),
        },
        ColumnEntry::DerivedColumn(column) => Some(
            (column.column_index, seq![place_of(schema, column.alias@)]),
        ),
        ColumnEntry::InternalColumn(column) => if ignore_internal_column {
            None
        } else {
            Some((column.column_index, seq![column.column_index]))
        },
        ColumnEntry::VirtualColumn(column) => if add_virtual_source_column {
            let place = place_of(schema, column.source_column_name@);
            Some((place, seq![place]))
        } else {
            None
        },
    }
}

/// The paths of the columns, the later ones over the earlier.
pub open spec fn inner_paths(
    columns: Seq<ColumnEntry>,
    schema: Seq<TableField>,
    symbols: Seq<usize>,
    ignore_internal_column: bool,
    add_virtual_source_column: bool,
) -> Map<usize, Seq<usize>>
    decreases symbols.len(),
{
    if symbols.len() == 0 {
        Map::empty()
    } else {
        let before = inner_paths(
            columns,
            schema,
            symbols.drop_last(),
            ignore_internal_column,
            add_virtual_source_column,
        );
        match path_of(
            columns[symbols.last() as int],
            schema,
            ignore_internal_column,
            add_virtual_source_column,
        ) {
            Some((under, path)) => before.insert(under, path),
            None => before,
        }
    }
}

/// What a scan of these columns reads.
pub open spec fn projection_of(
    columns: Seq<ColumnEntry>,
    schema: Seq<TableField>,
    symbols: Seq<usize>,
    has_inner_column: bool,
    ignore_internal_column: bool,
    add_virtual_source_column: bool,
) -> ProjectionModel {
    if has_inner_column {
        ProjectionModel::InnerColumns(
            inner_paths(
                columns,
                schema,
                symbols,
                ignore_internal_column,
                add_virtual_source_column,
            ),
        )
    } else {
        let direct = direct_places(columns, schema, symbols, ignore_internal_column);
        ProjectionModel::Columns(
            if add_virtual_source_column {
                stable_sort(
                    direct + places_apart(virtual_places(columns, schema, symbols), direct),
                )
            } else {
                stable_sort(direct)
            },
        )
    }
}

/// The schema holds the columns that this one is read from.
pub open spec fn column_known(
    entry: ColumnEntry,
    schema: Seq<TableField>,
    has_inner_column: bool,
    ignore_internal_column: bool,
    add_virtual_source_column: bool,
) -> bool {
    match entry {
        ColumnEntry::BaseTableColumn(column) => field_index(schema, column.column_name@) is Some
            || has_inner_column && column.path_indices is Some,
        ColumnEntry::DerivedColumn(column) => field_index(schema, column.alias@) is Some,
        ColumnEntry::InternalColumn(column) => ignore_internal_column || has_inner_column
            || field_index(schema, column.internal_column.column_name@) is Some,
        ColumnEntry::VirtualColumn(column) => !add_virtual_source_column || field_index(
            schema,
            column.source_column_name@,
        ) is Some,
    }
}

/// The symbols are of columns that the schema holds what they are read from.
pub open spec fn columns_known(
    columns: Seq<ColumnEntry>,
    schema: Seq<TableField>,
    symbols: Seq<usize>,
    has_inner_column: bool,
    ignore_internal_column: bool,
    add_virtual_source_column: bool,
) -> bool {
    forall|i: int|
        0 <= i < symbols.len() ==> (#[trigger] symbols[i]) < columns.len() && column_known(
            columns[symbols[i] as int],
            schema,
            has_inner_column,
            ignore_internal_column,
            add_virtual_source_column,
        )
}

/// Whether the schema holds what the columns are read from.
pub fn columns_are_known(
    columns: &Vec<ColumnEntry>,
    schema: &Vec<TableField>,
    symbols: &Vec<usize>,
    has_inner_column: bool,
    add_virtual_source_column: bool,
) -> (r: bool)
    ensures
        r == columns_known(
            columns@,
            schema@,
            symbols@,
            has_inner_column,
            true,
            add_virtual_source_column,
        ),
{
    let mut i: usize = 0;
    while i < symbols.len()
        invariant
            i <= symbols@.len(),
            columns_known(
                columns@,
                schema@,
                symbols@.take(i as int),
                has_inner_column,
                true,
                add_virtual_source_column,
            ),
        decreases symbols@.len() - i,
    {
        let symbol: usize = symbols[i];
        if symbol >= columns.len() {
            assert(symbols@[i as int] >= columns@.len());
            return false;
        }
        let known: bool = match &columns[symbol] {
            ColumnEntry::BaseTableColumn(column) => index_of(schema, column.column_name.as_str())
                .is_some() || has_inner_column && column.path_indices.is_some(),
            ColumnEntry::DerivedColumn(column) => index_of(schema, column.alias.as_str()).is_some(),
            ColumnEntry::InternalColumn(_) => true,
            ColumnEntry::VirtualColumn(column) => !add_virtual_source_column || index_of(
                schema,
                column.source_column_name.as_str(),
            ).is_some(),
        };
        if !known {
            assert(symbols@[i as int] == symbol);
            return false;
        }
        proof {
            let t = symbols@.take(i + 1);
            assert forall|k: int| 0 <= k < t.len() implies (#[trigger] t[k]) < columns@.len()
                && column_known(
                columns@[t[k] as int],
                schema@,
                has_inner_column,
                true,
                add_virtual_source_column,
            ) by {
                if k < i {
                    assert(t[k] == symbols@.take(i as int)[k]);
                }
            }
        }
        i = i + 1;
    }
    assert(symbols@.take(symbols@.len() as int) =~= symbols@);
    true
}

fn holds_place(places: &Vec<usize>, place: usize) -> (r: bool)
    ensures
        r == places@.contains(place),
{
    let mut i: usize = 0;
    while i < places.len()
        invariant
            i <= places@.len(),
            forall|k: int| 0 <= k < i ==> places@[k] != place,
        decreases places@.len() - i,
    {
        if places[i] == place {
            assert(places@[i as int] == place);
            return true;
        }
        i = i + 1;
    }
    false
}

fn find_place(schema: &Vec<TableField>, name: &str) -> (r: usize)
    requires
        field_index(schema@, name@) is Some,
    ensures
        r == place_of(schema@, name@),
{
    index_of(schema, name).unwrap()
}

fn build_columns(
    columns: &Vec<ColumnEntry>,
    schema: &Vec<TableField>,
    symbols: &Vec<usize>,
    ignore_internal_column: bool,
    add_virtual_source_column: bool,
) -> (r: Vec<usize>)
    requires
        columns_known(
            columns@,
            schema@,
            symbols@,
            false,
            ignore_internal_column,
            add_virtual_source_column,
        ),
    ensures
        ProjectionModel::Columns(r@) == projection_of(
            columns@,
            schema@,
            symbols@,
            false,
            ignore_internal_column,
            add_virtual_source_column,
        ),
{
    let mut col_indices: Vec<usize> = Vec::new();
    let mut virtual_col_indices: Vec<usize> = Vec::new();
    let mut i: usize = 0;
    assert(symbols@.take(0) =~= Seq::<usize>::empty());
    while i < symbols.len()
        invariant
            i <= symbols@.len(),
            columns_known(
                columns@,
                schema@,
                symbols@,
                false,
                ignore_internal_column,
                add_virtual_source_column,
            ),
            col_indices@ == direct_places(
                columns@,
                schema@,
                symbols@.take(i as int),
                ignore_internal_column,
            ),
            add_virtual_source_column ==> virtual_col_indices@ == virtual_places(
                columns@,
                schema@,
                symbols@.take(i as int),
            ),
            !add_virtual_source_column ==> virtual_col_indices@.len() == 0,
        decreases symbols@.len() - i,
    {
        proof {
            let t = symbols@.take(i + 1);
            assert(t.drop_last() =~= symbols@.take(i as int));
            assert(t.last() == symbols@[i as int]);
            assert(column_known(
                columns@[symbols@[i as int] as int],
                schema@,
                false,
                ignore_internal_column,
                add_virtual_source_column,
            ));
        }
        match &columns[symbols[i]] {
            ColumnEntry::BaseTableColumn(column) => {
                col_indices.push(find_place(schema, column.column_name.as_str()));
            },
            ColumnEntry::DerivedColumn(column) => {
                col_indices.push(find_place(schema, column.alias.as_str()));
            },
            ColumnEntry::InternalColumn(column) => {
                if !ignore_internal_column {
                    col_indices.push(
                        find_place(schema, column.internal_column.column_name.as_str()),
                    );
                }
            },
            ColumnEntry::VirtualColumn(column) => {
                if add_virtual_source_column {
                    let place: usize = find_place(schema, column.source_column_name.as_str());
                    if !holds_place(&virtual_col_indices, place) {
                        virtual_col_indices.push(place);
                    }
                }
            },
        }
        i = i + 1;
    }
    assert(symbols@.take(symbols@.len() as int) =~= symbols@);
    let ghost direct = col_indices@;
    let ghost sources = virtual_col_indices@;
    let ghost keep = |place: usize| !direct.contains(place);
    let mut all: Vec<usize> = Vec::new();
    let mut k: usize = 0;
    while k < col_indices.len()
        invariant
            k <= col_indices@.len(),
            col_indices@ == direct,
            all@ == direct.take(k as int),
        decreases col_indices@.len() - k,
    {
        all.push(col_indices[k]);
        assert(all@ =~= direct.take(k + 1));
        k = k + 1;
    }
    let mut j: usize = 0;
    proof {
        reveal(Seq::filter);
        assert(sources.take(0) =~= Seq::<usize>::empty());
        assert(sources.take(0).filter(keep) =~= Seq::<usize>::empty());
        assert(all@ =~= direct + sources.take(0).filter(keep));
    }
    while j < virtual_col_indices.len()
        invariant
            j <= virtual_col_indices@.len(),
            virtual_col_indices@ == sources,
            col_indices@ == direct,
            keep == (|place: usize| !direct.contains(place)),
            all@ == direct + sources.take(j as int).filter(keep),
        decreases virtual_col_indices@.len() - j,
    {
        let place: usize = virtual_col_indices[j];
        proof {
            reveal(Seq::filter);
            let t = sources.take(j + 1);
            assert(t.drop_last() =~= sources.take(j as int));
            assert(t.last() == place);
        }
        if !holds_place(&col_indices, place) {
            all.push(place);
            assert(all@ =~= direct + sources.take(j + 1).filter(keep));
        }
        j = j + 1;
    }
    proof {
        assert(sources.take(sources.len() as int) =~= sources);
        assert(places_apart(sources, direct) == sources.filter(keep));
        if !add_virtual_source_column {
            assert(sources =~= Seq::<usize>::empty());
            assert(sources.filter(keep) =~= Seq::<usize>::empty());
            assert(all@ =~= direct);
        }
    }
    let ghost unsorted = all@;
    let sorted = sort_stably(all);
    proof {
        lemma_stable_sort_unique(unsorted, sorted@);
    }
    sorted
}

fn copy_path(path: &Vec<usize>) -> (r: Vec<usize>)
    ensures
        r@ == path@,
{
    let mut r: Vec<usize> = Vec::new();
    let mut i: usize = 0;
    while i < path.len()
        invariant
            i <= path@.len(),
            r@ == path@.take(i as int),
        decreases path@.len() - i,
    {
        r.push(path[i]);
        assert(r@ =~= path@.take(i + 1));
        i = i + 1;
    }
    assert(r@ =~= path@);
    r
}

fn single_path(place: usize) -> (r: Vec<usize>)
    ensures
        r@ == seq![place],
{
    let mut r: Vec<usize> = Vec::new();
    r.push(place);
    assert(r@ =~= seq![place]);
    r
}

fn build_inner_columns(
    columns: &Vec<ColumnEntry>,
    schema: &Vec<TableField>,
    symbols: &Vec<usize>,
    ignore_internal_column: bool,
    add_virtual_source_column: bool,
) -> (r: Vec<(usize, Vec<usize>)>)
    requires
        columns_known(
            columns@,
            schema@,
            symbols@,
            true,
            ignore_internal_column,
            add_virtual_source_column,
        ),
    ensures
        keys_ascend(r@),
        paths_view(r@) == inner_paths(
            columns@,
            schema@,
            symbols@,
            ignore_internal_column,
            add_virtual_source_column,
        ),
{
    let mut col_indices: Vec<(usize, Vec<usize>)> = Vec::new();
    let mut i: usize = 0;
    assert(symbols@.take(0) =~= Seq::<usize>::empty());
    assert(paths_view(col_indices@) =~= Map::<usize, Seq<usize>>::empty());
    while i < symbols.len()
        invariant
            i <= symbols@.len(),
            columns_known(
                columns@,
                schema@,
                symbols@,
                true,
                ignore_internal_column,
                add_virtual_source_column,
            ),
            keys_ascend(col_indices@),
            paths_view(col_indices@) == inner_paths(
                columns@,
                schema@,
                symbols@.take(i as int),
                ignore_internal_column,
                add_virtual_source_column,
            ),
        decreases symbols@.len() - i,
    {
        let ghost before = paths_view(col_indices@);
        proof {
            let t = symbols@.take(i + 1);
            assert(t.drop_last() =~= symbols@.take(i as int));
            assert(t.last() == symbols@[i as int]);
            assert(column_known(
                columns@[symbols@[i as int] as int],
                schema@,
                true,
                ignore_internal_column,
                add_virtual_source_column,
            ));
        }
        let entry: Option<(usize, Vec<usize>)> = match &columns[symbols[i]] {
            ColumnEntry::BaseTableColumn(column) => match &column.path_indices {
                Some(path) => Some((column.column_index, copy_path(path))),
                None => Some(
                    (
                        column.column_index,
                        single_path(find_place(schema, column.column_name.as_str())),
                    ),
                ),
            },
            ColumnEntry::DerivedColumn(column) => Some(
                (column.column_index, single_path(find_place(schema, column.alias.as_str()))),
            ),
            ColumnEntry::InternalColumn(column) => if ignore_internal_column {
                None
            } else {
                Some((column.column_index, single_path(column.column_index)))
            },
            ColumnEntry::VirtualColumn(column) => if add_virtual_source_column {
                let place: usize = find_place(schema, column.source_column_name.as_str());
                Some((place, single_path(place)))
            } else {
                None
            },
        };
        match entry {
            Some((under, path)) => {
                let ghost seen = path@;
                insert_entry(&mut col_indices, under, path);
                assert(paths_view(col_indices@) =~= before.insert(under, seen));
            },
            None => {},
        }
        i = i + 1;
    }
    assert(symbols@.take(symbols@.len() as int) =~= symbols@);
    col_indices
}

/// What a scan of these columns reads.
pub fn build_projection(
    columns: &Vec<ColumnEntry>,
    schema: &Vec<TableField>,
    symbols: &Vec<usize>,
    has_inner_column: bool,
    ignore_internal_column: bool,
    add_virtual_source_column: bool,
) -> (r: Projection)
    requires
        columns_known(
            columns@,
            schema@,
            symbols@,
            has_inner_column,
            ignore_internal_column,
            add_virtual_source_column,
        ),
    ensures
        r.wf(),
        r@ == projection_of(
            columns@,
            schema@,
            symbols@,
            has_inner_column,
            ignore_internal_column,
            add_virtual_source_column,
        ),
{
    if has_inner_column {
        Projection::InnerColumns(
            build_inner_columns(
                columns,
                schema,
                symbols,
                ignore_internal_column,
                add_virtual_source_column,
            ),
        )
    } else {
        Projection::Columns(
            build_columns(
                columns,
                schema,
                symbols,
                ignore_internal_column,
                add_virtual_source_column,
            ),
        )
    }
}

/// The column ids of the virtual columns among these.
pub open spec fn virtual_ids(columns: Seq<ColumnEntry>, symbols: Seq<usize>) -> Seq<u32>
    decreases symbols.len(),
{
    if symbols.len() == 0 {
        Seq::empty()
    } else {
        let before = virtual_ids(columns, symbols.drop_last());
        match columns[symbols.last() as int] {
            ColumnEntry::VirtualColumn(column) => before.push(column.column_id),
            _ => before,
        }
    }
}

/// The column ids of the virtual columns that a filter reads before the other columns.
pub fn build_prewhere_virtual_column_ids(columns: &Vec<ColumnEntry>, indices: &Vec<usize>) -> (r:
    Option<Vec<u32>>)
    requires
        forall|i: int| 0 <= i < indices@.len() ==> (#[trigger] indices@[i]) < columns@.len(),
    ensures
        match r {
            Some(ids) => ids@ == virtual_ids(columns@, indices@) && ids@.len() > 0,
            None => virtual_ids(columns@, indices@).len() == 0,
        },
{
    let mut virtual_column_ids: Vec<u32> = Vec::new();
    let mut i: usize = 0;
    assert(indices@.take(0) =~= Seq::<usize>::empty());
    while i < indices.len()
        invariant
            i <= indices@.len(),
            forall|i: int| 0 <= i < indices@.len() ==> (#[trigger] indices@[i]) < columns@.len(),
            virtual_column_ids@ == virtual_ids(columns@, indices@.take(i as int)),
        decreases indices@.len() - i,
    {
        proof {
            let t = indices@.take(i + 1);
            assert(t.drop_last() =~= indices@.take(i as int));
            assert(t.last() == indices@[i as int]);
        }
        match &columns[indices[i]] {
            ColumnEntry::VirtualColumn(column) => {
                virtual_column_ids.push(column.column_id);
            },
            _ => {},
        }
        i = i + 1;
    }
    assert(indices@.take(indices@.len() as int) =~= indices@);
    if virtual_column_ids.len() > 0 {
        Some(virtual_column_ids)
    } else {
        None
    }
}

/// How a virtual column is read.
#[derive(Debug)]
pub struct VirtualColumnField {
    pub source_column_id: u32,
    pub source_name: String,
    pub column_id: u32,
    pub name: String,
    pub key_paths: String,
    pub cast_func_name: Option<String>,
    pub data_type: TableDataType,
}

/// How virtual columns are read.
#[derive(Debug)]
pub struct VirtualColumnInfo {
    /// The columns that they are read out of, each once.
    pub source_column_ids: Vec<u32>,
    pub virtual_column_fields: Vec<VirtualColumnField>,
}

/// Named so, a function casts a variant to a type, as the host spells the type in small letters;
/// there is none where the type is a variant itself.
pub open spec fn casts_to<N: Fn(TableDataType) -> String>(
    name: Option<String>,
    data_type: TableDataType,
    spell: N,
) -> bool {
    if data_type.kind is Variant {
        name is None
    } else {
        let plain = TableDataType { kind: data_type.kind, nullable: false };
        name matches Some(name) && exists|text: String| #[trigger]
            call_ensures(spell, (plain,), text) && name@ == "to_"@ + text@
    }
}

/// A field says how this virtual column is read.
pub open spec fn reads_virtual_column<N: Fn(TableDataType) -> String>(
    field: VirtualColumnField,
    column: VirtualColumn,
    spell: N,
) -> bool {
    &&& field.source_column_id == column.source_column_id
    &&& field.source_name@ == column.source_column_name@
    &&& field.column_id == column.column_id
    &&& field.name@ == column.column_name@
    &&& field.key_paths@ == column.key_paths@
    &&& field.data_type == column.data_type
    &&& casts_to(field.cast_func_name, column.data_type, spell)
}

/// The ids of the columns that virtual columns are read out of.
pub open spec fn source_ids(virtual_columns: Seq<(usize, VirtualColumn)>) -> Seq<u32> {
    Seq::new(virtual_columns.len(), |i: int| virtual_columns[i].1.source_column_id)
}

/// This is how virtual columns are read; there is nothing to say where there are none.
pub open spec fn reads_virtual_columns<N: Fn(TableDataType) -> String>(
    r: Option<VirtualColumnInfo>,
    virtual_columns: Seq<(usize, VirtualColumn)>,
    spell: N,
) -> bool {
    &&& r is None <==> virtual_columns.len() == 0
    &&& r matches Some(info) ==> {
        &&& info.source_column_ids@ == first_places(source_ids(virtual_columns))
        &&& info.virtual_column_fields@.len() == virtual_columns.len()
        &&& forall|i: int|
            0 <= i < virtual_columns.len() ==> reads_virtual_column(
                #[trigger] info.virtual_column_fields@[i],
                virtual_columns[i].1,
                spell,
            )
    }
}

/// How virtual columns are read, where there are any.
pub fn build_virtual_column<N: Fn(TableDataType) -> String>(
    virtual_columns: &Vec<(usize, VirtualColumn)>,
    spell: &N,
) -> (r: Option<VirtualColumnInfo>)
    requires
        forall|data_type: TableDataType| #[trigger] call_requires(*spell, (data_type,)),
    ensures
        reads_virtual_columns(r, virtual_columns@, *spell),
{
    if virtual_columns.len() == 0 {
        return None;
    }
    let mut source_column_ids: Vec<u32> = Vec::new();
    let mut virtual_column_fields: Vec<VirtualColumnField> = Vec::new();
    let ghost ids = source_ids(virtual_columns@);
    let mut i: usize = 0;
    assert(ids.take(0) =~= Seq::<u32>::empty());
    while i < virtual_columns.len()
        invariant
            i <= virtual_columns@.len(),
            ids == source_ids(virtual_columns@),
            forall|data_type: TableDataType| #[trigger] call_requires(*spell, (data_type,)),
            source_column_ids@ == first_places(ids.take(i as int)),
            virtual_column_fields@.len() == i,
            forall|k: int|
                0 <= k < i ==> reads_virtual_column(
                    #[trigger] virtual_column_fields@[k],
                    virtual_columns@[k].1,
                    *spell,
                ),
        decreases virtual_columns@.len() - i,
    {
        let column = &virtual_columns[i].1;
        proof {
            let t = ids.take(i + 1);
            assert(t.drop_last() =~= ids.take(i as int));
            assert(t.last() == column.source_column_id);
        }
        if !holds_id(&source_column_ids, column.source_column_id) {
            source_column_ids.push(column.source_column_id);
        }
        let target_type = column.data_type.remove_nullable();
        let cast_func_name: Option<String> = match target_type.kind {
            ColumnKind::Variant => None,
            _ => {
                let mut name = String::from_str("to_");
                let text = spell(target_type);
                append_text(&mut name, text.as_str());
                assert(call_ensures(*spell, (target_type,), text));
                Some(name)
            },
        };
        let field = VirtualColumnField {
            source_column_id: column.source_column_id,
            source_name: column.source_column_name.clone(),
            column_id: column.column_id,
            name: column.column_name.clone(),
            key_paths: column.key_paths.clone(),
            cast_func_name,
            data_type: column.data_type,
        };
        assert(reads_virtual_column(field, *column, *spell));
        virtual_column_fields.push(field);
        i = i + 1;
    }
    assert(ids.take(ids.len() as int) =~= ids);
    Some(VirtualColumnInfo { source_column_ids, virtual_column_fields })
}

} // verus!
