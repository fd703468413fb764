//! The plan of a table scan, once its source is known.

use vstd::prelude::*;

use crate::columns::InternalColumn;
use crate::filter::{field_index, index_of};
use crate::push_down::PushDownInfo;
use crate::scalar::{TableDataType, TableField};
use crate::sort::{lemma_stable_sort_exists, lemma_stable_sort_unique, lemma_stable_sort_view,
    sort_stably, stable_sort, Ranked, Sortable};
use crate::text::{append_text, decimal, decimal_text, text_eq, texts_view};

verus! {

/// An error of planning a table scan.
#[derive(Clone, Copy, Debug, PartialEq, Eq, Structural)]
pub enum TableScanError {
    /// A column that the scan is to give is not in the schema of its source, by its place among
    /// the names.
    UnknownColumn { entry: usize },
}

/// A field of a plan: its name there, the symbol of a column in decimal, and its type.
#[derive(Debug)]
pub struct DataField {
    pub name: String,
    pub data_type: TableDataType,
}

/// The fields of a plan.
pub open spec fn data_fields_view(fields: Seq<DataField>) -> Seq<(Seq<char>, TableDataType)> {
    Seq::new(fields.len(), |i: int| (fields[i].name@, fields[i].data_type))
}

/// A copy of fields of a plan.
pub fn clone_data_fields(fields: &Vec<DataField>) -> (r: Vec<DataField>)
    ensures
        data_fields_view(r@) == data_fields_view(fields@),
{
    let mut r: Vec<DataField> = Vec::new();
    let mut i: usize = 0;
    while i < fields.len()
        invariant
            i <= fields@.len(),
            r@.len() == i,
            forall|k: int|
                0 <= k < i ==> (#[trigger] r@[k]).name@ == fields@[k].name@ && r@[k].data_type
                    == fields@[k].data_type,
        decreases fields@.len() - i,
    {
        r.push(DataField { name: fields[i].name.clone(), data_type: fields[i].data_type });
        i = i + 1;
    }
    assert(data_fields_view(r@) =~= data_fields_view(fields@));
    r
}

/// A field of a plan, and where its column stands in the schema.
pub struct PlacedField {
    pub place: int,
    pub name: Seq<char>,
    pub data_type: TableDataType,
}

impl Ranked for PlacedField {
    open spec fn ranks_before(self, other: Self) -> bool {
        self.place < other.place
    }

    proof fn rank_asymmetric(a: Self, b: Self) {
    }

    proof fn rank_negatively_transitive(a: Self, b: Self, c: Self) {
    }
}

struct OutputField {
    place: usize,
    name: String,
    data_type: TableDataType,
}

impl OutputField {
    spec fn placed(self) -> PlacedField {
        PlacedField { place: self.place as int, name: self.name@, data_type: self.data_type }
    }
}

spec fn placed_view(fields: Seq<OutputField>) -> Seq<PlacedField> {
    Seq::new(fields.len(), |i: int| fields[i].placed())
}

impl Ranked for OutputField {
    closed spec fn ranks_before(self, other: Self) -> bool {
        self.place < other.place
    }

    proof fn rank_asymmetric(a: Self, b: Self) {
    }

    proof fn rank_negatively_transitive(a: Self, b: Self, c: Self) {
    }
}

impl Sortable for OutputField {
    fn is_before(&self, other: &Self) -> (r: bool) {
        self.place < other.place
    }
}

/// The fields that names stand for, with the places of their columns; the first name that the
/// schema does not have is an error.
pub open spec fn placed_fields(schema: Seq<TableField>, name_mapping: Seq<(String, String)>) -> Result<
    Seq<PlacedField>,
    TableScanError,
>
    decreases name_mapping.len(),
{
    if name_mapping.len() == 0 {
        Ok(Seq::empty())
    } else {
        match placed_fields(schema, name_mapping.drop_last()) {
            Err(e) => Err(e),
            Ok(before) => match field_index(schema, name_mapping.last().0@) {
                None => Err(
                    TableScanError::UnknownColumn { entry: (name_mapping.len() - 1) as usize },
                ),
                Some(place) => Ok(
                    before.push(
                        PlacedField {
                            place,
                            name: name_mapping.last().1@,
                            data_type: schema[place].data_type,
                        },
                    ),
                ),
            },
        }
    }
}

proof fn lemma_placed_fields_fail(
    schema: Seq<TableField>,
    name_mapping: Seq<(String, String)>,
    n: int,
)
    requires
        0 <= n <= name_mapping.len(),
        placed_fields(schema, name_mapping.take(n)) is Err,
    ensures
        placed_fields(schema, name_mapping) == placed_fields(schema, name_mapping.take(n)),
    decreases name_mapping.len(),
{
    if n == name_mapping.len() {
        assert(name_mapping.take(n) =~= name_mapping);
    } else {
        assert(name_mapping.drop_last().take(n) =~= name_mapping.take(n));
        lemma_placed_fields_fail(schema, name_mapping.drop_last(), n);
    }
}

/// The fields without their places.
pub open spec fn unplaced(fields: Seq<PlacedField>) -> Seq<(Seq<char>, TableDataType)> {
    Seq::new(fields.len(), |i: int| (fields[i].name, fields[i].data_type))
}

/// The fields that a scan gives, in the order of their columns in the schema.
pub open spec fn output_fields_of(
    schema: Seq<TableField>,
    name_mapping: Seq<(String, String)>,
) -> Result<Seq<(Seq<char>, TableDataType)>, TableScanError> {
    match placed_fields(schema, name_mapping) {
        Ok(fields) => Ok(unplaced(stable_sort(fields))),
        Err(e) => Err(e),
    }
}

/// The fields that a scan gives.
pub fn output_fields(schema: &Vec<TableField>, name_mapping: &Vec<(String, String)>) -> (r: Result<
    Vec<DataField>,
    TableScanError,
>)
    ensures
        match r {
            Ok(fields) => output_fields_of(schema@, name_mapping@) == Ok::<_, TableScanError>(
                data_fields_view(fields@),
            ),
            Err(e) => output_fields_of(schema@, name_mapping@) == Err::<
                Seq<(Seq<char>, TableDataType)>,
                _,
            >(e),
        },
{
    let mut placed: Vec<OutputField> = Vec::new();
    let mut i: usize = 0;
    assert(name_mapping@.take(0) =~= Seq::<(String, String)>::empty());
    assert(placed_view(placed@) =~= Seq::<PlacedField>::empty());
    while i < name_mapping.len()
        invariant
            i <= name_mapping@.len(),
            placed_fields(schema@, name_mapping@.take(i as int)) == Ok::<_, TableScanError>(
                placed_view(placed@),
            ),
        decreases name_mapping@.len() - i,
    {
        let entry = &name_mapping[i];
        let ghost before = placed@;
        proof {
            let t = name_mapping@.take(i + 1);
            assert(t.drop_last() =~= name_mapping@.take(i as int));
            assert(t.last() == *entry);
        }
        match index_of(schema, entry.0.as_str()) {
            None => {
                proof {
                    lemma_placed_fields_fail(schema@, name_mapping@, i + 1);
                }
                return Err(TableScanError::UnknownColumn { entry: i });
            },
            Some(place) => {
                let field = OutputField {
                    place,
                    name: entry.1.clone(),
                    data_type: schema[place].data_type,
                };
                let ghost shown = field.placed();
                placed.push(field);
                assert(placed_view(placed@) =~= placed_view(before).push(shown));
            },
        }
        i = i + 1;
    }
    assert(name_mapping@.take(name_mapping@.len() as int) =~= name_mapping@);
    let ghost unsorted = placed@;
    let sorted = sort_stably(placed);
    proof {
        lemma_stable_sort_view(
            unsorted,
            sorted@,
            placed_view(unsorted),
            placed_view(sorted@),
            |field: OutputField| field.placed(),
        );
        lemma_stable_sort_unique(placed_view(unsorted), placed_view(sorted@));
    }
    let mut fields: Vec<DataField> = Vec::new();
    let mut k: usize = 0;
    while k < sorted.len()
        invariant
            k <= sorted@.len(),
            data_fields_view(fields@) == unplaced(placed_view(sorted@)).take(k as int),
            fields@.len() == k,
        decreases sorted@.len() - k,
    {
        let field = DataField {
            name: sorted[k].name.clone(),
            data_type: sorted[k].data_type,
        };
        let ghost before = fields@;
        fields.push(field);
        proof {
            assert(data_fields_view(before).push((sorted@[k as int].name@, sorted@[k as int].data_type))
                =~= data_fields_view(fields@));
            assert(data_fields_view(fields@) =~= unplaced(placed_view(sorted@)).take(k + 1));
        }
        k = k + 1;
    }
    assert(data_fields_view(fields@) =~= unplaced(placed_view(sorted@)));
    Ok(fields)
}

/// The places of names in a schema.
pub open spec fn places_of(schema: Seq<TableField>, name_mapping: Seq<(String, String)>) -> Result<
    Seq<usize>,
    TableScanError,
> {
    match placed_fields(schema, name_mapping) {
        Ok(fields) => Ok(Seq::new(fields.len(), |i: int| fields[i].place as usize)),
        Err(e) => Err(e),
    }
}

/// The numbers from zero up.
pub open spec fn counting(n: nat) -> Seq<usize> {
    Seq::new(n, |i: int| i as usize)
}

/// The columns that are kept of those that the source gives, where they are not all of them in
/// order.
pub open spec fn kept_places(schema: Seq<TableField>, name_mapping: Seq<(String, String)>) -> Result<
    Option<Seq<usize>>,
    TableScanError,
> {
    match places_of(schema, name_mapping) {
        Err(e) => Err(e),
        Ok(places) => if stable_sort(places) == counting(schema.len()) {
            Ok(None)
        } else {
            Ok(Some(stable_sort(places)))
        },
    }
}

/// The columns that are kept of those that the source gives, where some are dropped.
pub fn scan_output_projection(
    schema: &Vec<TableField>,
    name_mapping: &Vec<(String, String)>,
) -> (r: Result<Option<Vec<usize>>, TableScanError>)
    ensures
        match r {
            Ok(Some(places)) => kept_places(schema@, name_mapping@) == Ok::<_, TableScanError>(
                Some(places@),
            ),
            Ok(None) => kept_places(schema@, name_mapping@) == Ok::<_, TableScanError>(
                None::<Seq<usize>>,
            ),
            Err(e) => kept_places(schema@, name_mapping@) == Err::<Option<Seq<usize>>, _>(e),
        },
{
    let mut places: Vec<usize> = Vec::new();
    let mut i: usize = 0;
    assert(name_mapping@.take(0) =~= Seq::<(String, String)>::empty());
    while i < name_mapping.len()
        invariant
            i <= name_mapping@.len(),
            placed_fields(schema@, name_mapping@.take(i as int)) is Ok,
            placed_fields(schema@, name_mapping@.take(i as int))->Ok_0.len() == i,
            places@.len() == i,
            forall|k: int|
                0 <= k < i ==> #[trigger] places@[k] == placed_fields(
                    schema@,
                    name_mapping@.take(i as int),
                )->Ok_0[k].place,
        decreases name_mapping@.len() - i,
    {
        let entry = &name_mapping[i];
        proof {
            let t = name_mapping@.take(i + 1);
            assert(t.drop_last() =~= name_mapping@.take(i as int));
            assert(t.last() == *entry);
        }
        match index_of(schema, entry.0.as_str()) {
            None => {
                proof {
                    lemma_placed_fields_fail(schema@, name_mapping@, i + 1);
                }
                return Err(TableScanError::UnknownColumn { entry: i });
            },
            Some(place) => {
                places.push(place);
            },
        }
        i = i + 1;
    }
    assert(name_mapping@.take(name_mapping@.len() as int) =~= name_mapping@);
    assert(places_of(schema@, name_mapping@)->Ok_0 =~= places@);
    let ghost unsorted = places@;
    let projection = sort_stably(places);
    proof {
        lemma_stable_sort_unique(unsorted, projection@);
    }
    let mut all: bool = projection.len() == schema.len();
    let mut k: usize = 0;
    while all && k < projection.len()
        invariant
            k <= projection@.len(),
            all ==> projection@.len() == schema@.len() && forall|m: int|
                0 <= m < k ==> projection@[m] == m,
            !all ==> projection@ != counting(schema@.len()),
        decreases projection@.len() - k,
    {
        if projection[k] != k {
            assert(projection@[k as int] != counting(schema@.len())[k as int]);
            all = false;
        }
        k = k + 1;
    }
    if all {
        assert(projection@ =~= counting(schema@.len()));
        Ok(None)
    } else {
        Ok(Some(projection))
    }
}

/// Where the data of a scan comes from.
#[derive(Clone, Copy, Debug, PartialEq, Eq, Structural)]
pub enum DataSourceInfo {
    TableSource,
    StageSource,
    ParquetSource,
    ResultScanSource,
    ORCSource,
}

/// How the parts of a source are handed to the nodes of a cluster.
#[derive(Clone, Copy, Debug, PartialEq, Eq, Structural)]
pub enum PartitionsShuffleKind {
    Sequential,
    Mod,
    Rand,
    BlockMod,
    BroadcastCluster,
    BroadcastWarehouse,
    PreserveOrder,
}

/// The source of a scan.
#[derive(Debug)]
pub struct DataSourcePlan {
    pub source_info: DataSourceInfo,
    pub catalog_name: String,
    pub desc: String,
    /// The columns of the table.
    pub table_schema: Vec<TableField>,
    /// The columns that the source gives.
    pub output_schema: Vec<TableField>,
    pub parts_kind: PartitionsShuffleKind,
    pub partitions_total: u64,
    pub push_downs: Option<PushDownInfo>,
    pub reserve_block_index: bool,
    pub table_index: usize,
    pub scan_id: usize,
}

/// The plan of a table scan.
#[derive(Debug)]
pub struct TableScan {
    pub name: String,
    pub scan_id: usize,
    pub name_mapping: Vec<(String, String)>,
    pub source: DataSourcePlan,
    pub internal_column: Option<Vec<(usize, InternalColumn)>>,
    pub table_index: Option<usize>,
}

/// The name of a plan that reads a source.
pub open spec fn plan_name(source_info: DataSourceInfo) -> Seq<char> {
    match source_info {
        DataSourceInfo::TableSource => "TableScan"@,
        DataSourceInfo::StageSource => "StageScan"@,
        DataSourceInfo::ParquetSource => "ParquetScan"@,
        DataSourceInfo::ResultScanSource => "ResultScan"@,
        DataSourceInfo::ORCSource => "OrcScan"@,
    }
}

/// What a scan tells of itself: a heading and the lines under it.
pub type Label = (String, Vec<String>);

/// The labels, by their texts.
pub open spec fn labels_view(labels: Seq<Label>) -> Seq<(Seq<char>, Seq<Seq<char>>)> {
    Seq::new(labels.len(), |i: int| (labels[i].0@, texts_view(labels[i].1@)))
}

/// The larger number.
pub open spec fn larger(a: nat, b: nat) -> nat {
    if a < b {
        b
    } else {
        a
    }
}

impl TableScan {
    /// A scan of a source.
    pub fn create(
        scan_id: usize,
        name_mapping: Vec<(String, String)>,
        source: DataSourcePlan,
        table_index: Option<usize>,
        internal_column: Option<Vec<(usize, InternalColumn)>>,
    ) -> (r: TableScan)
        ensures
            r.name@ == plan_name(source.source_info),
            r.scan_id == scan_id,
            r.name_mapping == name_mapping,
            r.source == source,
            r.table_index == table_index,
            r.internal_column == internal_column,
    {
        let name = match source.source_info {
            DataSourceInfo::TableSource => String::from_str("TableScan"),
            DataSourceInfo::StageSource => String::from_str("StageScan"),
            DataSourceInfo::ParquetSource => String::from_str("ParquetScan"),
            DataSourceInfo::ResultScanSource => String::from_str("ResultScan"),
            DataSourceInfo::ORCSource => String::from_str("OrcScan"),
        };
        TableScan { name, scan_id, name_mapping, source, internal_column, table_index }
    }

    /// The fields that the scan gives.
    pub fn output_fields(schema: &Vec<TableField>, name_mapping: &Vec<(String, String)>) -> (r:
        Result<Vec<DataField>, TableScanError>)
        ensures
            match r {
                Ok(fields) => output_fields_of(schema@, name_mapping@) == Ok::<_, TableScanError>(
                    data_fields_view(fields@),
                ),
                Err(e) => output_fields_of(schema@, name_mapping@) == Err::<
                    Seq<(Seq<char>, TableDataType)>,
                    _,
                >(e),
            },
    {
        output_fields(schema, name_mapping)
    }

    /// Whether every node of the warehouse reads the source.
    pub fn is_warehouse_distributed_plan(&self) -> (r: bool)
        ensures
            r == (self.source.parts_kind is BroadcastWarehouse),
    {
        match self.source.parts_kind {
            PartitionsShuffleKind::BroadcastWarehouse => true,
            _ => false,
        }
    }

    /// Whether the parts are pruned while they are read, where the session allows it: not where
    /// they must stay in order.
    pub fn builds_prune_pipeline(&self, enable_prune_pipeline: bool) -> (r: bool)
        ensures
            r == (enable_prune_pipeline && self.source.parts_kind
                != PartitionsShuffleKind::PreserveOrder),
    {
        enable_prune_pipeline && self.source.parts_kind != PartitionsShuffleKind::PreserveOrder
    }

    /// The full name of what is scanned.
    pub open spec fn full_name(self) -> Seq<char> {
        self.source.catalog_name@ + "."@ + self.source.desc@
    }

    /// The full name of what is scanned.
    pub fn get_desc(&self) -> (r: String)
        ensures
            r@ == self.full_name(),
    {
        let mut r = self.source.catalog_name.clone();
        append_text(&mut r, ".");
        append_text(&mut r, self.source.desc.as_str());
        r
    }

    /// The names of the columns that the scan gives.
    pub open spec fn column_names(self) -> Seq<Seq<char>> {
        Seq::new(self.name_mapping@.len(), |i: int| self.name_mapping@[i].0@)
    }

    /// What the scan tells of itself: what is scanned, the columns, the parts, and the ordered
    /// index that is read, where there is one.
    pub open spec fn labels(self) -> Seq<(Seq<char>, Seq<Seq<char>>)> {
        let given = self.name_mapping@.len();
        let always = seq![
            ("Full table name"@, seq![self.full_name()]),
            (
                "Columns ("@ + decimal(given) + " / "@ + decimal(
                    larger(given, self.source.table_schema@.len()),
                ) + ")"@,
                self.column_names(),
            ),
            ("Total partitions"@, seq![decimal(self.source.partitions_total as nat)]),
        ];
        if self.source.push_downs matches Some(push_downs) && push_downs.ordered_index is Some {
            let index = self.source.push_downs->Some_0.ordered_index->Some_0;
            always.push(
                ("Ordered index"@, seq![index.index_name@ + "@"@ + index.index_version@]),
            )
        } else {
            always
        }
    }

    /// What the scan tells of itself.
    pub fn get_labels(&self) -> (r: Result<Vec<Label>, TableScanError>)
        ensures
            match r {
                Ok(labels) => output_fields_of(self.source.output_schema@, self.name_mapping@)
                    is Ok && labels_view(labels@) == self.labels(),
                Err(e) => output_fields_of(self.source.output_schema@, self.name_mapping@) == Err::<
                    Seq<(Seq<char>, TableDataType)>,
                    _,
                >(e),
            },
    {
        let fields = match output_fields(&self.source.output_schema, &self.name_mapping) {
            Ok(fields) => fields,
            Err(e) => {
                return Err(e);
            },
        };
        proof {
            lemma_output_len(self.source.output_schema@, self.name_mapping@);
            assert(fields@.len() == data_fields_view(fields@).len());
            assert(fields@.len() == self.name_mapping@.len());
        }
        let given: usize = fields.len();
        let of: usize = if given < self.source.table_schema.len() {
            self.source.table_schema.len()
        } else {
            given
        };
        let mut heading = String::from_str("Columns (");
        append_text(&mut heading, decimal_text(given as u64).as_str());
        append_text(&mut heading, " / ");
        append_text(&mut heading, decimal_text(of as u64).as_str());
        append_text(&mut heading, ")");
        let mut names: Vec<String> = Vec::new();
        let mut i: usize = 0;
        while i < self.name_mapping.len()
            invariant
                i <= self.name_mapping@.len(),
                names@.len() == i,
                forall|k: int| 0 <= k < i ==> (#[trigger] names@[k])@ == self.name_mapping@[k].0@,
            decreases self.name_mapping@.len() - i,
        {
            names.push(self.name_mapping[i].0.clone());
            i = i + 1;
        }
        assert(texts_view(names@) =~= self.column_names());
        let full = one_text(self.get_desc());
        let parts = one_text(decimal_text(self.source.partitions_total));
        let mut labels: Vec<Label> = Vec::new();
        labels.push((String::from_str("Full table name"), full));
        labels.push((heading, names));
        labels.push((String::from_str("Total partitions"), parts));
        match &self.source.push_downs {
            Some(push_downs) => match &push_downs.ordered_index {
                Some(index) => {
                    let mut text = index.index_name.clone();
                    append_text(&mut text, "@");
                    append_text(&mut text, index.index_version.as_str());
                    labels.push((String::from_str("Ordered index"), one_text(text)));
                },
                None => {},
            },
            None => {},
        }
        assert(labels_view(labels@) =~= self.labels());
        Ok(labels)
    }
}

fn one_text(text: String) -> (r: Vec<String>)
    ensures
        texts_view(r@) == seq![text@],
{
    let mut r: Vec<String> = Vec::new();
    r.push(text);
    assert(texts_view(r@) =~= seq![text@]);
    r
}

proof fn lemma_placed_len(schema: Seq<TableField>, name_mapping: Seq<(String, String)>)
    ensures
        placed_fields(schema, name_mapping) matches Ok(fields) ==> fields.len()
            == name_mapping.len(),
    decreases name_mapping.len(),
{
    if name_mapping.len() > 0 {
        lemma_placed_len(schema, name_mapping.drop_last());
    }
}

proof fn lemma_output_len(schema: Seq<TableField>, name_mapping: Seq<(String, String)>)
    ensures
        output_fields_of(schema, name_mapping) matches Ok(fields) ==> fields.len()
            == name_mapping.len(),
{
    lemma_placed_len(schema, name_mapping);
    if placed_fields(schema, name_mapping) is Ok {
        let fields = placed_fields(schema, name_mapping)->Ok_0;
        lemma_stable_sort_exists(fields);
    }
}

/// The place of the first field with a name.
pub open spec fn place_named(fields: Seq<(Seq<char>, TableDataType)>, name: Seq<char>) -> Option<
    int,
>
    decreases fields.len(),
{
    if fields.len() == 0 {
        None
    } else if fields[0].0 == name {
        Some(0)
    } else {
        match place_named(fields.skip(1), name) {
            Some(i) => Some(i + 1),
            None => None,
        }
    }
}

/// Finds the first field with a name.
pub fn find_data_field(fields: &Vec<DataField>, name: &str) -> (r: Option<usize>)
    ensures
        match r {
            Some(i) => place_named(data_fields_view(fields@), name@) == Some(i as int) && i
                < fields@.len(),
            None => place_named(data_fields_view(fields@), name@) is None,
        },
{
    let ghost models = data_fields_view(fields@);
    let mut i: usize = 0;
    assert(models.skip(0) =~= models);
    while i < fields.len()
        invariant
            i <= fields@.len(),
            models == data_fields_view(fields@),
            place_named(models, name@) == (match place_named(models.skip(i as int), name@) {
                Some(k) => Some(k + i),
                None => None,
            }),
        decreases fields@.len() - i,
    {
        assert(models.skip(i as int)[0] == models[i as int]);
        if text_eq(fields[i].name.as_str(), name) {
            return Some(i);
        }
        assert(models.skip(i as int).skip(1) =~= models.skip(i + 1));
        i = i + 1;
    }
    None
}

/// The items whose marks are set.
pub open spec fn marked<T>(items: Seq<T>, marks: Seq<bool>) -> Seq<T>
    decreases items.len(),
{
    if items.len() == 0 {
        Seq::empty()
    } else {
        let before = marked(items.drop_last(), marks);
        if marks[items.len() - 1] {
            before.push(items.last())
        } else {
            before
        }
    }
}

/// The parts of a source that were drawn into a sample.
pub fn sample_parts<T>(parts: Vec<T>, drawn: &Vec<bool>) -> (r: Vec<T>)
    requires
        drawn@.len() == parts@.len(),
    ensures
        r@ == marked(parts@, drawn@),
{
    let ghost all = parts@;
    let mut rest = parts;
    let mut backwards: Vec<T> = Vec::new();
    while rest.len() > 0
        invariant
            rest@.len() + backwards@.len() == all.len(),
            forall|i: int| 0 <= i < rest@.len() ==> rest@[i] == all[i],
            forall|i: int|
                0 <= i < backwards@.len() ==> #[trigger] backwards@[i] == all[all.len() - 1 - i],
        decreases rest@.len(),
    {
        let last = rest.pop().unwrap();
        backwards.push(last);
    }
    let mut kept: Vec<T> = Vec::new();
    let mut i: usize = 0;
    assert(all.take(0) =~= Seq::<T>::empty());
    while backwards.len() > 0
        invariant
            i <= all.len(),
            i + backwards@.len() == all.len(),
            drawn@.len() == all.len(),
            forall|k: int|
                0 <= k < backwards@.len() ==> #[trigger] backwards@[k] == all[all.len() - 1 - k],
            kept@ == marked(all.take(i as int), drawn@),
        decreases backwards@.len(),
    {
        let part = backwards.pop().unwrap();
        proof {
            let t = all.take(i + 1);
            assert(t.drop_last() =~= all.take(i as int));
            assert(t.last() == part);
        }
        assert(i < drawn.len());
        if drawn[i] {
            kept.push(part);
        }
        i = i + 1;
    }
    assert(all.take(all.len() as int) =~= all);
    kept
}

/// A table that a folded result depends on: whether its results may be cached, and what tells its
/// state, where the engine says.
#[derive(Debug)]
pub struct DummySource {
    pub result_can_be_cached: bool,
    pub cache_id: Option<String>,
}

/// What a folded result adds to the state of the result cache.
#[derive(Debug)]
pub struct DummyCacheState {
    pub cacheable: bool,
    pub partition_shas: Vec<String>,
}

/// The state of a table can be told, and its results may be cached.
pub open spec fn is_cacheable_source(source: DummySource) -> bool {
    source.result_can_be_cached && source.cache_id is Some
}

/// The state of the result cache after these tables: it is told by those before the first that
/// cannot be cached.
pub open spec fn dummy_cache(sources: Seq<DummySource>) -> (bool, Seq<Seq<char>>)
    decreases sources.len(),
{
    if sources.len() == 0 {
        (true, Seq::empty())
    } else {
        let (cacheable, shas) = dummy_cache(sources.drop_last());
        if !cacheable {
            (false, shas)
        } else if is_cacheable_source(sources.last()) {
            (true, shas.push(sources.last().cache_id->Some_0@))
        } else {
            (false, shas)
        }
    }
}

proof fn lemma_dummy_cache_stays(sources: Seq<DummySource>, n: int)
    requires
        0 <= n <= sources.len(),
        !dummy_cache(sources.take(n)).0,
    ensures
        dummy_cache(sources) == dummy_cache(sources.take(n)),
    decreases sources.len(),
{
    if n == sources.len() {
        assert(sources.take(n) =~= sources);
    } else {
        assert(sources.drop_last().take(n) =~= sources.take(n));
        lemma_dummy_cache_stays(sources.drop_last(), n);
    }
}

/// What the scan of the table with one row, in place of tables whose result was folded, adds to the
/// state of the result cache.
pub fn dummy_scan_cache_state(enable_query_result_cache: bool, sources: &Vec<DummySource>) -> (r:
    DummyCacheState)
    ensures
        (r.cacheable, texts_view(r.partition_shas@)) == if enable_query_result_cache {
            dummy_cache(sources@)
        } else {
            (true, Seq::empty())
        },
{
    let mut partition_shas: Vec<String> = Vec::new();
    assert(texts_view(partition_shas@) =~= Seq::<Seq<char>>::empty());
    if !enable_query_result_cache {
        return DummyCacheState { cacheable: true, partition_shas };
    }
    let mut i: usize = 0;
    assert(sources@.take(0) =~= Seq::<DummySource>::empty());
    while i < sources.len()
        invariant
            i <= sources@.len(),
            enable_query_result_cache,
            dummy_cache(sources@.take(i as int)) == (true, texts_view(partition_shas@)),
        decreases sources@.len() - i,
    {
        let source = &sources[i];
        let ghost before = partition_shas@;
        proof {
            let t = sources@.take(i + 1);
            assert(t.drop_last() =~= sources@.take(i as int));
            assert(t.last() == *source);
        }
        if !source.result_can_be_cached || source.cache_id.is_none() {
            proof {
                assert(dummy_cache(sources@.take(i + 1)) == (false, texts_view(before)));
                lemma_dummy_cache_stays(sources@, i + 1);
            }
            return DummyCacheState { cacheable: false, partition_shas };
        }
        match &source.cache_id {
            Some(id) => {
                partition_shas.push(id.clone());
                assert(texts_view(partition_shas@) =~= texts_view(before).push(id@));
            },
            None => {},
        }
        i = i + 1;
    }
    assert(sources@.take(sources@.len() as int) =~= sources@);
    DummyCacheState { cacheable: true, partition_shas }
}

/// A result that was folded out of tables is cached only if the state of each of them can be told,
/// and then all of their states are part of its key.
pub proof fn law_cached_result_tells_every_source(sources: Seq<DummySource>)
    ensures
        dummy_cache(sources).0 <==> forall|i: int|
            0 <= i < sources.len() ==> (#[trigger] sources[i]).result_can_be_cached
                && sources[i].cache_id is Some,
        dummy_cache(sources).0 ==> dummy_cache(sources).1.len() == sources.len() && forall|i: int|
            0 <= i < sources.len() ==> Some(dummy_cache(sources).1[i]) == (
            match (#[trigger] sources[i]).cache_id {
                Some(id) => Some(id@),
                None => None,
            }),
    decreases sources.len(),
{
    if sources.len() > 0 {
        let before = sources.drop_last();
        law_cached_result_tells_every_source(before);
        if dummy_cache(sources).0 {
            assert forall|i: int| 0 <= i < sources.len() implies is_cacheable_source(
                #[trigger] sources[i],
            ) && Some(dummy_cache(sources).1[i]) == (match sources[i].cache_id {
                Some(id) => Some(id@),
                None => None,
            }) by {
                if i < sources.len() - 1 {
                    assert(before[i] == sources[i]);
                }
            }
        } else if dummy_cache(before).0 {
            assert(!is_cacheable_source(sources[sources.len() - 1]));
        } else {
            let i = choose|i: int|
                0 <= i < before.len() && !is_cacheable_source(#[trigger] before[i]);
            assert(!is_cacheable_source(sources[i]));
        }
    }
}

/// The scan of the table with one row.
pub fn build_dummy_table_scan(
    source: DataSourcePlan,
    dummy_table_index: usize,
    dummy_column: usize,
) -> (r: TableScan)
    ensures
        r.name@ == plan_name(source.source_info),
        r.scan_id == dummy_table_index,
        r.table_index == Some(dummy_table_index),
        r.source == source,
        r.internal_column is None,
        r.name_mapping@.len() == 1,
        r.name_mapping@[0].0@ == "dummy"@,
        r.name_mapping@[0].1@ == decimal(dummy_column as nat),
{
    let mut name_mapping: Vec<(String, String)> = Vec::new();
    name_mapping.push((String::from_str("dummy"), decimal_text(dummy_column as u64)));
    TableScan::create(dummy_table_index, name_mapping, source, Some(dummy_table_index), None)
}

} // verus!
