//! Building the indexes that a table defines.

use vstd::prelude::*;

use bytes::Bytes;

use crate::assoc::{insert_entry, keys_ascend, MapKey};
use crate::codec::bytes_from_vec;
use crate::error::BtreeIndexError;
use crate::filter::{field_index, index_of, lemma_field_index};
use crate::format::DEFAULT_BTREE_INDEX_DATA_BLOCK_SIZE;
use crate::key::{btree_equality_prefix, components_end, encode_btree_key_component, key_bytes};
use crate::ordered_index::{covers_all, is_ordered_covered_all_columns};
use crate::ordered_scan::keys_known;
use crate::scalar::{clone_scalar, lemma_scalars_view, scalar_view, scalars_view, Scalar,
    ScalarModel, TableField};
use crate::select::{PayloadBlock, PayloadModel};
use crate::table_meta::{covered_fields, covered_payload_fields, field_of_column_id, field_with_id,
    fields_with_ids, first_places, ids_of, key_columns_of, stored_fields, TableIndex,
    TableIndexColumn, TableIndexColumnOrder, TableIndexType, TableMeta};
use crate::table_scan::mapping_view;
use crate::text::{append_text, find_property, join_texts, joined_text, property, text_lt,
    texts_view};
use crate::types::{properties_ascend, properties_view, rows_view, BtreeIndexKeyOrder,
    BtreeIndexMeta, CommonCompression, RowModel, SingleColumnMeta};
use crate::view::{names_codec, opt_bytes};
use crate::writer::{strings_view, BtreeIndexWriter};

verus! {

/// The option of an index that names the compression of its files.
pub const BTREE_INDEX_OPTION_COMPRESSION: &'static str = "compression";

/// The compression of an index that names none.
pub const DEFAULT_BTREE_INDEX_COMPRESSION: &'static str = "zstd";

/// The encoding that an index file names.
pub const BTREE_INDEX_ENCODING: &'static str = "databend-btree-sst-v1";

/// An index that is built with each block of a table.
#[derive(Debug)]
pub struct BtreeIndexBuilder {
    pub name: String,
    pub version: String,
    pub key_fields: Vec<(TableField, TableIndexColumnOrder)>,
    pub payload_fields: Vec<TableField>,
    pub options: Vec<(String, String)>,
}

/// The model of an index that is built.
pub struct BuilderModel {
    pub name: Seq<char>,
    pub version: Seq<char>,
    pub key_fields: Seq<(TableField, TableIndexColumnOrder)>,
    pub payload_fields: Seq<TableField>,
    pub options: Seq<(Seq<char>, Seq<char>)>,
}

impl View for BtreeIndexBuilder {
    type V = BuilderModel;

    open spec fn view(&self) -> BuilderModel {
        BuilderModel {
            name: self.name@,
            version: self.version@,
            key_fields: self.key_fields@,
            payload_fields: self.payload_fields@,
            options: properties_view(self.options@),
        }
    }
}

/// The models of indexes that are built.
pub open spec fn builders_view(builders: Seq<BtreeIndexBuilder>) -> Seq<BuilderModel> {
    Seq::new(builders.len(), |i: int| builders[i]@)
}

/// The fields of key columns, with their directions.
pub open spec fn key_fields_of(
    schema: Seq<TableField>,
    key_columns: Seq<TableIndexColumn>,
) -> Seq<(TableField, TableIndexColumnOrder)> {
    Seq::new(
        key_columns.len(),
        |i: int|
            (
                field_with_id(schema, key_columns[i].column_id)->Some_0,
                key_columns[i].order,
            ),
    )
}

/// What is built for an index of a table: nothing where the index is of another type, is not built
/// with each block, or is over a column that the table does not have.
pub open spec fn builder_of(schema: Seq<TableField>, index: TableIndex) -> Option<BuilderModel> {
    let key_columns = key_columns_of(index);
    let payload = covered_fields(
        schema,
        ids_of(key_columns),
        index.include_column_ids@,
        covers_all(index.options@),
    );
    if index.index_type is Btree && index.sync_creation && keys_known(schema, key_columns)
        && payload is Some {
        Some(
            BuilderModel {
                name: index.name@,
                version: index.version@,
                key_fields: key_fields_of(schema, key_columns),
                payload_fields: payload->Some_0,
                options: properties_view(index.options@),
            },
        )
    } else {
        None
    }
}

/// What is built for the indexes of a table.
pub open spec fn builders_of(schema: Seq<TableField>, indexes: Seq<TableIndex>) -> Seq<BuilderModel>
    decreases indexes.len(),
{
    if indexes.len() == 0 {
        Seq::empty()
    } else {
        let before = builders_of(schema, indexes.drop_last());
        match builder_of(schema, indexes.last()) {
            Some(builder) => before.push(builder),
            None => before,
        }
    }
}

/// Whether the rows of an index with these options hold every column.
pub fn is_covered_all_columns(options: &Vec<(String, String)>) -> (r: bool)
    ensures
        r == covers_all(options@),
{
    is_ordered_covered_all_columns(options)
}

fn key_fields_for(schema: &Vec<TableField>, key_columns: &Vec<TableIndexColumn>) -> (r: Option<
    Vec<(TableField, TableIndexColumnOrder)>,
>)
    ensures
        match r {
            Some(fields) => keys_known(schema@, key_columns@) && fields@ == key_fields_of(
                schema@,
                key_columns@,
            ),
            None => !keys_known(schema@, key_columns@),
        },
{
    let mut fields: Vec<(TableField, TableIndexColumnOrder)> = Vec::new();
    let mut i: usize = 0;
    while i < key_columns.len()
        invariant
            i <= key_columns@.len(),
            fields@ == key_fields_of(schema@, key_columns@).take(i as int),
            forall|k: int|
                0 <= k < i ==> field_with_id(schema@, (#[trigger] key_columns@[k]).column_id)
                    is Some,
        decreases key_columns@.len() - i,
    {
        match field_of_column_id(schema, key_columns[i].column_id) {
            Some(field) => {
                fields.push((field.clone(), key_columns[i].order));
                assert(fields@ =~= key_fields_of(schema@, key_columns@).take(i + 1));
            },
            None => {
                assert(field_with_id(schema@, (key_columns@[i as int]).column_id) is None);
                return None;
            },
        }
        i = i + 1;
    }
    assert(fields@ =~= key_fields_of(schema@, key_columns@));
    Some(fields)
}

fn copy_options(options: &Vec<(String, String)>) -> (r: Vec<(String, String)>)
    ensures
        properties_view(r@) == properties_view(options@),
{
    let mut r: Vec<(String, String)> = Vec::new();
    let mut i: usize = 0;
    while i < options.len()
        invariant
            i <= options@.len(),
            r@.len() == i,
            forall|k: int|
                0 <= k < i ==> (#[trigger] r@[k]).0@ == options@[k].0@ && r@[k].1@
                    == options@[k].1@,
        decreases options@.len() - i,
    {
        r.push((options[i].0.clone(), options[i].1.clone()));
        i = i + 1;
    }
    assert(properties_view(r@) =~= properties_view(options@));
    r
}

fn builder_for(schema: &Vec<TableField>, index: &TableIndex) -> (r: Option<BtreeIndexBuilder>)
    ensures
        match r {
            Some(builder) => builder_of(schema@, *index) == Some(builder@),
            None => builder_of(schema@, *index) is None,
        },
{
    match index.index_type {
        TableIndexType::Btree => {},
        _ => {
            return None;
        },
    }
    if !index.sync_creation {
        return None;
    }
    let key_columns = index.effective_key_columns();
    let key_fields = match key_fields_for(schema, &key_columns) {
        Some(fields) => fields,
        None => {
            return None;
        },
    };
    match covered_payload_fields(
        schema,
        &key_columns,
        &index.include_column_ids,
        is_covered_all_columns(&index.options),
    ) {
        None => None,
        Some(payload_fields) => Some(
            BtreeIndexBuilder {
                name: index.name.clone(),
                version: index.version.clone(),
                key_fields,
                payload_fields,
                options: copy_options(&index.options),
            },
        ),
    }
}

/// What is built for the indexes of a table.
pub fn create_btree_index_builders(table_meta: &TableMeta) -> (r: Vec<BtreeIndexBuilder>)
    ensures
        builders_view(r@) == builders_of(table_meta.schema@, table_meta.indexes@),
{
    let mut builders: Vec<BtreeIndexBuilder> = Vec::new();
    let ghost indexes = table_meta.indexes@;
    let mut i: usize = 0;
    assert(indexes.take(0) =~= Seq::<TableIndex>::empty());
    assert(builders_view(builders@) =~= Seq::<BuilderModel>::empty());
    while i < table_meta.indexes.len()
        invariant
            i <= indexes.len(),
            indexes == table_meta.indexes@,
            builders_view(builders@) == builders_of(table_meta.schema@, indexes.take(i as int)),
        decreases indexes.len() - i,
    {
        let ghost before = builders@;
        proof {
            let t = indexes.take(i + 1);
            assert(t.drop_last() =~= indexes.take(i as int));
            assert(t.last() == indexes[i as int]);
        }
        match builder_for(&table_meta.schema, &table_meta.indexes[i]) {
            Some(builder) => {
                let ghost model = builder@;
                builders.push(builder);
                assert(builders_view(builders@) =~= builders_view(before).push(model));
            },
            None => {},
        }
        i = i + 1;
    }
    assert(indexes.take(indexes.len() as int) =~= indexes);
    builders
}

/// The rows of a built index hold the values of its key; where they hold every stored column, those
/// that are stored.
pub proof fn law_payload_holds_keys(schema: Seq<TableField>, index: TableIndex, i: int)
    requires
        builder_of(schema, index) is Some,
        0 <= i < key_columns_of(index).len(),
        covers_all(index.options@) ==> !builder_of(
            schema,
            index,
        )->Some_0.key_fields[i].0.virtual_computed,
    ensures
        builder_of(schema, index)->Some_0.payload_fields.contains(
            builder_of(schema, index)->Some_0.key_fields[i].0,
        ),
{
    if covers_all(index.options@) {
        let id = key_columns_of(index)[i].column_id;
        let k = lemma_field_with_id(schema, id);
        let stored = |field: TableField| !field.virtual_computed;
        schema.lemma_filter_contains(stored, k);
        assert(stored_fields(schema) == schema.filter(stored));
    } else {
        lemma_listed_payload_holds_keys(schema, index, i);
    }
}

proof fn lemma_listed_payload_holds_keys(schema: Seq<TableField>, index: TableIndex, i: int)
    requires
        builder_of(schema, index) is Some,
        !covers_all(index.options@),
        0 <= i < key_columns_of(index).len(),
    ensures
        builder_of(schema, index)->Some_0.payload_fields.contains(
            builder_of(schema, index)->Some_0.key_fields[i].0,
        ),
{
    let ids = ids_of(key_columns_of(index));
    let all = ids + index.include_column_ids@;
    assert(all[i] == key_columns_of(index)[i].column_id);
    lemma_first_places_hold(all, i);
    let distinct = first_places(all);
    let k = choose|k: int| 0 <= k < distinct.len() && distinct[k] == all[i];
    lemma_fields_with_ids_at(schema, distinct, k);
    let payload = fields_with_ids(schema, distinct)->Some_0;
    assert(payload[k] == field_with_id(schema, all[i])->Some_0);
}

/// A field that is found by its id stands among the fields.
pub proof fn lemma_field_with_id(fields: Seq<TableField>, column_id: u32) -> (k: int)
    requires
        field_with_id(fields, column_id) is Some,
    ensures
        0 <= k < fields.len(),
        field_with_id(fields, column_id) == Some(fields[k]),
    decreases fields.len(),
{
    if fields[0].column_id == column_id {
        0
    } else {
        let k = lemma_field_with_id(fields.skip(1), column_id);
        k + 1
    }
}

/// Each number has its first place.
pub proof fn lemma_first_places_hold(ids: Seq<u32>, i: int)
    requires
        0 <= i < ids.len(),
    ensures
        first_places(ids).contains(ids[i]),
    decreases ids.len(),
{
    let before = first_places(ids.drop_last());
    let now = first_places(ids);
    if i < ids.len() - 1 {
        lemma_first_places_hold(ids.drop_last(), i);
        let k = choose|k: int| 0 <= k < before.len() && before[k] == ids[i];
        assert(now[k] == ids[i]);
    } else if !before.contains(ids.last()) {
        assert(now[before.len() as int] == ids[i]);
    }
}

/// Fields that are found by their ids stand in the order of the ids.
pub proof fn lemma_fields_with_ids_at(schema: Seq<TableField>, ids: Seq<u32>, k: int)
    requires
        fields_with_ids(schema, ids) is Some,
        0 <= k < ids.len(),
    ensures
        fields_with_ids(schema, ids)->Some_0.len() == ids.len(),
        field_with_id(schema, ids[k]) == Some(
            fields_with_ids(schema, ids)->Some_0[k],
        ),
    decreases ids.len(),
{
    if k < ids.len() - 1 {
        lemma_fields_with_ids_at(schema, ids.drop_last(), k);
        assert(ids.drop_last()[k] == ids[k]);
    } else if ids.len() > 1 {
        lemma_fields_with_ids_at(schema, ids.drop_last(), 0);
    } else {
        assert(ids.drop_last() =~= Seq::<u32>::empty());
    }
}

/// A built index and where it goes.
#[derive(Debug)]
pub struct BtreeIndexState {
    pub data: Vec<u8>,
    pub size: u64,
    pub location: (String, u64),
}

impl BtreeIndexState {
    /// A built index that goes to a location.
    pub fn try_create(data: Vec<u8>, location: String) -> (r: BtreeIndexState)
        ensures
            r.data == data,
            r.size == data@.len(),
            r.location.0 == location,
            r.location.1 == 0,
    {
        let size: u64 = data.len() as u64;
        BtreeIndexState { data, size, location: (location, 0) }
    }
}

/// The direction of a key component.
pub open spec fn component_order(order: TableIndexColumnOrder) -> BtreeIndexKeyOrder {
    match order {
        TableIndexColumnOrder::Asc => BtreeIndexKeyOrder::Asc,
        TableIndexColumnOrder::Desc => BtreeIndexKeyOrder::Desc,
    }
}

/// The direction of a key component.
pub fn to_btree_key_order(order: TableIndexColumnOrder) -> (r: BtreeIndexKeyOrder)
    ensures
        r == component_order(order),
{
    match order {
        TableIndexColumnOrder::Asc => BtreeIndexKeyOrder::Asc,
        TableIndexColumnOrder::Desc => BtreeIndexKeyOrder::Desc,
    }
}

/// The names of fields.
pub open spec fn names_of(fields: Seq<TableField>) -> Seq<Seq<char>> {
    Seq::new(fields.len(), |i: int| fields[i].name@)
}

/// The names of key fields.
pub open spec fn key_names_of(fields: Seq<(TableField, TableIndexColumnOrder)>) -> Seq<Seq<char>> {
    Seq::new(fields.len(), |i: int| fields[i].0.name@)
}

/// The places of names in a schema; the first name that is not there is the error.
pub open spec fn field_places(schema: Seq<TableField>, names: Seq<Seq<char>>) -> Result<
    Seq<usize>,
    usize,
>
    decreases names.len(),
{
    if names.len() == 0 {
        Ok(Seq::empty())
    } else {
        match field_places(schema, names.drop_last()) {
            Err(missing) => Err(missing),
            Ok(before) => match field_index(schema, names.last()) {
                None => Err((names.len() - 1) as usize),
                Some(place) => Ok(before.push(place as usize)),
            },
        }
    }
}

/// Places that are found are places in the schema.
pub proof fn lemma_field_places(schema: Seq<TableField>, names: Seq<Seq<char>>)
    requires
        schema.len() <= usize::MAX,
    ensures
        field_places(schema, names) matches Ok(places) ==> places.len() == names.len() && forall|
            i: int,
        | 0 <= i < places.len() ==> (#[trigger] places[i]) < schema.len(),
    decreases names.len(),
{
    if names.len() > 0 {
        lemma_field_places(schema, names.drop_last());
        lemma_field_index(schema, names.last());
    }
}

proof fn lemma_field_places_fail(schema: Seq<TableField>, names: Seq<Seq<char>>, n: int)
    requires
        0 <= n <= names.len(),
        field_places(schema, names.take(n)) is Err,
    ensures
        field_places(schema, names) == field_places(schema, names.take(n)),
    decreases names.len(),
{
    if n == names.len() {
        assert(names.take(n) =~= names);
    } else {
        assert(names.drop_last().take(n) =~= names.take(n));
        lemma_field_places_fail(schema, names.drop_last(), n);
    }
}

/// The places of fields in a schema.
pub fn field_indexes(schema: &Vec<TableField>, fields: &Vec<TableField>) -> (r: Result<
    Vec<usize>,
    usize,
>)
    ensures
        match r {
            Ok(places) => field_places(schema@, names_of(fields@)) == Ok::<_, usize>(places@),
            Err(missing) => field_places(schema@, names_of(fields@)) == Err::<Seq<usize>, _>(
                missing,
            ),
        },
{
    let ghost names = names_of(fields@);
    let mut places: Vec<usize> = Vec::new();
    let mut i: usize = 0;
    assert(names.take(0) =~= Seq::<Seq<char>>::empty());
    while i < fields.len()
        invariant
            i <= fields@.len(),
            names == names_of(fields@),
            field_places(schema@, names.take(i as int)) == Ok::<_, usize>(places@),
        decreases fields@.len() - i,
    {
        proof {
            let t = names.take(i + 1);
            assert(t.drop_last() =~= names.take(i as int));
            assert(t.last() == fields@[i as int].name@);
        }
        match index_of(schema, fields[i].name.as_str()) {
            None => {
                proof {
                    lemma_field_places_fail(schema@, names, i + 1);
                }
                return Err(i);
            },
            Some(place) => {
                places.push(place);
            },
        }
        i = i + 1;
    }
    assert(names.take(names.len() as int) =~= names);
    Ok(places)
}

/// The places of key fields in a schema, with their directions.
pub fn key_field_indexes(
    schema: &Vec<TableField>,
    fields: &Vec<(TableField, TableIndexColumnOrder)>,
) -> (r: Result<Vec<(usize, BtreeIndexKeyOrder)>, usize>)
    ensures
        match r {
            Ok(keys) => field_places(schema@, key_names_of(fields@)) is Ok && keys@
                == key_places_of(schema@, fields@),
            Err(missing) => field_places(schema@, key_names_of(fields@)) == Err::<Seq<usize>, _>(
                missing,
            ),
        },
{
    let ghost names = key_names_of(fields@);
    let mut keys: Vec<(usize, BtreeIndexKeyOrder)> = Vec::new();
    let mut i: usize = 0;
    assert(names.take(0) =~= Seq::<Seq<char>>::empty());
    while i < fields.len()
        invariant
            i <= fields@.len(),
            names == key_names_of(fields@),
            field_places(schema@, names.take(i as int)) is Ok,
            field_places(schema@, names.take(i as int))->Ok_0.len() == i,
            keys@.len() == i,
            forall|k: int|
                0 <= k < i ==> #[trigger] keys@[k] == (
                    field_places(schema@, names.take(i as int))->Ok_0[k],
                    component_order(fields@[k].1),
                ),
        decreases fields@.len() - i,
    {
        proof {
            let t = names.take(i + 1);
            assert(t.drop_last() =~= names.take(i as int));
            assert(t.last() == fields@[i as int].0.name@);
        }
        match index_of(schema, fields[i].0.name.as_str()) {
            None => {
                proof {
                    lemma_field_places_fail(schema@, names, i + 1);
                }
                return Err(i);
            },
            Some(place) => {
                keys.push((place, to_btree_key_order(fields[i].1)));
            },
        }
        i = i + 1;
    }
    assert(names.take(names.len() as int) =~= names);
    assert(keys@ =~= key_places_of(schema@, fields@));
    Ok(keys)
}

/// The places of key fields in a schema, with their directions.
pub open spec fn key_places_of(
    schema: Seq<TableField>,
    fields: Seq<(TableField, TableIndexColumnOrder)>,
) -> Seq<(usize, BtreeIndexKeyOrder)> {
    Seq::new(
        fields.len(),
        |i: int|
            (
                field_places(schema, key_names_of(fields))->Ok_0[i],
                component_order(fields[i].1),
            ),
    )
}

/// The values of the key of a row.
pub open spec fn key_values(
    block: PayloadModel,
    keys: Seq<(usize, BtreeIndexKeyOrder)>,
    row: int,
) -> Seq<(ScalarModel, BtreeIndexKeyOrder)> {
    Seq::new(keys.len(), |i: int| (block.1[keys[i].0 as int][row], keys[i].1))
}

/// The values of the payload of a row.
pub open spec fn payload_values(block: PayloadModel, places: Seq<usize>, row: int) -> Seq<
    ScalarModel,
> {
    Seq::new(places.len(), |i: int| block.1[places[i] as int][row])
}

/// The first `n` components of a key.
pub open spec fn key_head(key: Seq<u8>, n: nat) -> Seq<u8> {
    key.subrange(0, components_end(key, n)->Ok_0)
}

/// The equality prefixes of a key with `count` components.
pub open spec fn key_heads(key: Seq<u8>, count: nat) -> Seq<Seq<u8>> {
    Seq::new(count, |i: int| key_head(key, (i + 1) as nat))
}

/// The equality prefixes of the first rows of a block.
pub open spec fn heads_of_rows(
    block: PayloadModel,
    keys: Seq<(usize, BtreeIndexKeyOrder)>,
    rows: nat,
) -> Seq<Seq<u8>>
    decreases rows,
{
    if rows == 0 {
        Seq::empty()
    } else {
        heads_of_rows(block, keys, (rows - 1) as nat) + key_heads(
            key_bytes(key_values(block, keys, rows - 1)),
            keys.len(),
        )
    }
}

/// Asked to encode a payload, the host may answer so.
pub open spec fn encodes_payload<E: Fn(&Vec<Scalar>) -> Option<Vec<u8>>>(
    encode: E,
    values: Seq<ScalarModel>,
    answer: Option<Seq<u8>>,
) -> bool {
    exists|v: &Vec<Scalar>, a: Option<Vec<u8>>|
        scalars_view(v@) == values && opt_bytes(a) == answer && #[trigger] call_ensures(
            encode,
            (v,),
            a,
        )
}

/// What the footer of an index says of the order of its keys.
pub open spec fn key_order_text(fields: Seq<(TableField, TableIndexColumnOrder)>) -> Seq<char> {
    joined_text(
        Seq::new(fields.len(), |i: int| fields[i].0.name@ + direction_text(fields[i].1)),
        ","@,
    )
}

/// What stands behind the name of a key column.
pub open spec fn direction_text(order: TableIndexColumnOrder) -> Seq<char> {
    match order {
        TableIndexColumnOrder::Asc => " ASC"@,
        TableIndexColumnOrder::Desc => " DESC"@,
    }
}

/// The name of the compression of an index.
pub open spec fn compression_of(options: Seq<(String, String)>) -> Seq<char> {
    match property(options, BTREE_INDEX_OPTION_COMPRESSION@) {
        Some(name) => name,
        None => DEFAULT_BTREE_INDEX_COMPRESSION@,
    }
}

/// What an index file says of itself: its columns, and the name, the version and the encoding of
/// the index.
pub open spec fn is_index_meta(
    meta: BtreeIndexMeta,
    builder: BtreeIndexBuilder,
    num_rows: usize,
) -> bool {
    &&& meta.wf()
    &&& meta.columns@.len() == builder.payload_fields@.len()
    &&& forall|i: int|
        0 <= i < meta.columns@.len() ==> (#[trigger] meta.columns@[i]).0@
            == builder.payload_fields@[i].name@ && meta.columns@[i].1.offset == 0
            && meta.columns@[i].1.len == 0 && meta.columns@[i].1.num_values == num_rows
    &&& mapping_view(meta.metadata@) == Map::<Seq<char>, Seq<char>>::empty().insert(
        "index_name"@,
        builder.name@,
    ).insert("index_version"@, builder.version@).insert("encoding"@, BTREE_INDEX_ENCODING@)
}

/// A writer holds the index of a block: for each row its key, its payload, and all prefixes of its
/// key.
pub open spec fn is_index_writer<E: Fn(&Vec<Scalar>) -> Option<Vec<u8>>>(
    writer: BtreeIndexWriter,
    source_schema: Seq<TableField>,
    block: PayloadBlock,
    builder: BtreeIndexBuilder,
    schema: Seq<char>,
    encode: E,
) -> bool {
    let keys = key_places_of(source_schema, builder.key_fields@);
    let places = field_places(source_schema, names_of(builder.payload_fields@))->Ok_0;
    &&& writer.schema@ == schema
    &&& writer.key_order@ == key_order_text(builder.key_fields@)
    &&& writer.compression@ == compression_of(builder.options@)
    &&& writer.data_block_size == DEFAULT_BTREE_INDEX_DATA_BLOCK_SIZE
    &&& is_index_meta(writer.meta, builder, block.num_rows)
    &&& rows_view(writer.rows@).len() == block.num_rows
    &&& forall|i: int|
        0 <= i < block.num_rows ==> #[trigger] is_index_row(
            rows_view(writer.rows@)[i],
            block@,
            keys,
            places,
            i,
            encode,
        )
    &&& strings_view(writer.equality_prefixes@) == heads_of_rows(
        block@,
        keys,
        block.num_rows as nat,
    )
}

/// A row of an index is that of a row of a block.
pub open spec fn is_index_row<E: Fn(&Vec<Scalar>) -> Option<Vec<u8>>>(
    row: RowModel,
    block: PayloadModel,
    keys: Seq<(usize, BtreeIndexKeyOrder)>,
    places: Seq<usize>,
    i: int,
    encode: E,
) -> bool {
    &&& row.0 == key_bytes(key_values(block, keys, i))
    &&& encodes_payload(encode, payload_values(block, places, i), Some(row.1))
}

/// A block has a column for each field of its schema, and a value for each row in each of them.
pub open spec fn block_fits(block: PayloadBlock, schema: Seq<TableField>) -> bool {
    &&& block.columns@.len() == schema.len()
    &&& forall|i: int|
        0 <= i < block.columns@.len() ==> (#[trigger] block.columns@[i])@.len() == block.num_rows
}

/// An error of building an index.
#[derive(Clone, Copy, Debug, PartialEq, Eq, Structural)]
pub enum BtreeBuildError {
    /// The compression that the index names is not known.
    UnknownCompression,
    /// A key field is not in the block, by its place among them.
    UnknownKeyField { field: usize },
    /// A field of the payload is not in the block, by its place among them.
    UnknownPayloadField { field: usize },
    /// A prefix of the key of a row could not be found in it.
    KeyPrefix { row: usize, error: BtreeIndexError },
    /// The payload of a row could not be encoded.
    EncodePayload { row: usize },
    /// The file could not be written.
    Write { error: BtreeIndexError },
}

/// The host knows the compression that an index names.
pub open spec fn codec_known<P: Fn(&str) -> Option<CommonCompression>>(
    parse: P,
    name: Seq<char>,
) -> bool {
    exists|codec: CommonCompression| #[trigger] names_codec(parse, name, Some(codec))
}

/// Every prefix of the key of a row is found in it.
pub open spec fn prefixes_found(key: Seq<u8>, count: nat) -> bool {
    forall|n: nat| 1 <= n <= count ==> #[trigger] components_end(key, n) is Ok
}

/// The host encodes the payload.
pub open spec fn payload_accepted<E: Fn(&Vec<Scalar>) -> Option<Vec<u8>>>(
    encode: E,
    values: Seq<ScalarModel>,
) -> bool {
    exists|bytes: Seq<u8>| #[trigger] encodes_payload(encode, values, Some(bytes))
}

/// The prefixes of the keys of the first rows are found, and the host encodes their payloads.
pub open spec fn rows_accepted<E: Fn(&Vec<Scalar>) -> Option<Vec<u8>>>(
    encode: E,
    block: PayloadModel,
    keys: Seq<(usize, BtreeIndexKeyOrder)>,
    places: Seq<usize>,
    rows: int,
) -> bool {
    forall|i: int|
        0 <= i < rows ==> prefixes_found(key_bytes(#[trigger] key_values(block, keys, i)), keys.len())
            && payload_accepted(encode, payload_values(block, places, i))
}

/// A prefix of the key of a row cannot be found in it.
pub open spec fn prefix_fails(key: Seq<u8>, count: nat, error: BtreeIndexError) -> bool {
    exists|n: nat| 1 <= n <= count && #[trigger] components_end(key, n) == Err::<int, _>(error)
}

/// The file of a block's index may be this, or fail so.
pub open spec fn index_written<
    E: Fn(&Vec<Scalar>) -> Option<Vec<u8>>,
    P: Fn(&str) -> Option<CommonCompression>,
    C: Fn(CommonCompression, &[u8]) -> Option<Vec<u8>>,
    B: Fn(&Vec<Vec<u8>>, u64, u64) -> Option<Vec<u8>>,
>(
    source_schema: Seq<TableField>,
    block: PayloadBlock,
    builder: BtreeIndexBuilder,
    schema: Seq<char>,
    encode: E,
    parse: P,
    compress: C,
    build_filter: B,
    r: Result<Bytes, BtreeIndexError>,
) -> bool {
    exists|writer: BtreeIndexWriter| #[trigger]
        is_index_writer(writer, source_schema, block, builder, schema, encode) && writer.finishes(
            parse,
            compress,
            build_filter,
            r,
        )
}

fn index_key_order(fields: &Vec<(TableField, TableIndexColumnOrder)>) -> (r: String)
    ensures
        r@ == key_order_text(fields@),
{
    let mut parts: Vec<String> = Vec::new();
    let mut i: usize = 0;
    while i < fields.len()
        invariant
            i <= fields@.len(),
            parts@.len() == i,
            forall|k: int|
                0 <= k < i ==> (#[trigger] parts@[k])@ == fields@[k].0.name@ + direction_text(
                    fields@[k].1,
                ),
        decreases fields@.len() - i,
    {
        let mut part = fields[i].0.name.clone();
        match fields[i].1 {
            TableIndexColumnOrder::Asc => {
                append_text(&mut part, " ASC");
            },
            TableIndexColumnOrder::Desc => {
                append_text(&mut part, " DESC");
            },
        }
        parts.push(part);
        i = i + 1;
    }
    assert(texts_view(parts@) =~= Seq::new(
        fields@.len(),
        |i: int| fields@[i].0.name@ + direction_text(fields@[i].1),
    ));
    join_texts(&parts, ",")
}

fn put_property(entries: &mut Vec<(String, String)>, name: &str, value: &str)
    requires
        keys_ascend(old(entries)@),
    ensures
        keys_ascend(final(entries)@),
        mapping_view(final(entries)@) == mapping_view(old(entries)@).insert(name@, value@),
{
    let ghost before = mapping_view(entries@);
    insert_entry(entries, String::from_str(name), String::from_str(value));
    assert(mapping_view(entries@) =~= before.insert(name@, value@));
}

fn index_meta(builder: &BtreeIndexBuilder, num_rows: usize) -> (r: BtreeIndexMeta)
    ensures
        is_index_meta(r, *builder, num_rows),
{
    let mut columns: Vec<(String, SingleColumnMeta)> = Vec::new();
    let mut i: usize = 0;
    while i < builder.payload_fields.len()
        invariant
            i <= builder.payload_fields@.len(),
            columns@.len() == i,
            forall|k: int|
                0 <= k < i ==> (#[trigger] columns@[k]).0@ == builder.payload_fields@[k].name@
                    && columns@[k].1.offset == 0 && columns@[k].1.len == 0
                    && columns@[k].1.num_values == num_rows,
        decreases builder.payload_fields@.len() - i,
    {
        let column = SingleColumnMeta { offset: 0, len: 0, num_values: num_rows as u64 };
        columns.push((builder.payload_fields[i].name.clone(), column));
        i = i + 1;
    }
    let mut metadata: Vec<(String, String)> = Vec::new();
    assert(mapping_view(metadata@) =~= Map::<Seq<char>, Seq<char>>::empty());
    put_property(&mut metadata, "index_name", builder.name.as_str());
    put_property(&mut metadata, "index_version", builder.version.as_str());
    put_property(&mut metadata, "encoding", BTREE_INDEX_ENCODING);
    let meta = BtreeIndexMeta { columns, metadata };
    proof {
        let entries = meta.metadata@;
        assert(properties_ascend(properties_view(entries))) by {
            assert forall|i: int, j: int| 0 <= i < j < entries.len() implies text_lt(
                (#[trigger] properties_view(entries)[i]).0,
                (#[trigger] properties_view(entries)[j]).0,
            ) by {
                assert(String::below(
                    entries[i].0.model(),
                    entries[j].0.model(),
                ));
            }
        }
    }
    meta
}

proof fn lemma_cell(block: PayloadBlock, column: int, row: int)
    requires
        0 <= column < block.columns@.len(),
        0 <= row < block.columns@[column]@.len(),
    ensures
        block@.1[column][row] == block.columns@[column]@[row]@,
{
    lemma_scalars_view(block.columns@[column]@);
}

fn row_key(block: &PayloadBlock, keys: &Vec<(usize, BtreeIndexKeyOrder)>, row: usize) -> (r: Vec<u8>)
    requires
        forall|i: int|
            0 <= i < keys@.len() ==> (#[trigger] keys@[i]).0 < block.columns@.len() && row
                < block.columns@[keys@[i].0 as int]@.len(),
    ensures
        r@ == key_bytes(key_values(block@, keys@, row as int)),
{
    let ghost values = key_values(block@, keys@, row as int);
    let mut key: Vec<u8> = Vec::new();
    let mut i: usize = 0;
    assert(values.take(0) =~= Seq::<(ScalarModel, BtreeIndexKeyOrder)>::empty());
    while i < keys.len()
        invariant
            i <= keys@.len(),
            values == key_values(block@, keys@, row as int),
            forall|i: int|
                0 <= i < keys@.len() ==> (#[trigger] keys@[i]).0 < block.columns@.len() && row
                    < block.columns@[keys@[i].0 as int]@.len(),
            key@ == key_bytes(values.take(i as int)),
        decreases keys@.len() - i,
    {
        let (column, order) = keys[i];
        proof {
            assert(keys@[i as int].0 < block.columns@.len());
            lemma_cell(*block, column as int, row as int);
            let t = values.take(i + 1);
            assert(t.drop_last() =~= values.take(i as int));
            assert(t.last() == values[i as int]);
        }
        let encoded = encode_btree_key_component(&mut key, &block.columns[column][row], order);
        i = i + 1;
    }
    assert(values.take(values.len() as int) =~= values);
    key
}

fn row_payload(block: &PayloadBlock, places: &Vec<usize>, row: usize) -> (r: Vec<Scalar>)
    requires
        forall|i: int|
            0 <= i < places@.len() ==> (#[trigger] places@[i]) < block.columns@.len() && row
                < block.columns@[places@[i] as int]@.len(),
    ensures
        scalars_view(r@) == payload_values(block@, places@, row as int),
{
    let mut payload: Vec<Scalar> = Vec::new();
    let mut i: usize = 0;
    while i < places.len()
        invariant
            i <= places@.len(),
            forall|i: int|
                0 <= i < places@.len() ==> (#[trigger] places@[i]) < block.columns@.len() && row
                    < block.columns@[places@[i] as int]@.len(),
            payload@.len() == i,
            forall|k: int|
                0 <= k < i ==> scalar_view(#[trigger] payload@[k]) == payload_values(
                    block@,
                    places@,
                    row as int,
                )[k],
        decreases places@.len() - i,
    {
        let column: usize = places[i];
        proof {
            assert(places@[i as int] < block.columns@.len());
            lemma_cell(*block, column as int, row as int);
        }
        payload.push(clone_scalar(&block.columns[column][row]));
        i = i + 1;
    }
    proof {
        lemma_scalars_view(payload@);
        assert(scalars_view(payload@) =~= payload_values(block@, places@, row as int));
    }
    payload
}

fn add_prefixes(writer: &mut BtreeIndexWriter, key: &Vec<u8>, count: usize) -> (r: Result<
    (),
    BtreeIndexError,
>)
    ensures
        match r {
            Ok(_) => prefixes_found(key@, count as nat) && strings_view(
                final(writer).equality_prefixes@,
            ) == strings_view(old(writer).equality_prefixes@) + key_heads(key@, count as nat),
            Err(e) => prefix_fails(key@, count as nat, e),
        },
        *final(writer) == (BtreeIndexWriter {
            equality_prefixes: final(writer).equality_prefixes,
            ..*old(writer)
        }),
{
    let ghost given = *writer;
    let ghost before = strings_view(writer.equality_prefixes@);
    let ghost heads = key_heads(key@, count as nat);
    let mut i: usize = 0;
    assert(before + heads.take(0) =~= before);
    while i < count
        invariant
            i <= count,
            given == *old(writer),
            heads == key_heads(key@, count as nat),
            *writer == (BtreeIndexWriter { equality_prefixes: writer.equality_prefixes, ..given }),
            strings_view(writer.equality_prefixes@) == before + heads.take(i as int),
            prefixes_found(key@, i as nat),
        decreases count - i,
    {
        match btree_equality_prefix(key.as_slice(), i + 1) {
            Ok(prefix) => {
                assert(prefix@ == heads[i as int]);
                writer.add_equality_prefix(bytes_from_vec(prefix));
                assert((before + heads.take(i as int)).push(heads[i as int]) =~= before
                    + heads.take(i + 1));
            },
            Err(e) => {
                assert(components_end(key@, (i + 1) as nat) == Err::<int, _>(e));
                return Err(e);
            },
        }
        i = i + 1;
    }
    assert(heads.take(heads.len() as int) =~= heads);
    Ok(())
}

/// The index of a block is built, or fails so: the compression and the fields are looked for first,
/// then each row is added, and then the file is written.
pub open spec fn index_built<
    E: Fn(&Vec<Scalar>) -> Option<Vec<u8>>,
    P: Fn(&str) -> Option<CommonCompression>,
    C: Fn(CommonCompression, &[u8]) -> Option<Vec<u8>>,
    B: Fn(&Vec<Vec<u8>>, u64, u64) -> Option<Vec<u8>>,
>(
    source_schema: Seq<TableField>,
    block: PayloadBlock,
    builder: BtreeIndexBuilder,
    schema: Seq<char>,
    encode: E,
    parse: P,
    compress: C,
    build_filter: B,
    r: Result<Bytes, BtreeBuildError>,
) -> bool {
    let keys = key_places_of(source_schema, builder.key_fields@);
    let key_fields = field_places(
        source_schema,
        key_names_of(builder.key_fields@),
    );
    let payload_fields = field_places(
        source_schema,
        names_of(builder.payload_fields@),
    );
    let known = codec_known(parse, compression_of(builder.options@));
    match r {
        Err(BtreeBuildError::UnknownCompression) => names_codec(
            parse,
            compression_of(builder.options@),
            None,
        ),
        Err(BtreeBuildError::UnknownKeyField { field }) => known && key_fields == Err::<
            Seq<usize>,
            _,
        >(field),
        Err(BtreeBuildError::UnknownPayloadField { field }) => known
            && key_fields is Ok && payload_fields == Err::<Seq<usize>, _>(field),
        Err(BtreeBuildError::KeyPrefix { row, error }) => known && key_fields is Ok
            && payload_fields is Ok && row < block.num_rows && rows_accepted(
            encode,
            block@,
            keys,
            payload_fields->Ok_0,
            row as int,
        ) && prefix_fails(
            key_bytes(key_values(block@, keys, row as int)),
            keys.len(),
            error,
        ),
        Err(BtreeBuildError::EncodePayload { row }) => known && key_fields is Ok
            && payload_fields is Ok && row < block.num_rows && rows_accepted(
            encode,
            block@,
            keys,
            payload_fields->Ok_0,
            row as int,
        ) && prefixes_found(
            key_bytes(key_values(block@, keys, row as int)),
            keys.len(),
        ) && encodes_payload(
            encode,
            payload_values(block@, payload_fields->Ok_0, row as int),
            None,
        ),
        Err(BtreeBuildError::Write { error }) => known && key_fields is Ok
            && payload_fields is Ok && rows_accepted(
            encode,
            block@,
            keys,
            payload_fields->Ok_0,
            block.num_rows as int,
        ) && index_written(
            source_schema,
            block,
            builder,
            schema,
            encode,
            parse,
            compress,
            build_filter,
            Err::<Bytes, _>(error),
        ),
        Ok(bytes) => known && key_fields is Ok && payload_fields is Ok && rows_accepted(
            encode,
            block@,
            keys,
            payload_fields->Ok_0,
            block.num_rows as int,
        ) && index_written(
            source_schema,
            block,
            builder,
            schema,
            encode,
            parse,
            compress,
            build_filter,
            Ok::<_, BtreeIndexError>(bytes),
        ),
    }
}

/// Builds the index of a block.
///
/// `schema` is the text of the payload fields; the host encodes payloads, knows and applies
/// compressions, and builds the filter over the prefixes.
pub fn build_btree_index<
    E: Fn(&Vec<Scalar>) -> Option<Vec<u8>>,
    P: Fn(&str) -> Option<CommonCompression>,
    C: Fn(CommonCompression, &[u8]) -> Option<Vec<u8>>,
    B: Fn(&Vec<Vec<u8>>, u64, u64) -> Option<Vec<u8>>,
>(
    source_schema: &Vec<TableField>,
    block: &PayloadBlock,
    btree_index_builder: &BtreeIndexBuilder,
    schema: &str,
    encode: E,
    parse: P,
    compress: C,
    build_filter: B,
) -> (r: Result<Bytes, BtreeBuildError>)
    requires
        block_fits(*block, source_schema@),
        forall|v: &Vec<Scalar>| #[trigger] call_requires(encode, (v,)),
        forall|name: &str| call_requires(parse, (name,)),
        forall|codec: CommonCompression, s: &[u8]| call_requires(compress, (codec, s)),
        forall|p: &Vec<Vec<u8>>, bits: u64, seed: u64|
            call_requires(build_filter, (p, bits, seed)),
    ensures
        index_built(
            source_schema@,
            *block,
            *btree_index_builder,
            schema@,
            encode,
            parse,
            compress,
            build_filter,
            r,
        ),
{
    let compression: &str = match find_property(
        &btree_index_builder.options,
        BTREE_INDEX_OPTION_COMPRESSION,
    ) {
        Some(name) => name,
        None => DEFAULT_BTREE_INDEX_COMPRESSION,
    };
    let known = parse(compression);
    assert(names_codec(parse, compression@, known));
    if known.is_none() {
        return Err(BtreeBuildError::UnknownCompression);
    }
    assert(codec_known(parse, compression_of(btree_index_builder.options@))) by {
        assert(names_codec(parse, compression@, Some(known->Some_0)));
    }
    let keys = match key_field_indexes(source_schema, &btree_index_builder.key_fields) {
        Ok(keys) => keys,
        Err(field) => {
            return Err(BtreeBuildError::UnknownKeyField { field });
        },
    };
    let places = match field_indexes(source_schema, &btree_index_builder.payload_fields) {
        Ok(places) => places,
        Err(field) => {
            return Err(BtreeBuildError::UnknownPayloadField { field });
        },
    };
    proof {
        assert(source_schema@.len() == source_schema.len());
        lemma_field_places(source_schema@, key_names_of(btree_index_builder.key_fields@));
        lemma_field_places(source_schema@, names_of(btree_index_builder.payload_fields@));
        assert forall|i: int| 0 <= i < keys@.len() implies (#[trigger] keys@[i]).0
            < block.columns@.len() by {
            assert(field_places(
                source_schema@,
                key_names_of(btree_index_builder.key_fields@),
            )->Ok_0[i] < source_schema@.len());
        }
    }
    let key_order = index_key_order(&btree_index_builder.key_fields);
    let meta = index_meta(btree_index_builder, block.num_rows);
    let mut writer = BtreeIndexWriter::new(meta, schema, key_order.as_str(), compression);
    let ghost fresh = writer;
    let mut row: usize = 0;
    assert(rows_view(writer.rows@) =~= Seq::<RowModel>::empty());
    assert(strings_view(writer.equality_prefixes@) =~= Seq::<Seq<u8>>::empty());
    while row < block.num_rows
        invariant
            row <= block.num_rows,
            block_fits(*block, source_schema@),
            forall|v: &Vec<Scalar>| #[trigger] call_requires(encode, (v,)),
            keys@ == key_places_of(source_schema@, btree_index_builder.key_fields@),
            field_places(source_schema@, key_names_of(btree_index_builder.key_fields@)) is Ok,
            field_places(source_schema@, names_of(btree_index_builder.payload_fields@)) == Ok::<
                _,
                usize,
            >(places@),
            forall|i: int|
                0 <= i < keys@.len() ==> (#[trigger] keys@[i]).0 < block.columns@.len(),
            forall|i: int| 0 <= i < places@.len() ==> (#[trigger] places@[i]) < source_schema@.len(),
            writer == (BtreeIndexWriter {
                rows: writer.rows,
                equality_prefixes: writer.equality_prefixes,
                ..fresh
            }),
            rows_view(writer.rows@).len() == row,
            forall|i: int|
                0 <= i < row ==> #[trigger] is_index_row(
                    rows_view(writer.rows@)[i],
                    block@,
                    keys@,
                    places@,
                    i,
                    encode,
                ),
            strings_view(writer.equality_prefixes@) == heads_of_rows(block@, keys@, row as nat),
            rows_accepted(encode, block@, keys@, places@, row as int),
            codec_known(parse, compression_of(btree_index_builder.options@)),
        decreases block.num_rows - row,
    {
        let ghost before = rows_view(writer.rows@);
        proof {
            assert forall|i: int| 0 <= i < keys@.len() implies (#[trigger] keys@[i]).0
                < block.columns@.len() && row < block.columns@[keys@[i].0 as int]@.len() by {
                assert(block.columns@[keys@[i].0 as int]@.len() == block.num_rows);
            }
            assert forall|i: int| 0 <= i < places@.len() implies (#[trigger] places@[i])
                < block.columns@.len() && row < block.columns@[places@[i] as int]@.len() by {
                assert(block.columns@[places@[i] as int]@.len() == block.num_rows);
            }
        }
        let key = row_key(block, &keys, row);
        match add_prefixes(&mut writer, &key, keys.len()) {
            Ok(_) => {},
            Err(error) => {
                return Err(BtreeBuildError::KeyPrefix { row, error });
            },
        }
        let values = row_payload(block, &places, row);
        let encoded = encode(&values);
        assert(encodes_payload(
            encode,
            payload_values(block@, places@, row as int),
            opt_bytes(encoded),
        ));
        match encoded {
            None => {
                return Err(BtreeBuildError::EncodePayload { row });
            },
            Some(payload) => {
                let ghost made = (key@, payload@);
                assert(encodes_payload(
                    encode,
                    payload_values(block@, places@, row as int),
                    Some(payload@),
                ));
                writer.add_row(bytes_from_vec(key), bytes_from_vec(payload));
                proof {
                    let now = rows_view(writer.rows@);
                    assert(now == before.push(made));
                    assert forall|i: int| 0 <= i < row + 1 implies #[trigger] is_index_row(
                        now[i],
                        block@,
                        keys@,
                        places@,
                        i,
                        encode,
                    ) by {
                        if i < row {
                            assert(now[i] == before[i]);
                            assert(is_index_row(before[i], block@, keys@, places@, i, encode));
                        }
                    }
                }
            },
        }
        row = row + 1;
    }
    assert(is_index_writer(
        writer,
        source_schema@,
        *block,
        *btree_index_builder,
        schema@,
        encode,
    ));
    let ghost full = writer;
    let finished = writer.finish(parse, compress, build_filter);
    assert(full.finishes(parse, compress, build_filter, finished));
    match finished {
        Ok(bytes) => Ok(bytes),
        Err(error) => Err(BtreeBuildError::Write { error }),
    }
}

/// Every prefix of the key of every row is added to the filter of a block's index.
pub proof fn law_every_prefix_is_added(
    block: PayloadModel,
    keys: Seq<(usize, BtreeIndexKeyOrder)>,
    rows: nat,
    row: int,
    n: nat,
)
    requires
        0 <= row < rows,
        1 <= n <= keys.len(),
    ensures
        heads_of_rows(block, keys, rows).contains(
            key_head(key_bytes(key_values(block, keys, row)), n),
        ),
    decreases rows,
{
    let before = heads_of_rows(block, keys, (rows - 1) as nat);
    let added = key_heads(key_bytes(key_values(block, keys, rows - 1)), keys.len());
    let now = heads_of_rows(block, keys, rows);
    let head = key_head(key_bytes(key_values(block, keys, row)), n);
    if row == rows - 1 {
        assert(added[n - 1] == head);
        assert(now[before.len() + n - 1] == head);
    } else {
        law_every_prefix_is_added(block, keys, (rows - 1) as nat, row, n);
        let k = choose|k: int| 0 <= k < before.len() && before[k] == head;
        assert(now[k] == head);
    }
}

} // verus!
