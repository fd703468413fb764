//! What an index that is built with a block holds, in terms of the table and the block.

use vstd::prelude::*;

use bytes::Bytes;

use crate::error::BtreeIndexError;
use crate::filter::lemma_field_index;
use crate::index_def::{builder_of, builders_of, compression_of, encodes_payload, field_places,
    index_built, is_index_row,
    is_index_writer, key_names_of, key_places_of, key_values,
    lemma_field_places, lemma_field_with_id, lemma_fields_with_ids_at, lemma_first_places_hold,
    names_of, payload_values, BtreeBuildError, BtreeIndexBuilder, BuilderModel};
use crate::key::key_bytes;
use crate::ordered_index::covers_all;
use crate::ordered_laws::has_field;
use crate::scalar::{Scalar, ScalarModel, TableField};
use crate::select::{PayloadBlock, PayloadModel};
use crate::table_meta::{field_with_id, fields_with_ids, first_places, ids_of, key_columns_of, stored_fields,
    TableIndex};
use crate::types::{rows_view, BtreeIndexKeyOrder, CommonCompression};
use crate::writer::BtreeIndexWriter;

verus! {

/// The block has this value in a row, in the column of the field with this name.
pub open spec fn is_value_of(
    schema: Seq<TableField>,
    block: PayloadModel,
    row: int,
    name: Seq<char>,
    value: ScalarModel,
) -> bool {
    exists|place: int|
        0 <= place < schema.len() && (#[trigger] schema[place]).name@ == name && value
            == block.1[place][row]
}

/// The values are those of a row's key columns, each in its direction.
pub open spec fn are_key_values(
    schema: Seq<TableField>,
    block: PayloadModel,
    row: int,
    builder: BtreeIndexBuilder,
    values: Seq<(ScalarModel, BtreeIndexKeyOrder)>,
) -> bool {
    &&& values.len() == builder.key_fields@.len()
    &&& forall|j: int|
        0 <= j < values.len() ==> is_value_of(
            schema,
            block,
            row,
            builder.key_fields@[j].0.name@,
            (#[trigger] values[j]).0,
        ) && (values[j].1 is Desc <==> builder.key_fields@[j].1 is Desc)
}

/// The values are those of the columns of a row's payload.
pub open spec fn are_payload_values(
    schema: Seq<TableField>,
    block: PayloadModel,
    row: int,
    builder: BtreeIndexBuilder,
    values: Seq<ScalarModel>,
) -> bool {
    &&& values.len() == builder.payload_fields@.len()
    &&& forall|j: int|
        0 <= j < values.len() ==> is_value_of(
            schema,
            block,
            row,
            builder.payload_fields@[j].name@,
            #[trigger] values[j],
        )
}

proof fn lemma_place_of_name(schema: Seq<TableField>, names: Seq<Seq<char>>, i: int)
    requires
        schema.len() <= usize::MAX,
        field_places(schema, names) is Ok,
        0 <= i < names.len(),
    ensures
        field_places(schema, names)->Ok_0.len() == names.len(),
        ({
            let place = field_places(schema, names)->Ok_0[i];
            place < schema.len() && schema[place as int].name@ == names[i]
        }),
    decreases names.len(),
{
    lemma_field_places(schema, names);
    lemma_field_index(schema, names.last());
    let head = names.drop_last();
    if i < names.len() - 1 {
        assert(head[i] == names[i]);
        lemma_place_of_name(schema, head, i);
    } else {
        lemma_field_places(schema, head);
    }
}

/// The index of a block has a row for each row of the block. Its key is made of the values of the
/// key columns, each in its direction, and its payload of the values of the columns that the index
/// holds, all found by their names; and every beginning of the key is added to the filter.
pub proof fn law_index_row_holds_the_row_by_name<E: Fn(&Vec<Scalar>) -> Option<Vec<u8>>>(
    writer: BtreeIndexWriter,
    source_schema: Vec<TableField>,
    block: PayloadBlock,
    builder: BtreeIndexBuilder,
    schema: Seq<char>,
    encode: E,
    row: int,
)
    requires
        is_index_writer(writer, source_schema@, block, builder, schema, encode),
        field_places(source_schema@, key_names_of(builder.key_fields@)) is Ok,
        field_places(source_schema@, names_of(builder.payload_fields@)) is Ok,
        0 <= row < block.num_rows,
    ensures
        rows_view(writer.rows@).len() == block.num_rows,
        exists|values: Seq<(ScalarModel, BtreeIndexKeyOrder)>| #[trigger]
            are_key_values(source_schema@, block@, row, builder, values) && rows_view(
                writer.rows@,
            )[row].0 == key_bytes(values),
        exists|values: Seq<ScalarModel>| #[trigger]
            are_payload_values(source_schema@, block@, row, builder, values) && encodes_payload(
                encode,
                values,
                Some(rows_view(writer.rows@)[row].1),
            ),
{
    let keys = key_places_of(source_schema@, builder.key_fields@);
    let places = field_places(source_schema@, names_of(builder.payload_fields@))->Ok_0;
    assert(source_schema.len() == source_schema@.len());
    assert(is_index_row(rows_view(writer.rows@)[row], block@, keys, places, row, encode));
    let key = key_values(block@, keys, row);
    let names = key_names_of(builder.key_fields@);
    assert forall|j: int| 0 <= j < key.len() implies is_value_of(
        source_schema@,
        block@,
        row,
        builder.key_fields@[j].0.name@,
        (#[trigger] key[j]).0,
    ) && (key[j].1 is Desc <==> builder.key_fields@[j].1 is Desc) by {
        lemma_place_of_name(source_schema@, names, j);
        let place = field_places(source_schema@, names)->Ok_0[j] as int;
        assert(source_schema@[place].name@ == names[j]);
    }
    assert(are_key_values(source_schema@, block@, row, builder, key));
    let held = payload_values(block@, places, row);
    let held_names = names_of(builder.payload_fields@);
    if held_names.len() > 0 {
        lemma_place_of_name(source_schema@, held_names, 0);
    } else {
        lemma_field_places(source_schema@, held_names);
    }
    assert forall|j: int| 0 <= j < held.len() implies is_value_of(
        source_schema@,
        block@,
        row,
        builder.payload_fields@[j].name@,
        #[trigger] held[j],
    ) by {
        lemma_place_of_name(source_schema@, held_names, j);
        let place = places[j] as int;
        assert(source_schema@[place].name@ == held_names[j]);
    }
    assert(are_payload_values(source_schema@, block@, row, builder, held));
}

/// A column id is one of the key's.
pub open spec fn is_key_id(index: TableIndex, id: u32) -> bool {
    if index.key_columns@.len() == 0 {
        index.column_ids@.contains(id)
    } else {
        exists|i: int|
            0 <= i < index.key_columns@.len() && (#[trigger] index.key_columns@[i]).column_id == id
    }
}

proof fn lemma_field_has_id(fields: Seq<TableField>, id: u32)
    requires
        field_with_id(fields, id) is Some,
    ensures
        field_with_id(fields, id)->Some_0.column_id == id,
        fields.contains(field_with_id(fields, id)->Some_0),
    decreases fields.len(),
{
    let k = lemma_field_with_id(fields, id);
    lemma_found_has_id(fields, id);
}

proof fn lemma_found_has_id(fields: Seq<TableField>, id: u32)
    requires
        field_with_id(fields, id) is Some,
    ensures
        field_with_id(fields, id)->Some_0.column_id == id,
    decreases fields.len(),
{
    if fields[0].column_id != id {
        lemma_found_has_id(fields.skip(1), id);
    }
}

/// An index is built with each block only where it is a sorted one that is kept up to date so; it has
/// the name and the version of the index, and its key is over the key columns of the index, in their
/// order and directions: those that it lists with directions, or else those that it lists, ascending.
pub proof fn law_builder_has_the_key_of_its_index(
    schema: Seq<TableField>,
    index: TableIndex,
    builder: BuilderModel,
    i: int,
)
    requires
        builder_of(schema, index) == Some(builder),
    ensures
        index.index_type is Btree,
        index.sync_creation,
        builder.name == index.name@,
        builder.version == index.version@,
        builder.key_fields.len() == if index.key_columns@.len() == 0 {
            index.column_ids@.len()
        } else {
            index.key_columns@.len()
        },
        0 <= i < builder.key_fields.len() ==> {
            let (field, order) = builder.key_fields[i];
            &&& schema.contains(field)
            &&& index.key_columns@.len() == 0 ==> field.column_id == index.column_ids@[i]
                && order is Asc
            &&& index.key_columns@.len() > 0 ==> field.column_id
                == index.key_columns@[i].column_id && order == index.key_columns@[i].order
        },
{
    let key_columns = key_columns_of(index);
    if 0 <= i < builder.key_fields.len() {
        let id = key_columns[i].column_id;
        lemma_field_has_id(schema, id);
    }
}

/// The first places are of the numbers, each once.
pub proof fn lemma_first_places_of(ids: Seq<u32>, k: int)
    requires
        0 <= k < first_places(ids).len(),
    ensures
        ids.contains(first_places(ids)[k]),
        forall|m: int| 0 <= m < k ==> first_places(ids)[m] != first_places(ids)[k],
    decreases ids.len(),
{
    let head = ids.drop_last();
    let before = first_places(head);
    if k < before.len() {
        lemma_first_places_of(head, k);
        let j = choose|j: int| 0 <= j < head.len() && head[j] == before[k];
        assert(ids[j] == before[k]);
        assert forall|m: int| 0 <= m < k implies first_places(ids)[m] != first_places(ids)[k] by {
            assert(first_places(ids)[m] == before[m]);
        }
    } else {
        assert(ids[ids.len() - 1] == first_places(ids)[k]);
        assert forall|m: int| 0 <= m < k implies first_places(ids)[m] != first_places(ids)[k] by {
            assert(first_places(ids)[m] == before[m]);
            assert(before.contains(before[m]));
        }
    }
}

/// The rows of an index hold the columns of its key and those that it includes, each once, and no
/// others; where it holds all, they hold every column that is stored.
pub proof fn law_builder_holds_key_and_included_columns(
    schema: Seq<TableField>,
    index: TableIndex,
    builder: BuilderModel,
    field: TableField,
    k: int,
    m: int,
)
    requires
        builder_of(schema, index) == Some(builder),
    ensures
        covers_all(index.options@) ==> (builder.payload_fields.contains(field) <==> schema.contains(
            field,
        ) && !field.virtual_computed),
        !covers_all(index.options@) ==> {
            &&& 0 <= k < builder.payload_fields.len() ==> schema.contains(builder.payload_fields[k])
                && (is_key_id(index, builder.payload_fields[k].column_id)
                || index.include_column_ids@.contains(builder.payload_fields[k].column_id))
            &&& 0 <= k < m < builder.payload_fields.len() ==> builder.payload_fields[k].column_id
                != builder.payload_fields[m].column_id
            &&& 0 <= k < index.include_column_ids@.len() ==> holds_id(
                builder.payload_fields,
                index.include_column_ids@[k],
            )
            &&& 0 <= k < key_columns_of(index).len() ==> holds_id(
                builder.payload_fields,
                key_columns_of(index)[k].column_id,
            )
        },
{
    if covers_all(index.options@) {
        let stored = |f: TableField| !f.virtual_computed;
        assert(stored_fields(schema) == schema.filter(stored));
        if builder.payload_fields.contains(field) {
            schema.lemma_filter_contains_rev(stored, field);
            let j = choose|j: int|
                0 <= j < builder.payload_fields.len() && builder.payload_fields[j] == field;
            schema.lemma_filter_pred(stored, j);
        }
        if schema.contains(field) && !field.virtual_computed {
            let j = choose|j: int| 0 <= j < schema.len() && schema[j] == field;
            schema.lemma_filter_contains(stored, j);
        }
    } else {
        let ids = ids_of(key_columns_of(index));
        let all = ids + index.include_column_ids@;
        let distinct = first_places(all);
        if distinct.len() > 0 {
            lemma_fields_with_ids_at(schema, distinct, 0);
        }
        assert(builder.payload_fields == fields_with_ids(schema, distinct)->Some_0);
        assert(builder.payload_fields.len() == distinct.len());
        if 0 <= k < builder.payload_fields.len() {
            lemma_held_field(schema, index, k);
        }
        if 0 <= k < m < builder.payload_fields.len() {
            lemma_held_field(schema, index, m);
            lemma_first_places_of(all, m);
        }
        if 0 <= k < index.include_column_ids@.len() {
            assert(all[ids.len() + k] == index.include_column_ids@[k]);
            lemma_held_id(schema, all, ids.len() + k);
        }
        if 0 <= k < key_columns_of(index).len() {
            assert(all[k] == key_columns_of(index)[k].column_id);
            lemma_held_id(schema, all, k);
        }
    }
}

/// One of the fields has this id.
pub open spec fn holds_id(fields: Seq<TableField>, id: u32) -> bool {
    exists|k: int| 0 <= k < fields.len() && (#[trigger] fields[k]).column_id == id
}

proof fn lemma_held_id(schema: Seq<TableField>, all: Seq<u32>, i: int)
    requires
        fields_with_ids(schema, first_places(all)) is Some,
        0 <= i < all.len(),
    ensures
        holds_id(fields_with_ids(schema, first_places(all))->Some_0, all[i]),
{
    let distinct = first_places(all);
    lemma_first_places_hold(all, i);
    let k = choose|k: int| 0 <= k < distinct.len() && distinct[k] == all[i];
    lemma_fields_with_ids_at(schema, distinct, k);
    lemma_field_has_id(schema, distinct[k]);
    let fields = fields_with_ids(schema, distinct)->Some_0;
    assert(fields[k].column_id == all[i]);
}

proof fn lemma_held_field(schema: Seq<TableField>, index: TableIndex, k: int)
    requires
        builder_of(schema, index) is Some,
        !covers_all(index.options@),
        0 <= k < builder_of(schema, index)->Some_0.payload_fields.len(),
        builder_of(schema, index)->Some_0.payload_fields.len() == first_places(
            ids_of(key_columns_of(index)) + index.include_column_ids@,
        ).len(),
    ensures
        ({
            let field = builder_of(schema, index)->Some_0.payload_fields[k];
            &&& schema.contains(field)
            &&& field.column_id == first_places(
                ids_of(key_columns_of(index)) + index.include_column_ids@,
            )[k]
            &&& is_key_id(index, field.column_id) || index.include_column_ids@.contains(
                field.column_id,
            )
        }),
{
    let key_columns = key_columns_of(index);
    let ids = ids_of(key_columns);
    let all = ids + index.include_column_ids@;
    let distinct = first_places(all);
    lemma_fields_with_ids_at(schema, distinct, k);
    lemma_field_has_id(schema, distinct[k]);
    lemma_first_places_of(all, k);
    let j = choose|j: int| 0 <= j < all.len() && all[j] == distinct[k];
    if j < ids.len() {
        assert(all[j] == key_columns[j].column_id);
        if index.key_columns@.len() == 0 {
            assert(index.column_ids@[j] == all[j]);
        } else {
            assert(index.key_columns@[j].column_id == all[j]);
        }
    } else {
        assert(index.include_column_ids@[j - ids.len()] == all[j]);
    }
}

/// For each index of a table that can be built there is a builder, and no other, in their order.
pub proof fn law_every_index_is_built(
    schema: Seq<TableField>,
    indexes: Seq<TableIndex>,
    builder: BuilderModel,
)
    ensures
        builders_of(schema, indexes).contains(builder) <==> exists|i: int|
            0 <= i < indexes.len() && builder_of(schema, #[trigger] indexes[i]) == Some(builder),
    decreases indexes.len(),
{
    if indexes.len() > 0 {
        let head = indexes.drop_last();
        let n = indexes.len() - 1;
        law_every_index_is_built(schema, head, builder);
        let before = builders_of(schema, head);
        let now = builders_of(schema, indexes);
        if now.contains(builder) {
            let k = choose|k: int| 0 <= k < now.len() && now[k] == builder;
            if k < before.len() {
                assert(before[k] == builder);
                assert(before.contains(builder));
                let i = choose|i: int|
                    0 <= i < head.len() && builder_of(schema, #[trigger] head[i]) == Some(builder);
                assert(indexes[i] == head[i]);
            } else {
                assert(builder_of(schema, indexes[n]) == Some(builder));
            }
        }
        if exists|i: int|
            0 <= i < indexes.len() && builder_of(schema, #[trigger] indexes[i]) == Some(builder) {
            let i = choose|i: int|
                0 <= i < indexes.len() && builder_of(schema, #[trigger] indexes[i]) == Some(builder);
            if i < n {
                assert(head[i] == indexes[i]);
                assert(before.contains(builder));
                let k = choose|k: int| 0 <= k < before.len() && before[k] == builder;
                assert(now[k] == builder);
            } else {
                assert(now[before.len() as int] == builder);
            }
        }
    }
}

/// The file of a block's index is that of a writer that holds the rows of the block.
pub open spec fn is_file_of<
    E: Fn(&Vec<Scalar>) -> Option<Vec<u8>>,
    P: Fn(&str) -> Option<CommonCompression>,
    C: Fn(CommonCompression, &[u8]) -> Option<Vec<u8>>,
    B: Fn(&Vec<Vec<u8>>, u64, u64) -> Option<Vec<u8>>,
>(
    writer: BtreeIndexWriter,
    source_schema: Vec<TableField>,
    block: PayloadBlock,
    builder: BtreeIndexBuilder,
    encode: E,
    parse: P,
    compress: C,
    build_filter: B,
    r: Result<Bytes, BtreeIndexError>,
    row: int,
) -> bool {
    &&& writer.finishes(parse, compress, build_filter, r)
    &&& rows_view(writer.rows@).len() == block.num_rows
    &&& 0 <= row < block.num_rows ==> exists|values: Seq<(ScalarModel, BtreeIndexKeyOrder)>|
        #[trigger] are_key_values(source_schema@, block@, row, builder, values) && rows_view(
            writer.rows@,
        )[row].0 == key_bytes(values)
    &&& 0 <= row < block.num_rows ==> exists|values: Seq<ScalarModel>| #[trigger]
        are_payload_values(source_schema@, block@, row, builder, values) && encodes_payload(
            encode,
            values,
            Some(rows_view(writer.rows@)[row].1),
        )
}

/// The file that is built for a block is that of a writer with a row for each row of the block, whose
/// key and payload are made of the row's values, found by the names of the columns.
pub proof fn law_built_index_holds_the_block<
    E: Fn(&Vec<Scalar>) -> Option<Vec<u8>>,
    P: Fn(&str) -> Option<CommonCompression>,
    C: Fn(CommonCompression, &[u8]) -> Option<Vec<u8>>,
    B: Fn(&Vec<Vec<u8>>, u64, u64) -> Option<Vec<u8>>,
>(
    source_schema: Vec<TableField>,
    block: PayloadBlock,
    builder: BtreeIndexBuilder,
    schema: Seq<char>,
    encode: E,
    parse: P,
    compress: C,
    build_filter: B,
    bytes: Bytes,
    row: int,
)
    requires
        index_built(
            source_schema@,
            block,
            builder,
            schema,
            encode,
            parse,
            compress,
            build_filter,
            Ok::<_, BtreeBuildError>(bytes),
        ),
    ensures
        exists|writer: BtreeIndexWriter| #[trigger]
            is_file_of(
                writer,
                source_schema,
                block,
                builder,
                encode,
                parse,
                compress,
                build_filter,
                Ok::<_, BtreeIndexError>(bytes),
                row,
            ),
{
    let r = Ok::<_, BtreeIndexError>(bytes);
    let writer = choose|writer: BtreeIndexWriter| #[trigger]
        is_index_writer(writer, source_schema@, block, builder, schema, encode) && writer.finishes(
            parse,
            compress,
            build_filter,
            r,
        );
    if 0 <= row < block.num_rows {
        law_index_row_holds_the_row_by_name(
            writer,
            source_schema,
            block,
            builder,
            schema,
            encode,
            row,
        );
    }
    assert(is_file_of(
        writer,
        source_schema,
        block,
        builder,
        encode,
        parse,
        compress,
        build_filter,
        r,
        row,
    ));
}

proof fn lemma_place_missing(schema: Seq<TableField>, names: Seq<Seq<char>>)
    requires
        field_places(schema, names) is Err,
        names.len() <= usize::MAX,
    ensures
        ({
            let missing = field_places(schema, names)->Err_0;
            missing < names.len() && !has_field(schema, names[missing as int])
        }),
    decreases names.len(),
{
    let head = names.drop_last();
    let n = names.len() - 1;
    if field_places(schema, head) is Err {
        lemma_place_missing(schema, head);
        let missing = field_places(schema, head)->Err_0;
        assert(head[missing as int] == names[missing as int]);
    } else {
        crate::ordered_laws::lemma_field_index(schema, names[n]);
    }
}

/// Building the index of a block fails only where there is a reason: the host does not know the
/// compression, a column of the key or of the rows is not in the block, or the host cannot encode the
/// values of a row.
pub proof fn law_index_build_fails_for_a_reason<
    E: Fn(&Vec<Scalar>) -> Option<Vec<u8>>,
    P: Fn(&str) -> Option<CommonCompression>,
    C: Fn(CommonCompression, &[u8]) -> Option<Vec<u8>>,
    B: Fn(&Vec<Vec<u8>>, u64, u64) -> Option<Vec<u8>>,
>(
    source_schema: Vec<TableField>,
    block: PayloadBlock,
    builder: BtreeIndexBuilder,
    schema: Seq<char>,
    encode: E,
    parse: P,
    compress: C,
    build_filter: B,
    e: BtreeBuildError,
)
    requires
        index_built(
            source_schema@,
            block,
            builder,
            schema,
            encode,
            parse,
            compress,
            build_filter,
            Err::<Bytes, _>(e),
        ),
    ensures
        match e {
            BtreeBuildError::UnknownCompression => exists|name: &str|
                name@ == compression_of(builder.options@) && #[trigger] call_ensures(
                    parse,
                    (name,),
                    None,
                ),
            BtreeBuildError::UnknownKeyField { field } => field < builder.key_fields@.len()
                && !has_field(source_schema@, builder.key_fields@[field as int].0.name@),
            BtreeBuildError::UnknownPayloadField { field } => field < builder.payload_fields@.len()
                && !has_field(source_schema@, builder.payload_fields@[field as int].name@),
            BtreeBuildError::EncodePayload { row } => row < block.num_rows && exists|
                values: Seq<ScalarModel>,
            | #[trigger]
                are_payload_values(source_schema@, block@, row as int, builder, values)
                    && encodes_payload(encode, values, None),
            BtreeBuildError::KeyPrefix { row, .. } => row < block.num_rows,
            BtreeBuildError::Write { .. } => true,
        },
{
    let key_names = key_names_of(builder.key_fields@);
    let names = names_of(builder.payload_fields@);
    assert(builder.key_fields.len() == key_names.len());
    assert(builder.payload_fields.len() == names.len());
    assert(source_schema.len() == source_schema@.len());
    match e {
        BtreeBuildError::UnknownKeyField { field } => {
            lemma_place_missing(source_schema@, key_names);
        },
        BtreeBuildError::UnknownPayloadField { field } => {
            lemma_place_missing(source_schema@, names);
        },
        BtreeBuildError::EncodePayload { row } => {
            let places = field_places(source_schema@, names)->Ok_0;
            let held = payload_values(block@, places, row as int);
            lemma_field_places(source_schema@, names);
            assert forall|j: int| 0 <= j < held.len() implies is_value_of(
                source_schema@,
                block@,
                row as int,
                builder.payload_fields@[j].name@,
                #[trigger] held[j],
            ) by {
                lemma_place_of_name(source_schema@, names, j);
                let place = places[j] as int;
                assert(source_schema@[place].name@ == names[j]);
            }
            assert(are_payload_values(source_schema@, block@, row as int, builder, held));
        },
        _ => {},
    }
}

} // verus!
