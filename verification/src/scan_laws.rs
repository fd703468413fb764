//! What the plan of a scan gives, in terms of the names that it was asked for.

use vstd::prelude::*;

use crate::ordered_laws::{has_field, lemma_field_index};
use crate::scalar::{TableDataType, TableField};
use crate::scan_plan::{counting, kept_places, marked, output_fields_of, placed_fields, places_of,
    unplaced, TableScanError};
use crate::sort::{lemma_stable_sort_exists, lemma_stable_sort_items, lemma_stable_sort_sorted,
    stable_sort, Ranked};

verus! {

/// The field is that of a column of the schema, under the name that it is asked for.
pub open spec fn is_asked_field(
    schema: Seq<TableField>,
    entry: (String, String),
    field: (Seq<char>, TableDataType),
    place: int,
) -> bool {
    &&& 0 <= place < schema.len()
    &&& schema[place].name@ == entry.0@
    &&& field == (entry.1@, schema[place].data_type)
}

/// The field that is asked for is among the fields.
pub open spec fn is_in_fields(
    schema: Seq<TableField>,
    entry: (String, String),
    fields: Seq<(Seq<char>, TableDataType)>,
) -> bool {
    exists|k: int, place: int|
        0 <= k < fields.len() && #[trigger] is_asked_field(schema, entry, fields[k], place)
}

/// The field is one that is asked for.
pub open spec fn is_one_asked_for(
    schema: Seq<TableField>,
    name_mapping: Seq<(String, String)>,
    field: (Seq<char>, TableDataType),
    place: int,
) -> bool {
    exists|i: int|
        0 <= i < name_mapping.len() && #[trigger] is_asked_field(
            schema,
            name_mapping[i],
            field,
            place,
        )
}

proof fn lemma_placed(schema: Seq<TableField>, name_mapping: Seq<(String, String)>, i: int)
    requires
        0 <= i < name_mapping.len(),
        placed_fields(schema, name_mapping) is Ok,
    ensures
        placed_fields(schema, name_mapping)->Ok_0.len() == name_mapping.len(),
        ({
            let field = placed_fields(schema, name_mapping)->Ok_0[i];
            is_asked_field(
                schema,
                name_mapping[i],
                (field.name, field.data_type),
                field.place,
            )
        }),
    decreases name_mapping.len(),
{
    let n = name_mapping.len() - 1;
    let head = name_mapping.drop_last();
    lemma_field_index(schema, name_mapping[n].0@);
    if i < n {
        assert(head[i] == name_mapping[i]);
        lemma_placed(schema, head, i);
    } else if n > 0 {
        lemma_placed(schema, head, 0);
    }
}

/// The fields that a scan gives are exactly those that it is asked for, each under its new name and
/// with the type of its column, in the order of their columns in the schema.
pub proof fn law_scan_gives_the_fields_asked_for(
    schema: Seq<TableField>,
    name_mapping: Seq<(String, String)>,
)
    requires
        output_fields_of(schema, name_mapping) is Ok,
    ensures
        ({
            let fields = output_fields_of(schema, name_mapping)->Ok_0;
            &&& fields.len() == name_mapping.len()
            &&& forall|i: int|
                0 <= i < name_mapping.len() ==> is_in_fields(
                    schema,
                    #[trigger] name_mapping[i],
                    fields,
                )
            &&& exists|places: Seq<int>| #[trigger]
                are_in_order(schema, name_mapping, fields, places)
        }),
{
    let placed = placed_fields(schema, name_mapping)->Ok_0;
    let sorted = stable_sort(placed);
    let fields = unplaced(sorted);
    lemma_stable_sort_exists(placed);
    lemma_stable_sort_sorted(placed, sorted);
    if name_mapping.len() > 0 {
        lemma_placed(schema, name_mapping, 0);
    }
    assert(placed.len() == name_mapping.len());
    assert(output_fields_of(schema, name_mapping)->Ok_0 == fields);
    assert forall|i: int| 0 <= i < name_mapping.len() implies is_in_fields(
        schema,
        #[trigger] name_mapping[i],
        fields,
    ) by {
        lemma_placed(schema, name_mapping, i);
        assert(placed.contains(placed[i]));
        lemma_stable_sort_items(placed, sorted, placed[i]);
        let k = choose|k: int| 0 <= k < sorted.len() && sorted[k] == placed[i];
        assert(is_asked_field(schema, name_mapping[i], fields[k], placed[i].place));
    }
    let places = Seq::new(sorted.len(), |k: int| sorted[k].place);
    assert forall|k: int| 0 <= k < fields.len() implies is_one_asked_for(
        schema,
        name_mapping,
        #[trigger] fields[k],
        places[k],
    ) by {
        assert(sorted.contains(sorted[k]));
        lemma_stable_sort_items(placed, sorted, sorted[k]);
        let i = choose|i: int| 0 <= i < placed.len() && placed[i] == sorted[k];
        lemma_placed(schema, name_mapping, i);
        assert(is_asked_field(schema, name_mapping[i], fields[k], places[k]));
    }
    assert forall|k: int, m: int| 0 <= k < m < places.len() implies #[trigger] places[k]
        <= #[trigger] places[m] by {
        assert(!sorted[m].ranks_before(sorted[k]));
    }
    assert(are_in_order(schema, name_mapping, fields, places));
}

/// The fields are ones that were asked for, and their columns stand at these places, which ascend.
pub open spec fn are_in_order(
    schema: Seq<TableField>,
    name_mapping: Seq<(String, String)>,
    fields: Seq<(Seq<char>, TableDataType)>,
    places: Seq<int>,
) -> bool {
    &&& places.len() == fields.len()
    &&& forall|k: int, m: int|
        0 <= k < m < places.len() ==> #[trigger] places[k] <= #[trigger] places[m]
    &&& forall|k: int|
        0 <= k < fields.len() ==> is_one_asked_for(
            schema,
            name_mapping,
            #[trigger] fields[k],
            places[k],
        )
}

/// A scan fails exactly where it is asked for a column that the schema does not have; the error names
/// the first.
pub proof fn law_scan_fails_at_the_first_unknown_column(
    schema: Seq<TableField>,
    name_mapping: Seq<(String, String)>,
)
    requires
        name_mapping.len() <= usize::MAX,
    ensures
        output_fields_of(schema, name_mapping) is Ok <==> kept_places(schema, name_mapping) is Ok,
        match output_fields_of(schema, name_mapping) {
            Ok(_) => forall|i: int|
                0 <= i < name_mapping.len() ==> has_field(schema, (#[trigger] name_mapping[i]).0@),
            Err(TableScanError::UnknownColumn { entry }) => {
                &&& entry < name_mapping.len()
                &&& !has_field(schema, name_mapping[entry as int].0@)
                &&& forall|i: int|
                    0 <= i < entry ==> has_field(schema, (#[trigger] name_mapping[i]).0@)
                &&& kept_places(schema, name_mapping) == Err::<Option<Seq<usize>>, _>(
                    TableScanError::UnknownColumn { entry },
                )
            },
        },
    decreases name_mapping.len(),
{
    if name_mapping.len() > 0 {
        let head = name_mapping.drop_last();
        let n = name_mapping.len() - 1;
        law_scan_fails_at_the_first_unknown_column(schema, head);
        lemma_field_index(schema, name_mapping[n].0@);
        assert forall|i: int| 0 <= i < head.len() implies #[trigger] head[i] == name_mapping[i] by {}
        if output_fields_of(schema, head) is Ok {
            assert forall|i: int| 0 <= i < n implies has_field(
                schema,
                (#[trigger] name_mapping[i]).0@,
            ) by {
                assert(head[i] == name_mapping[i]);
            }
        } else {
            let entry = output_fields_of(schema, head)->Err_0->entry;
            assert(head[entry as int] == name_mapping[entry as int]);
            assert forall|i: int| 0 <= i < entry implies has_field(
                schema,
                (#[trigger] name_mapping[i]).0@,
            ) by {
                assert(head[i] == name_mapping[i]);
            }
        }
    }
}

/// The columns that are kept of a source, which gives those of the schema.
pub open spec fn is_kept(kept: Option<Seq<usize>>, place: int, width: nat) -> bool {
    match kept {
        None => 0 <= place < width,
        Some(places) => exists|k: int| 0 <= k < places.len() && #[trigger] places[k] == place,
    }
}

/// Of the columns of a source, those are kept that the scan is asked for, and no others; they stay in
/// their order, and nothing is dropped where all are asked for once.
pub proof fn law_columns_asked_for_are_kept(
    schema: Seq<TableField>,
    name_mapping: Seq<(String, String)>,
    i: int,
    place: int,
)
    requires
        kept_places(schema, name_mapping) is Ok,
        schema.len() <= usize::MAX,
    ensures
        ({
            let kept = kept_places(schema, name_mapping)->Ok_0;
            &&& 0 <= i < name_mapping.len() ==> exists|p: int| #[trigger]
                is_kept(kept, p, schema.len()) && 0 <= p < schema.len() && schema[p].name@
                    == name_mapping[i].0@
            &&& is_kept(kept, place, schema.len()) ==> 0 <= place < schema.len() && exists|e: int|
                0 <= e < name_mapping.len() && (#[trigger] name_mapping[e]).0@
                    == schema[place].name@
            &&& kept matches Some(places) ==> forall|k: int, m: int|
                0 <= k < m < places.len() ==> #[trigger] places[k] <= #[trigger] places[m]
        }),
{
    let placed = placed_fields(schema, name_mapping)->Ok_0;
    let places = places_of(schema, name_mapping)->Ok_0;
    let sorted = stable_sort(places);
    let kept = kept_places(schema, name_mapping)->Ok_0;
    lemma_stable_sort_exists(places);
    lemma_stable_sort_sorted(places, sorted);
    if name_mapping.len() > 0 {
        lemma_placed(schema, name_mapping, 0);
    }
    assert(placed.len() == name_mapping.len());
    assert forall|k: int, m: int| 0 <= k < m < sorted.len() implies #[trigger] sorted[k]
        <= #[trigger] sorted[m] by {
        assert(!sorted[m].ranks_before(sorted[k]));
    }
    if 0 <= i < name_mapping.len() {
        lemma_placed(schema, name_mapping, i);
        let p = placed[i].place;
        assert(places[i] == p);
        assert(places.contains(places[i]));
        lemma_stable_sort_items(places, sorted, places[i]);
        let k = choose|k: int| 0 <= k < sorted.len() && sorted[k] == places[i];
        assert(is_kept(kept, p, schema.len()));
    }
    if is_kept(kept, place, schema.len()) {
        let k = if kept is None {
            place
        } else {
            choose|k: int| 0 <= k < sorted.len() && #[trigger] sorted[k] == place
        };
        if kept is None {
            assert(sorted == counting(schema.len()));
            assert(counting(schema.len())[k] == k);
        }
        assert(sorted[k] == place);
        assert(sorted.contains(sorted[k]));
        lemma_stable_sort_items(places, sorted, sorted[k]);
        let e = choose|e: int| 0 <= e < places.len() && places[e] == sorted[k];
        lemma_placed(schema, name_mapping, e);
        assert(placed[e].place == place);
        assert(name_mapping[e].0@ == schema[place].name@);
    }
}

/// A sample holds the parts that were drawn, and no others, in their order.
pub proof fn law_sample_holds_the_parts_drawn<T>(parts: Seq<T>, drawn: Seq<bool>, part: T)
    requires
        drawn.len() == parts.len(),
    ensures
        marked(parts, drawn).contains(part) <==> exists|i: int|
            0 <= i < parts.len() && drawn[i] && #[trigger] parts[i] == part,
        (forall|i: int| 0 <= i < drawn.len() ==> drawn[i]) ==> marked(parts, drawn) == parts,
        marked(parts, drawn).len() <= parts.len(),
{
    lemma_marked(parts, drawn, part);
}

proof fn lemma_marked<T>(parts: Seq<T>, drawn: Seq<bool>, part: T)
    requires
        drawn.len() >= parts.len(),
    ensures
        marked(parts, drawn).contains(part) <==> exists|i: int|
            0 <= i < parts.len() && drawn[i] && #[trigger] parts[i] == part,
        (forall|i: int| 0 <= i < parts.len() ==> drawn[i]) ==> marked(parts, drawn) == parts,
        marked(parts, drawn).len() <= parts.len(),
    decreases parts.len(),
{
    if parts.len() > 0 {
        let head = parts.drop_last();
        let n = parts.len() - 1;
        lemma_marked(head, drawn, part);
        let before = marked(head, drawn);
        let now = marked(parts, drawn);
        if now.contains(part) {
            let k = choose|k: int| 0 <= k < now.len() && now[k] == part;
            if k < before.len() {
                assert(before[k] == part);
                assert(before.contains(part));
                let i = choose|i: int| 0 <= i < head.len() && drawn[i] && #[trigger] head[i] == part;
                assert(parts[i] == part);
            } else {
                assert(parts[n] == part);
            }
        }
        if exists|i: int| 0 <= i < parts.len() && drawn[i] && #[trigger] parts[i] == part {
            let i = choose|i: int| 0 <= i < parts.len() && drawn[i] && #[trigger] parts[i] == part;
            if i < n {
                assert(head[i] == part);
                assert(before.contains(part));
                let k = choose|k: int| 0 <= k < before.len() && before[k] == part;
                assert(now[k] == part);
            } else {
                assert(now[before.len() as int] == part);
            }
        }
        if forall|i: int| 0 <= i < parts.len() ==> drawn[i] {
            assert(drawn[n]);
            assert(now =~= parts);
        }
    }
}

} // verus!
