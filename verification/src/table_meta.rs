//! What the catalog says of a table and of the indexes over it.

use vstd::prelude::*;

use crate::scalar::TableField;

verus! {

/// What an index is made for.
#[derive(Clone, Copy, Debug, PartialEq, Eq, Structural)]
pub enum TableIndexType {
    Btree,
    Ordered,
    Inverted,
    Ngram,
    Vector,
    Spatial,
}

/// The direction in which the catalog orders a column of an index.
#[derive(Clone, Copy, Debug, PartialEq, Eq, Structural)]
pub enum TableIndexColumnOrder {
    Asc,
    Desc,
}

/// A key column of an index.
#[derive(Clone, Copy, Debug, PartialEq, Eq, Structural)]
pub struct TableIndexColumn {
    pub column_id: u32,
    pub order: TableIndexColumnOrder,
}

/// An index over a table.
#[derive(Debug)]
pub struct TableIndex {
    pub index_type: TableIndexType,
    pub name: String,
    pub version: String,
    pub sync_creation: bool,
    pub column_ids: Vec<u32>,
    /// The key columns; where there are none, the columns of `column_ids` are, ascending.
    pub key_columns: Vec<TableIndexColumn>,
    pub include_column_ids: Vec<u32>,
    pub options: Vec<(String, String)>,
}

/// A table: its columns and its indexes, in the order of their names.
#[derive(Debug)]
pub struct TableMeta {
    pub schema: Vec<TableField>,
    pub indexes: Vec<TableIndex>,
}

/// The key columns of an index.
pub open spec fn key_columns_of(index: TableIndex) -> Seq<TableIndexColumn> {
    if index.key_columns@.len() == 0 {
        Seq::new(
            index.column_ids@.len(),
            |i: int|
                (TableIndexColumn {
                    column_id: index.column_ids@[i],
                    order: TableIndexColumnOrder::Asc,
                }),
        )
    } else {
        index.key_columns@
    }
}

/// The column ids of key columns.
pub open spec fn ids_of(key_columns: Seq<TableIndexColumn>) -> Seq<u32> {
    Seq::new(key_columns.len(), |i: int| key_columns[i].column_id)
}

/// The first field with a column id.
pub open spec fn field_with_id(fields: Seq<TableField>, column_id: u32) -> Option<TableField>
    decreases fields.len(),
{
    if fields.len() == 0 {
        None
    } else if fields[0].column_id == column_id {
        Some(fields[0])
    } else {
        field_with_id(fields.skip(1), column_id)
    }
}

/// The fields that are stored.
pub open spec fn stored_fields(fields: Seq<TableField>) -> Seq<TableField> {
    fields.filter(|field: TableField| !field.virtual_computed)
}

/// The numbers of a sequence, each at its first place only.
pub open spec fn first_places(ids: Seq<u32>) -> Seq<u32>
    decreases ids.len(),
{
    if ids.len() == 0 {
        Seq::empty()
    } else {
        let before = first_places(ids.drop_last());
        if before.contains(ids.last()) {
            before
        } else {
            before.push(ids.last())
        }
    }
}

/// The fields with these column ids, where each has one.
pub open spec fn fields_with_ids(schema: Seq<TableField>, ids: Seq<u32>) -> Option<Seq<TableField>>
    decreases ids.len(),
{
    if ids.len() == 0 {
        Some(Seq::empty())
    } else {
        match (fields_with_ids(schema, ids.drop_last()), field_with_id(schema, ids.last())) {
            (Some(before), Some(field)) => Some(before.push(field)),
            _ => None,
        }
    }
}

/// The fields that the rows of an index hold: all that are stored, or the key columns and then the
/// included ones, each once. There are none where a column is not in the table.
pub open spec fn covered_fields(
    schema: Seq<TableField>,
    key_ids: Seq<u32>,
    include_ids: Seq<u32>,
    covers_all: bool,
) -> Option<Seq<TableField>> {
    if covers_all {
        Some(stored_fields(schema))
    } else {
        fields_with_ids(schema, first_places(key_ids + include_ids))
    }
}

impl TableIndex {
    /// The key columns of the index.
    pub fn effective_key_columns(&self) -> (r: Vec<TableIndexColumn>)
        ensures
            r@ == key_columns_of(*self),
    {
        let mut r: Vec<TableIndexColumn> = Vec::new();
        let mut i: usize = 0;
        if self.key_columns.len() == 0 {
            while i < self.column_ids.len()
                invariant
                    i <= self.column_ids@.len(),
                    self.key_columns@.len() == 0,
                    r@ == key_columns_of(*self).take(i as int),
                decreases self.column_ids@.len() - i,
            {
                let column_id: u32 = self.column_ids[i];
                r.push(TableIndexColumn { column_id, order: TableIndexColumnOrder::Asc });
                assert(r@ =~= key_columns_of(*self).take(i + 1));
                i = i + 1;
            }
        } else {
            while i < self.key_columns.len()
                invariant
                    i <= self.key_columns@.len(),
                    self.key_columns@.len() > 0,
                    r@ == key_columns_of(*self).take(i as int),
                decreases self.key_columns@.len() - i,
            {
                r.push(self.key_columns[i]);
                assert(r@ =~= key_columns_of(*self).take(i + 1));
                i = i + 1;
            }
        }
        assert(r@ =~= key_columns_of(*self));
        r
    }
}

/// Finds the first field with a column id.
pub fn field_of_column_id(fields: &Vec<TableField>, column_id: u32) -> (r: Option<&TableField>)
    ensures
        match r {
            Some(field) => field_with_id(fields@, column_id) == Some(*field),
            None => field_with_id(fields@, column_id) is None,
        },
{
    let mut i: usize = 0;
    assert(fields@.skip(0) =~= fields@);
    while i < fields.len()
        invariant
            i <= fields@.len(),
            field_with_id(fields@, column_id) == field_with_id(fields@.skip(i as int), column_id),
        decreases fields@.len() - i,
    {
        assert(fields@.skip(i as int)[0] == fields@[i as int]);
        if fields[i].column_id == column_id {
            return Some(&fields[i]);
        }
        assert(fields@.skip(i as int).skip(1) =~= fields@.skip(i + 1));
        i = i + 1;
    }
    None
}

/// The fields that are stored.
pub fn remove_virtual_computed_fields(fields: &Vec<TableField>) -> (r: Vec<TableField>)
    ensures
        r@ == stored_fields(fields@),
{
    let mut r: Vec<TableField> = Vec::new();
    let mut i: usize = 0;
    assert(fields@.take(0) =~= Seq::<TableField>::empty());
    reveal(Seq::filter);
    while i < fields.len()
        invariant
            i <= fields@.len(),
            r@ == stored_fields(fields@.take(i as int)),
        decreases fields@.len() - i,
    {
        reveal(Seq::filter);
        let ghost t = fields@.take(i + 1);
        assert(t.drop_last() =~= fields@.take(i as int));
        assert(t.last() == fields@[i as int]);
        if !fields[i].virtual_computed {
            r.push(fields[i].clone());
        }
        i = i + 1;
    }
    assert(fields@.take(fields@.len() as int) =~= fields@);
    r
}

/// What holds for the first ids fails for all once it has failed.
pub proof fn lemma_fields_with_ids_fail(schema: Seq<TableField>, ids: Seq<u32>, n: int)
    requires
        0 <= n <= ids.len(),
        fields_with_ids(schema, ids.take(n)) is None,
    ensures
        fields_with_ids(schema, ids) is None,
    decreases ids.len(),
{
    if n == ids.len() {
        assert(ids.take(n) =~= ids);
    } else {
        assert(ids.drop_last().take(n) =~= ids.take(n));
        lemma_fields_with_ids_fail(schema, ids.drop_last(), n);
    }
}

proof fn lemma_first_places_grow(ids: Seq<u32>, n: int)
    requires
        0 <= n <= ids.len(),
    ensures
        first_places(ids.take(n)).len() <= first_places(ids).len(),
        first_places(ids).take(first_places(ids.take(n)).len() as int) == first_places(
            ids.take(n),
        ),
    decreases ids.len(),
{
    let head = first_places(ids.take(n));
    if n == ids.len() {
        assert(ids.take(n) =~= ids);
        assert(first_places(ids).take(head.len() as int) =~= head);
    } else {
        assert(ids.drop_last().take(n) =~= ids.take(n));
        lemma_first_places_grow(ids.drop_last(), n);
        assert(first_places(ids).take(head.len() as int) =~= first_places(ids.drop_last()).take(
            head.len() as int,
        ));
    }
}

/// Whether an id is among others.
pub fn holds_id(ids: &Vec<u32>, id: u32) -> (r: bool)
    ensures
        r == ids@.contains(id),
{
    let mut i: usize = 0;
    while i < ids.len()
        invariant
            i <= ids@.len(),
            forall|k: int| 0 <= k < i ==> ids@[k] != id,
        decreases ids@.len() - i,
    {
        if ids[i] == id {
            assert(ids@[i as int] == id);
            return true;
        }
        i = i + 1;
    }
    false
}

/// Reads on through `ids`, after those in `done`; says whether each new one has a field.
fn cover_ids(
    schema: &Vec<TableField>,
    ids: &Vec<u32>,
    Ghost(done): Ghost<Seq<u32>>,
    seen: &mut Vec<u32>,
    fields: &mut Vec<TableField>,
) -> (r: bool)
    requires
        old(seen)@ == first_places(done),
        fields_with_ids(schema@, first_places(done)) == Some(old(fields)@),
    ensures
        r ==> final(seen)@ == first_places(done + ids@) && fields_with_ids(
            schema@,
            first_places(done + ids@),
        ) == Some(final(fields)@),
        !r ==> forall|rest: Seq<u32>| #[trigger]
            fields_with_ids(schema@, first_places(done + ids@ + rest)) is None,
{
    let mut i: usize = 0;
    assert(done + ids@.take(0) =~= done);
    while i < ids.len()
        invariant
            i <= ids@.len(),
            seen@ == first_places(done + ids@.take(i as int)),
            fields_with_ids(schema@, seen@) == Some(fields@),
        decreases ids@.len() - i,
    {
        let id: u32 = ids[i];
        let ghost t = done + ids@.take(i + 1);
        assert(t.drop_last() =~= done + ids@.take(i as int));
        assert(t.last() == id);
        if !holds_id(seen, id) {
            match field_of_column_id(schema, id) {
                Some(field) => {
                    let ghost before = seen@;
                    seen.push(id);
                    fields.push(field.clone());
                    assert(seen@.drop_last() =~= before);
                },
                None => {
                    proof {
                        let missing = seen@.push(id);
                        assert(first_places(t) == missing);
                        assert(missing.drop_last() =~= seen@);
                        assert(fields_with_ids(schema@, missing) is None);
                        assert forall|rest: Seq<u32>| #[trigger]
                            fields_with_ids(schema@, first_places(done + ids@ + rest)) is None by {
                            let all = done + ids@ + rest;
                            assert(all.take(t.len() as int) =~= t);
                            lemma_first_places_grow(all, t.len() as int);
                            lemma_fields_with_ids_fail(
                                schema@,
                                first_places(all),
                                missing.len() as int,
                            );
                        }
                    }
                    return false;
                },
            }
        }
        i = i + 1;
    }
    assert(ids@.take(ids@.len() as int) =~= ids@);
    true
}

/// The fields that the rows of an index hold.
pub fn covered_payload_fields(
    schema: &Vec<TableField>,
    key_columns: &Vec<TableIndexColumn>,
    include_column_ids: &Vec<u32>,
    covered_all_columns: bool,
) -> (r: Option<Vec<TableField>>)
    ensures
        match r {
            Some(fields) => covered_fields(
                schema@,
                ids_of(key_columns@),
                include_column_ids@,
                covered_all_columns,
            ) == Some(fields@),
            None => covered_fields(
                schema@,
                ids_of(key_columns@),
                include_column_ids@,
                covered_all_columns,
            ) is None,
        },
{
    if covered_all_columns {
        return Some(remove_virtual_computed_fields(schema));
    }
    let mut key_ids: Vec<u32> = Vec::new();
    let mut i: usize = 0;
    while i < key_columns.len()
        invariant
            i <= key_columns@.len(),
            key_ids@ == ids_of(key_columns@).take(i as int),
        decreases key_columns@.len() - i,
    {
        key_ids.push(key_columns[i].column_id);
        assert(key_ids@ =~= ids_of(key_columns@).take(i + 1));
        i = i + 1;
    }
    assert(key_ids@ =~= ids_of(key_columns@));
    let mut seen: Vec<u32> = Vec::new();
    let mut fields: Vec<TableField> = Vec::new();
    let ghost none = Seq::<u32>::empty();
    assert(first_places(none) =~= none);
    assert(none + key_ids@ =~= key_ids@);
    if !cover_ids(schema, &key_ids, Ghost(none), &mut seen, &mut fields) {
        assert(fields_with_ids(schema@, first_places(none + key_ids@ + include_column_ids@)) is None);
        return None;
    }
    if !cover_ids(schema, include_column_ids, Ghost(key_ids@), &mut seen, &mut fields) {
        assert(fields_with_ids(schema@, first_places(key_ids@ + include_column_ids@ + none)) is None);
        assert(key_ids@ + include_column_ids@ + none =~= key_ids@ + include_column_ids@);
        return None;
    }
    Some(fields)
}

} // verus!
