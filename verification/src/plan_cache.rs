//! When a cached plan of a query may be used again.

use vstd::prelude::*;

use crate::assoc::{keys_ascend, lemma_entries_unique, map_of};
use crate::digest::{digest_text, text_digest};
use crate::scalar::{Scalar, ScalarModel, TableDataType, TableField};
use crate::sort::{arranged, is_permutation, law_sort_ignores_order, lemma_stable_sort_unique,
    lemma_stable_sort_view, sort_stably, stable_sort, Ranked, Sortable};
use crate::text::{append_text, clone_texts, find_property, join_texts, joined_text,
    lemma_text_total, property, sort_texts, text_eq, text_is_before, texts_view};

verus! {

/// The option of a table that says where its snapshot lies.
pub const OPT_KEY_SNAPSHOT_LOCATION: &'static str = "snapshot_location";

/// A query is planned without the name of its user.
#[derive(Clone, Copy, Debug, PartialEq, Eq, Structural)]
pub enum PlanCacheError {
    NoCurrentUser,
}

/// What a plan depends on besides the text of its query.
#[derive(Debug)]
pub struct Planner {
    pub tenant_name: String,
    pub current_catalog: String,
    pub current_database: String,
    /// The user, where the session has one.
    pub current_user: Option<String>,
    pub current_role: Option<String>,
    pub secondary_roles: Option<Vec<String>>,
    /// The settings that were changed, and their values, in any order.
    pub setting_changes: Vec<(String, String)>,
    /// The variables of the session and their values, in any order, none twice.
    pub variables: Vec<(String, Scalar)>,
}

/// The text that separates the parts of a key.
pub open spec fn separator() -> Seq<char> {
    "\0"@
}

/// The key of a plan, by the text that it depends on.
pub open spec fn cache_key(text: Seq<char>) -> Seq<char> {
    text_digest(text)
}

/// The secondary roles, as part of a key: all of them, none, or those that are listed.
pub open spec fn roles_key(secondary_roles: Option<Seq<Seq<char>>>) -> Seq<char> {
    match secondary_roles {
        None => "ALL"@,
        Some(roles) => if roles.len() == 0 {
            "NONE"@
        } else {
            "SOME:"@ + joined_text(roles, ","@)
        },
    }
}

/// The texts of a list, where there is one.
pub open spec fn opt_texts(texts: Option<Vec<String>>) -> Option<Seq<Seq<char>>> {
    match texts {
        Some(texts) => Some(texts_view(texts@)),
        None => None,
    }
}

impl Planner {
    /// The part of a key that tells the tenant, the catalog and the database.
    pub open spec fn context_prefix(self) -> Seq<char> {
        "ctx\0"@ + self.tenant_name@ + separator() + self.current_catalog@ + separator()
            + self.current_database@
    }

    /// The role of the session, or nothing.
    pub open spec fn role_name(self) -> Seq<char> {
        match self.current_role {
            Some(role) => role@,
            None => Seq::empty(),
        }
    }

    /// The secondary roles, sorted.
    pub open spec fn sorted_roles(self) -> Option<Seq<Seq<char>>> {
        match opt_texts(self.secondary_roles) {
            Some(roles) => Some(stable_sort(roles)),
            None => None,
        }
    }

    /// The part of a key that tells who asks.
    pub open spec fn security_prefix(self) -> Result<Seq<char>, PlanCacheError> {
        match self.current_user {
            None => Err(PlanCacheError::NoCurrentUser),
            Some(user) => Ok(
                "secure\0"@ + user@ + separator() + self.role_name() + separator() + roles_key(
                    self.sorted_roles(),
                ),
            ),
        }
    }

    /// The key of the plan of a query. It tells who asks where a security policy is on a table of
    /// the query.
    pub open spec fn statement_key(self, statement: Seq<char>, has_security_policy: bool) -> Result<
        Seq<char>,
        PlanCacheError,
    > {
        if has_security_policy {
            match self.security_prefix() {
                Err(e) => Err(e),
                Ok(prefix) => Ok(
                    cache_key(
                        self.context_prefix() + separator() + prefix + separator() + statement,
                    ),
                ),
            }
        } else {
            Ok(cache_key(self.context_prefix() + separator() + statement))
        }
    }

    /// The key of a plan, by the text that it depends on.
    pub fn planner_cache_key(format_sql: &str) -> (r: String)
        ensures
            r@ == cache_key(format_sql@),
    {
        digest_text(format_sql)
    }

    /// The part of a key that tells the tenant, the catalog and the database.
    pub fn planner_cache_context_prefix(&self) -> (r: String)
        ensures
            r@ == self.context_prefix(),
    {
        let mut r = String::from_str("ctx\0");
        append_text(&mut r, self.tenant_name.as_str());
        append_text(&mut r, "\0");
        append_text(&mut r, self.current_catalog.as_str());
        append_text(&mut r, "\0");
        append_text(&mut r, self.current_database.as_str());
        r
    }

    /// The secondary roles, as part of a key.
    pub fn secondary_roles_cache_key(secondary_roles: Option<&Vec<String>>) -> (r: String)
        ensures
            r@ == roles_key(
                match secondary_roles {
                    Some(roles) => Some(texts_view(roles@)),
                    None => None,
                },
            ),
    {
        match secondary_roles {
            None => String::from_str("ALL"),
            Some(roles) => {
                if roles.len() == 0 {
                    String::from_str("NONE")
                } else {
                    let mut r = String::from_str("SOME:");
                    append_text(&mut r, join_texts(roles, ",").as_str());
                    r
                }
            },
        }
    }

    /// The part of a key that tells who asks.
    pub fn security_policy_cache_key_prefix(&self) -> (r: Result<String, PlanCacheError>)
        ensures
            match r {
                Ok(prefix) => self.security_prefix() == Ok::<_, PlanCacheError>(prefix@),
                Err(e) => self.security_prefix() == Err::<Seq<char>, _>(e),
            },
    {
        let user = match &self.current_user {
            Some(user) => user,
            None => {
                return Err(PlanCacheError::NoCurrentUser);
            },
        };
        let sorted: Option<Vec<String>> = match &self.secondary_roles {
            Some(roles) => Some(sort_texts(clone_texts(roles))),
            None => None,
        };
        let mut r = String::from_str("secure\0");
        append_text(&mut r, user.as_str());
        append_text(&mut r, "\0");
        match &self.current_role {
            Some(role) => {
                append_text(&mut r, role.as_str());
            },
            None => {
                assert(r@ + Seq::<char>::empty() =~= r@);
            },
        }
        append_text(&mut r, "\0");
        append_text(&mut r, Planner::secondary_roles_cache_key(sorted.as_ref()).as_str());
        Ok(r)
    }

    /// The key of the plan of a query.
    pub fn planner_cache_key_for_stmt(&self, statement: &str, has_security_policy: bool) -> (r:
        Result<String, PlanCacheError>)
        ensures
            match r {
                Ok(key) => self.statement_key(statement@, has_security_policy) == Ok::<
                    _,
                    PlanCacheError,
                >(key@),
                Err(e) => self.statement_key(statement@, has_security_policy) == Err::<
                    Seq<char>,
                    _,
                >(e),
            },
    {
        let mut text = self.planner_cache_context_prefix();
        append_text(&mut text, "\0");
        if has_security_policy {
            match self.security_policy_cache_key_prefix() {
                Ok(prefix) => {
                    append_text(&mut text, prefix.as_str());
                },
                Err(e) => {
                    return Err(e);
                },
            }
            append_text(&mut text, "\0");
        }
        append_text(&mut text, statement);
        Ok(Planner::planner_cache_key(text.as_str()))
    }
}

/// The order in which the secondary roles are listed is not part of a key.
pub proof fn law_key_ignores_order_of_roles(
    a: Planner,
    places: Seq<int>,
    b: Planner,
    statement: Seq<char>,
)
    requires
        a.context_prefix() == b.context_prefix(),
        a.current_user == b.current_user,
        a.role_name() == b.role_name(),
        a.secondary_roles is Some,
        b.secondary_roles is Some,
        is_permutation(texts_view(a.secondary_roles->Some_0@), places),
        arranged(
            texts_view(a.secondary_roles->Some_0@),
            places,
            texts_view(b.secondary_roles->Some_0@),
        ),
    ensures
        a.statement_key(statement, true) == b.statement_key(statement, true),
{
    assert forall|x: Seq<char>, y: Seq<char>|
        !(#[trigger] x.ranks_before(y)) && !y.ranks_before(x) implies x == y by {
        lemma_text_total(x, y);
    }
    law_sort_ignores_order(
        texts_view(a.secondary_roles->Some_0@),
        places,
        texts_view(b.secondary_roles->Some_0@),
    );
}

/// The columns that a security policy is on.
#[derive(Debug)]
pub struct SecurityPolicyColumnMap {
    pub policy_id: u64,
    pub columns_ids: Vec<u32>,
}

/// The security policies on a table.
#[derive(Debug)]
pub struct SecurityPolicySnapshot {
    /// The policies that mask columns, in ascending order of the columns.
    pub column_mask_policy_columns_ids: Vec<(u32, SecurityPolicyColumnMap)>,
    pub row_access_policy_columns_ids: Option<SecurityPolicyColumnMap>,
}

/// The model of the columns of a policy.
pub type PolicyModel = (u64, Seq<u32>);

impl View for SecurityPolicyColumnMap {
    type V = PolicyModel;

    open spec fn view(&self) -> PolicyModel {
        (self.policy_id, self.columns_ids@)
    }
}

/// The model of the policies on a table.
pub struct PolicySnapshotModel {
    pub masks: Seq<(u32, PolicyModel)>,
    pub row_access: Option<PolicyModel>,
}

impl View for SecurityPolicySnapshot {
    type V = PolicySnapshotModel;

    open spec fn view(&self) -> PolicySnapshotModel {
        PolicySnapshotModel {
            masks: masks_view(self.column_mask_policy_columns_ids@),
            row_access: match self.row_access_policy_columns_ids {
                Some(policy) => Some(policy@),
                None => None,
            },
        }
    }
}

/// The policies that mask columns.
pub open spec fn masks_view(masks: Seq<(u32, SecurityPolicyColumnMap)>) -> Seq<(u32, PolicyModel)> {
    Seq::new(masks.len(), |i: int| (masks[i].0, masks[i].1@))
}

/// Policies that mask columns, listed in ascending order of the columns, are compared as maps are.
pub proof fn law_masks_compare_as_maps(a: Seq<(u32, PolicyModel)>, b: Seq<(u32, PolicyModel)>)
    requires
        keys_ascend(a),
        keys_ascend(b),
    ensures
        a == b <==> map_of(a) == map_of(b),
{
    if map_of(a) == map_of(b) {
        lemma_entries_unique(a, b);
        assert(a =~= b);
    }
}

impl PolicySnapshotModel {
    /// There is a policy.
    pub open spec fn has_policy(self) -> bool {
        self.masks.len() > 0 || self.row_access is Some
    }
}

fn same_ids(a: &Vec<u32>, b: &Vec<u32>) -> (r: bool)
    ensures
        r == (a@ == b@),
{
    if a.len() != b.len() {
        return false;
    }
    let mut i: usize = 0;
    while i < a.len()
        invariant
            i <= a@.len(),
            a@.len() == b@.len(),
            forall|k: int| 0 <= k < i ==> a@[k] == b@[k],
        decreases a@.len() - i,
    {
        if a[i] != b[i] {
            return false;
        }
        i = i + 1;
    }
    assert(a@ =~= b@);
    true
}

fn copy_ids(ids: &Vec<u32>) -> (r: Vec<u32>)
    ensures
        r@ == ids@,
{
    let mut r: Vec<u32> = Vec::new();
    let mut i: usize = 0;
    while i < ids.len()
        invariant
            i <= ids@.len(),
            r@ == ids@.take(i as int),
        decreases ids@.len() - i,
    {
        r.push(ids[i]);
        assert(r@ =~= ids@.take(i + 1));
        i = i + 1;
    }
    assert(r@ =~= ids@);
    r
}

impl SecurityPolicyColumnMap {
    /// Whether the policies are the same, on the same columns.
    pub fn same(&self, other: &SecurityPolicyColumnMap) -> (r: bool)
        ensures
            r == (self@ == other@),
    {
        self.policy_id == other.policy_id && same_ids(&self.columns_ids, &other.columns_ids)
    }

    /// A copy of the policy.
    pub fn copy(&self) -> (r: SecurityPolicyColumnMap)
        ensures
            r@ == self@,
    {
        SecurityPolicyColumnMap {
            policy_id: self.policy_id,
            columns_ids: copy_ids(&self.columns_ids),
        }
    }
}

impl SecurityPolicySnapshot {
    /// Whether there is a policy.
    pub fn has_policy(&self) -> (r: bool)
        ensures
            r == self@.has_policy(),
    {
        self.column_mask_policy_columns_ids.len() > 0
            || self.row_access_policy_columns_ids.is_some()
    }

    /// Whether the policies are the same.
    pub fn same(&self, other: &SecurityPolicySnapshot) -> (r: bool)
        ensures
            r == (self@ == other@),
    {
        let a = &self.column_mask_policy_columns_ids;
        let b = &other.column_mask_policy_columns_ids;
        if a.len() != b.len() {
            assert(self@.masks.len() != other@.masks.len());
            return false;
        }
        let mut i: usize = 0;
        while i < a.len()
            invariant
                i <= a@.len(),
                a@.len() == b@.len(),
                a@ == self.column_mask_policy_columns_ids@,
                b@ == other.column_mask_policy_columns_ids@,
                forall|k: int| 0 <= k < i ==> self@.masks[k] == other@.masks[k],
            decreases a@.len() - i,
        {
            if a[i].0 != b[i].0 || !a[i].1.same(&b[i].1) {
                assert(self@.masks[i as int] != other@.masks[i as int]);
                return false;
            }
            i = i + 1;
        }
        assert(self@.masks =~= other@.masks);
        match (&self.row_access_policy_columns_ids, &other.row_access_policy_columns_ids) {
            (Some(x), Some(y)) => x.same(y),
            (None, None) => true,
            _ => false,
        }
    }

    /// A copy of the policies.
    pub fn copy(&self) -> (r: SecurityPolicySnapshot)
        ensures
            r@ == self@,
    {
        let a = &self.column_mask_policy_columns_ids;
        let mut masks: Vec<(u32, SecurityPolicyColumnMap)> = Vec::new();
        let mut i: usize = 0;
        while i < a.len()
            invariant
                i <= a@.len(),
                a@ == self.column_mask_policy_columns_ids@,
                masks@.len() == i,
                forall|k: int|
                    0 <= k < i ==> (#[trigger] masks@[k]).0 == a@[k].0 && masks@[k].1@
                        == a@[k].1@,
            decreases a@.len() - i,
        {
            masks.push((a[i].0, a[i].1.copy()));
            i = i + 1;
        }
        assert(masks_view(masks@) =~= self@.masks);
        let row_access: Option<SecurityPolicyColumnMap> = match &self.row_access_policy_columns_ids {
            Some(policy) => Some(policy.copy()),
            None => None,
        };
        SecurityPolicySnapshot {
            column_mask_policy_columns_ids: masks,
            row_access_policy_columns_ids: row_access,
        }
    }
}

/// The schema of a table that a plan depends on.
#[derive(Debug)]
pub struct CachedSchema {
    pub fields: Vec<TableField>,
    /// All else that the schema says, such as the default and computed expressions of its fields,
    /// as the host spells it.
    pub details: String,
}

/// What the catalog says of a table that a plan depends on.
#[derive(Debug)]
pub struct CachedTableMeta {
    pub schema: CachedSchema,
    pub options: Vec<(String, String)>,
    pub security_policy: SecurityPolicySnapshot,
}

/// A table, as the session sees it.
#[derive(Debug)]
pub struct CurrentTable {
    pub is_temp: bool,
    pub is_stage_table: bool,
    pub is_stream: bool,
    pub catalog: String,
    /// The database, where the table has one.
    pub database_name: Option<String>,
    pub name: String,
    pub table_id: u64,
    pub seq: u64,
    pub schema: CachedSchema,
    pub meta: CachedTableMeta,
}

/// The table of a plan, as it was when the plan was made.
#[derive(Debug)]
pub struct TableSnapshot {
    pub catalog_name: String,
    pub database_name: String,
    pub table_name: String,
    pub table_id: u64,
    pub table_seq: u64,
    pub schema: CachedSchema,
    pub snapshot_location: String,
    pub security_policy: SecurityPolicySnapshot,
}

/// The model of a field.
pub type FieldModel = (Seq<char>, TableDataType, u32, bool);

/// The models of fields.
pub open spec fn fields_view(fields: Seq<TableField>) -> Seq<FieldModel> {
    Seq::new(
        fields.len(),
        |i: int|
            (
                fields[i].name@,
                fields[i].data_type,
                fields[i].column_id,
                fields[i].virtual_computed,
            ),
    )
}

impl View for CachedSchema {
    type V = (Seq<FieldModel>, Seq<char>);

    open spec fn view(&self) -> (Seq<FieldModel>, Seq<char>) {
        (fields_view(self.fields@), self.details@)
    }
}

fn same_fields(a: &Vec<TableField>, b: &Vec<TableField>) -> (r: bool)
    ensures
        r == (fields_view(a@) == fields_view(b@)),
{
    if a.len() != b.len() {
        assert(fields_view(a@).len() != fields_view(b@).len());
        return false;
    }
    let mut i: usize = 0;
    while i < a.len()
        invariant
            i <= a@.len(),
            a@.len() == b@.len(),
            forall|k: int| 0 <= k < i ==> fields_view(a@)[k] == fields_view(b@)[k],
        decreases a@.len() - i,
    {
        if !text_eq(a[i].name.as_str(), b[i].name.as_str()) || a[i].data_type != b[i].data_type
            || a[i].column_id != b[i].column_id || a[i].virtual_computed != b[i].virtual_computed {
            assert(fields_view(a@)[i as int] != fields_view(b@)[i as int]);
            return false;
        }
        i = i + 1;
    }
    assert(fields_view(a@) =~= fields_view(b@));
    true
}

impl CachedSchema {
    /// Whether the schemas are equal.
    pub fn same(&self, other: &CachedSchema) -> (r: bool)
        ensures
            r == (self@ == other@),
    {
        same_fields(&self.fields, &other.fields) && text_eq(
            self.details.as_str(),
            other.details.as_str(),
        )
    }

    /// A copy of the schema.
    pub fn copy(&self) -> (r: CachedSchema)
        ensures
            r@ == self@,
    {
        let mut fields: Vec<TableField> = Vec::new();
        let mut i: usize = 0;
        while i < self.fields.len()
            invariant
                i <= self.fields@.len(),
                fields@ == self.fields@.take(i as int),
            decreases self.fields@.len() - i,
        {
            fields.push(self.fields[i].clone());
            assert(fields@ =~= self.fields@.take(i + 1));
            i = i + 1;
        }
        assert(fields@ =~= self.fields@);
        CachedSchema { fields, details: self.details.clone() }
    }
}

/// The catalog says of a table what it said when the plan was made.
pub open spec fn meta_matches(snapshot: TableSnapshot, table_seq: u64, meta: CachedTableMeta) -> bool {
    &&& table_seq == snapshot.table_seq
    &&& meta.schema@ == snapshot.schema@
    &&& property(meta.options@, OPT_KEY_SNAPSHOT_LOCATION@) == Some(snapshot.snapshot_location@)
    &&& meta.security_policy@ == snapshot.security_policy@
}

/// A table is the one of a plan, unchanged.
pub open spec fn table_matches(snapshot: TableSnapshot, table: CurrentTable) -> bool {
    &&& !table.is_temp
    &&& table.catalog@ == snapshot.catalog_name@
    &&& table.database_name matches Some(name) && name@ == snapshot.database_name@
    &&& table.name@ == snapshot.table_name@
    &&& table.table_id == snapshot.table_id
    &&& table.seq == snapshot.table_seq
    &&& table.schema@ == snapshot.schema@
    &&& meta_matches(snapshot, table.seq, table.meta)
}

/// Plans over a table can be cached: its state can be told.
pub open spec fn is_cacheable_table(table: CurrentTable) -> bool {
    &&& !table.is_temp
    &&& !table.is_stage_table
    &&& !table.is_stream
    &&& property(table.meta.options@, OPT_KEY_SNAPSHOT_LOCATION@) is Some
}

/// What is kept of a table.
pub open spec fn is_snapshot_of(
    snapshot: TableSnapshot,
    table: CurrentTable,
    catalog_name: Seq<char>,
    database_name: Seq<char>,
    table_name: Seq<char>,
) -> bool {
    &&& snapshot.catalog_name@ == catalog_name
    &&& snapshot.database_name@ == database_name
    &&& snapshot.table_name@ == table_name
    &&& snapshot.table_id == table.table_id
    &&& snapshot.table_seq == table.seq
    &&& snapshot.schema@ == table.schema@
    &&& property(table.meta.options@, OPT_KEY_SNAPSHOT_LOCATION@) == Some(
        snapshot.snapshot_location@,
    )
    &&& snapshot.security_policy@ == table.meta.security_policy@
}

impl TableSnapshot {
    /// What is kept of a table that a query names, where plans over it can be cached.
    pub fn from_resolved_table(
        table: &CurrentTable,
        catalog_name: String,
        database_name: String,
        table_name: String,
    ) -> (r: Option<TableSnapshot>)
        ensures
            match r {
                Some(snapshot) => is_cacheable_table(*table) && is_snapshot_of(
                    snapshot,
                    *table,
                    catalog_name@,
                    database_name@,
                    table_name@,
                ),
                None => !is_cacheable_table(*table),
            },
    {
        if table.is_temp || table.is_stage_table || table.is_stream {
            return None;
        }
        match find_property(&table.meta.options, OPT_KEY_SNAPSHOT_LOCATION) {
            None => None,
            Some(location) => Some(
                TableSnapshot {
                    catalog_name,
                    database_name,
                    table_name,
                    table_id: table.table_id,
                    table_seq: table.seq,
                    schema: table.schema.copy(),
                    snapshot_location: String::from_str(location),
                    security_policy: table.meta.security_policy.copy(),
                },
            ),
        }
    }

    /// Whether a security policy is on the table.
    pub fn has_security_policy(&self) -> (r: bool)
        ensures
            r == self.security_policy@.has_policy(),
    {
        self.security_policy.has_policy()
    }

    /// Whether the catalog says of the table what it said when the plan was made.
    pub fn matches_table_meta(&self, table_seq: u64, meta: &CachedTableMeta) -> (r: bool)
        ensures
            r == meta_matches(*self, table_seq, *meta),
    {
        if table_seq != self.table_seq || !meta.schema.same(&self.schema) {
            return false;
        }
        match find_property(&meta.options, OPT_KEY_SNAPSHOT_LOCATION) {
            None => false,
            Some(location) => text_eq(location, self.snapshot_location.as_str())
                && meta.security_policy.same(&self.security_policy),
        }
    }

    /// Whether a table is the one of the plan, unchanged.
    pub fn matches_table(&self, table: &CurrentTable) -> (r: bool)
        ensures
            r == table_matches(*self, *table),
    {
        let same_database: bool = match &table.database_name {
            Some(name) => text_eq(name.as_str(), self.database_name.as_str()),
            None => false,
        };
        if table.is_temp || !text_eq(table.catalog.as_str(), self.catalog_name.as_str())
            || !same_database || !text_eq(table.name.as_str(), self.table_name.as_str())
            || table.table_id != self.table_id
            || table.seq != self.table_seq || !table.schema.same(&self.schema) {
            return false;
        }
        self.matches_table_meta(table.seq, &table.meta)
    }
}

/// What was kept of a table, under its own names, matches it as long as it does not change.
pub proof fn law_snapshot_matches_its_table(snapshot: TableSnapshot, table: CurrentTable)
    requires
        is_cacheable_table(table),
        table.database_name is Some,
        table.meta.schema@ == table.schema@,
        is_snapshot_of(
            snapshot,
            table,
            table.catalog@,
            table.database_name->Some_0@,
            table.name@,
        ),
    ensures
        table_matches(snapshot, table),
{
}

/// A table that was written since, whose schema was changed or that other policies are on, is not
/// taken for the one of the plan.
pub proof fn law_changed_table_does_not_match(snapshot: TableSnapshot, table: CurrentTable)
    requires
        table.seq != snapshot.table_seq || property(
            table.meta.options@,
            OPT_KEY_SNAPSHOT_LOCATION@,
        ) != Some(snapshot.snapshot_location@) || table.meta.security_policy@
            != snapshot.security_policy@ || table.schema@ != snapshot.schema@ || table.meta.schema@
            != snapshot.schema@,
    ensures
        !table_matches(snapshot, table),
{
}

/// Every table of a plan is among the tables, unchanged.
pub open spec fn all_matched(snapshots: Seq<TableSnapshot>, tables: Seq<CurrentTable>) -> bool {
    forall|i: int| 0 <= i < snapshots.len() ==> is_matched(#[trigger] snapshots[i], tables)
}

/// The table of a plan is among the tables, unchanged.
pub open spec fn is_matched(snapshot: TableSnapshot, tables: Seq<CurrentTable>) -> bool {
    exists|k: int| 0 <= k < tables.len() && table_matches(snapshot, #[trigger] tables[k])
}

fn any_table_matches(snapshot: &TableSnapshot, tables: &Vec<CurrentTable>) -> (r: bool)
    ensures
        r == is_matched(*snapshot, tables@),
{
    let mut i: usize = 0;
    while i < tables.len()
        invariant
            i <= tables@.len(),
            forall|k: int| 0 <= k < i ==> !table_matches(*snapshot, #[trigger] tables@[k]),
        decreases tables@.len() - i,
    {
        if snapshot.matches_table(&tables[i]) {
            assert(table_matches(*snapshot, tables@[i as int]));
            return true;
        }
        i = i + 1;
    }
    false
}

/// What a plan is cached under.
#[derive(Debug)]
pub struct PlanCacheContext {
    pub cache_key: String,
    pub table_snapshots: Vec<TableSnapshot>,
}

impl PlanCacheContext {
    /// Whether every table of the plan is among the tables, unchanged.
    pub fn matches_snapshots_with_metadata_tables(
        table_snapshots: &Vec<TableSnapshot>,
        tables: &Vec<CurrentTable>,
    ) -> (r: bool)
        ensures
            r == all_matched(table_snapshots@, tables@),
    {
        let mut i: usize = 0;
        while i < table_snapshots.len()
            invariant
                i <= table_snapshots@.len(),
                forall|k: int| 0 <= k < i ==> is_matched(#[trigger] table_snapshots@[k], tables@),
            decreases table_snapshots@.len() - i,
        {
            if !any_table_matches(&table_snapshots[i], tables) {
                assert(!is_matched(table_snapshots@[i as int], tables@));
                return false;
            }
            i = i + 1;
        }
        true
    }

    /// Whether every table of the plan is among the tables, unchanged.
    pub fn matches_metadata_tables(&self, tables: &Vec<CurrentTable>) -> (r: bool)
        ensures
            r == all_matched(self.table_snapshots@, tables@),
    {
        PlanCacheContext::matches_snapshots_with_metadata_tables(&self.table_snapshots, tables)
    }
}

/// A setting that was changed, ordered by its name.
pub struct SettingModel {
    pub name: Seq<char>,
    pub value: Seq<char>,
}

impl Ranked for SettingModel {
    open spec fn ranks_before(self, other: Self) -> bool {
        self.name.ranks_before(other.name)
    }

    proof fn rank_asymmetric(a: Self, b: Self) {
        Seq::<char>::rank_asymmetric(a.name, b.name);
    }

    proof fn rank_negatively_transitive(a: Self, b: Self, c: Self) {
        Seq::<char>::rank_negatively_transitive(a.name, b.name, c.name);
    }
}

impl Ranked for (String, String) {
    open spec fn ranks_before(self, other: Self) -> bool {
        self.0@.ranks_before(other.0@)
    }

    proof fn rank_asymmetric(a: Self, b: Self) {
        Seq::<char>::rank_asymmetric(a.0@, b.0@);
    }

    proof fn rank_negatively_transitive(a: Self, b: Self, c: Self) {
        Seq::<char>::rank_negatively_transitive(a.0@, b.0@, c.0@);
    }
}

impl Sortable for (String, String) {
    fn is_before(&self, other: &Self) -> (r: bool) {
        text_is_before(self.0.as_str(), other.0.as_str())
    }
}

/// The settings that were changed.
pub open spec fn settings_view(settings: Seq<(String, String)>) -> Seq<SettingModel> {
    Seq::new(
        settings.len(),
        |i: int| (SettingModel { name: settings[i].0@, value: settings[i].1@ }),
    )
}

/// The variables of a session.
pub open spec fn variables_view(variables: Seq<(String, Scalar)>) -> Seq<(Seq<char>, ScalarModel)> {
    Seq::new(variables.len(), |i: int| (variables[i].0@, variables[i].1@))
}

/// The host finds values equal as this function does.
pub open spec fn values_equal_by<E: Fn(&Scalar, &Scalar) -> bool>(
    equal: E,
    rule: spec_fn(ScalarModel, ScalarModel) -> bool,
) -> bool {
    forall|a: &Scalar, b: &Scalar, r: bool| #[trigger]
        call_ensures(equal, (a, b), r) ==> r == rule(a@, b@)
}

/// The place of the first variable of this name.
pub open spec fn is_named_at(
    variables: Seq<(Seq<char>, ScalarModel)>,
    name: Seq<char>,
    i: int,
) -> bool {
    &&& 0 <= i < variables.len()
    &&& variables[i].0 == name
    &&& forall|k: int| 0 <= k < i ==> (#[trigger] variables[k]).0 != name
}

/// There is a variable of this name.
pub open spec fn has_variable(variables: Seq<(Seq<char>, ScalarModel)>, name: Seq<char>) -> bool {
    exists|i: int| is_named_at(variables, name, i)
}

/// The value of the variable of this name.
pub open spec fn value_of(
    variables: Seq<(Seq<char>, ScalarModel)>,
    name: Seq<char>,
) -> ScalarModel {
    variables[choose|i: int| is_named_at(variables, name, i)].1
}

/// As many variables, each of which has the name of one of the others.
pub open spec fn same_names(
    a: Seq<(Seq<char>, ScalarModel)>,
    b: Seq<(Seq<char>, ScalarModel)>,
) -> bool {
    a.len() == b.len() && forall|i: int| 0 <= i < a.len() ==> has_variable(b, (#[trigger] a[i]).0)
}

/// The variables have the same names and equal values.
pub open spec fn same_variables(
    a: Seq<(Seq<char>, ScalarModel)>,
    b: Seq<(Seq<char>, ScalarModel)>,
    rule: spec_fn(ScalarModel, ScalarModel) -> bool,
) -> bool {
    same_names(a, b) && forall|i: int|
        0 <= i < a.len() ==> rule((#[trigger] a[i]).1, value_of(b, a[i].0))
}

/// No name is given twice.
pub open spec fn names_differ(variables: Seq<(Seq<char>, ScalarModel)>) -> bool {
    forall|i: int, j: int|
        0 <= i < j < variables.len() ==> (#[trigger] variables[i]).0 != (#[trigger] variables[j]).0
}

/// The values of variables, by their names.
pub open spec fn variable_map(variables: Seq<(Seq<char>, ScalarModel)>) -> Map<
    Seq<char>,
    ScalarModel,
> {
    Map::new(|name: Seq<char>| has_variable(variables, name), |name: Seq<char>|
        value_of(variables, name))
}

proof fn lemma_named_place(variables: Seq<(Seq<char>, ScalarModel)>, name: Seq<char>, i: int)
    requires
        is_named_at(variables, name, i),
    ensures
        has_variable(variables, name),
        value_of(variables, name) == variables[i].1,
{
    let k = choose|k: int| is_named_at(variables, name, k);
    assert(k == i) by {
        if k < i {
            assert(variables[k].0 != name);
        }
        if i < k {
            assert(variables[i].0 != name);
        }
    }
}

proof fn lemma_names_as_set(variables: Seq<(Seq<char>, ScalarModel)>)
    requires
        names_differ(variables),
    ensures
        variable_map(variables).dom().finite(),
        variable_map(variables).dom().len() == variables.len(),
        forall|i: int|
            0 <= i < variables.len() ==> is_named_at(
                variables,
                (#[trigger] variables[i]).0,
                i,
            ),
{
    let names = Seq::new(variables.len(), |i: int| variables[i].0);
    assert forall|i: int| 0 <= i < variables.len() implies is_named_at(
        variables,
        (#[trigger] variables[i]).0,
        i,
    ) by {}
    assert(names.no_duplicates()) by {
        assert forall|i: int, j: int| 0 <= i < names.len() && 0 <= j < names.len() && i != j implies
            names[i] != names[j] by {
            if i < j {
                assert(variables[i].0 != variables[j].0);
            } else {
                assert(variables[j].0 != variables[i].0);
            }
        }
    }
    names.unique_seq_to_set();
    vstd::seq_lib::seq_to_set_is_finite(names);
    assert(variable_map(variables).dom() =~= names.to_set()) by {
        assert forall|name: Seq<char>| names.to_set().contains(name) implies has_variable(
            variables,
            name,
        ) by {
            let i = choose|i: int| 0 <= i < names.len() && names[i] == name;
            assert(is_named_at(variables, variables[i].0, i));
        }
        assert forall|name: Seq<char>| has_variable(
            variables,
            name,
        ) implies #[trigger] names.to_set().contains(name) by {
            let i = choose|i: int| is_named_at(variables, name, i);
            assert(names[i] == name);
        }
    }
}

/// Variables are compared as maps are: by their names, whatever the order that they are listed in.
pub proof fn law_variables_compare_as_maps(
    a: Seq<(Seq<char>, ScalarModel)>,
    b: Seq<(Seq<char>, ScalarModel)>,
    rule: spec_fn(ScalarModel, ScalarModel) -> bool,
)
    requires
        names_differ(a),
        names_differ(b),
    ensures
        same_variables(a, b, rule) <==> (variable_map(a).dom() == variable_map(b).dom() && forall|
            name: Seq<char>,
        | #[trigger]
            variable_map(a).contains_key(name) ==> rule(
                variable_map(a)[name],
                variable_map(b)[name],
            )),
{
    let x = variable_map(a);
    let y = variable_map(b);
    lemma_names_as_set(a);
    lemma_names_as_set(b);
    if same_variables(a, b, rule) {
        assert forall|name: Seq<char>| #[trigger] x.contains_key(name) implies y.contains_key(name)
            && rule(x[name], y[name]) by {
            let i = choose|i: int| is_named_at(a, name, i);
            lemma_named_place(a, name, i);
            assert(has_variable(b, a[i].0));
        }
        assert(x.dom().subset_of(y.dom()));
        vstd::set_lib::lemma_subset_equality(x.dom(), y.dom());
    }
    if x.dom() == y.dom() && forall|name: Seq<char>| #[trigger]
        x.contains_key(name) ==> rule(x[name], y[name]) {
        assert forall|i: int| 0 <= i < a.len() implies has_variable(b, (#[trigger] a[i]).0) && rule(
            a[i].1,
            value_of(b, a[i].0),
        ) by {
            assert(is_named_at(a, a[i].0, i));
            lemma_named_place(a, a[i].0, i);
            assert(x.contains_key(a[i].0));
            assert(y.contains_key(a[i].0));
        }
    }
}

/// A plan and what it was made with.
#[derive(Debug)]
pub struct PlanCacheItem<P> {
    pub plan: P,
    pub table_snapshots: Vec<TableSnapshot>,
    /// The settings that were changed, in the order of their names.
    pub setting_changes: Vec<(String, String)>,
    /// The variables of the session and their values, in any order, none twice.
    pub variables: Vec<(String, Scalar)>,
}

fn same_settings(a: &Vec<(String, String)>, b: &Vec<(String, String)>) -> (r: bool)
    ensures
        r == (settings_view(a@) == settings_view(b@)),
{
    if a.len() != b.len() {
        assert(settings_view(a@).len() != settings_view(b@).len());
        return false;
    }
    let mut i: usize = 0;
    while i < a.len()
        invariant
            i <= a@.len(),
            a@.len() == b@.len(),
            forall|k: int| 0 <= k < i ==> settings_view(a@)[k] == settings_view(b@)[k],
        decreases a@.len() - i,
    {
        if !text_eq(a[i].0.as_str(), b[i].0.as_str()) || !text_eq(a[i].1.as_str(), b[i].1.as_str()) {
            assert(settings_view(a@)[i as int] != settings_view(b@)[i as int]);
            return false;
        }
        i = i + 1;
    }
    assert(settings_view(a@) =~= settings_view(b@));
    true
}

fn find_variable(variables: &Vec<(String, Scalar)>, name: &String) -> (r: Option<usize>)
    ensures
        match r {
            Some(i) => is_named_at(variables_view(variables@), name@, i as int),
            None => !has_variable(variables_view(variables@), name@),
        },
{
    let ghost models = variables_view(variables@);
    let mut i: usize = 0;
    while i < variables.len()
        invariant
            i <= variables@.len(),
            models == variables_view(variables@),
            forall|k: int| 0 <= k < i ==> (#[trigger] models[k]).0 != name@,
        decreases variables@.len() - i,
    {
        if text_eq(variables[i].0.as_str(), name.as_str()) {
            assert(is_named_at(models, name@, i as int));
            return Some(i);
        }
        i = i + 1;
    }
    None
}

fn equal_variables<E: Fn(&Scalar, &Scalar) -> bool>(
    a: &Vec<(String, Scalar)>,
    b: &Vec<(String, Scalar)>,
    equal: &E,
) -> (r: bool)
    requires
        forall|x: &Scalar, y: &Scalar| #[trigger] call_requires(*equal, (x, y)),
    ensures
        r ==> same_names(variables_view(a@), variables_view(b@)),
        forall|rule: spec_fn(ScalarModel, ScalarModel) -> bool| #[trigger]
            values_equal_by(*equal, rule) ==> r == same_variables(
                variables_view(a@),
                variables_view(b@),
                rule,
            ),
{
    let ghost x = variables_view(a@);
    let ghost y = variables_view(b@);
    if a.len() != b.len() {
        return false;
    }
    let mut i: usize = 0;
    while i < a.len()
        invariant
            i <= a@.len(),
            a@.len() == b@.len(),
            x == variables_view(a@),
            y == variables_view(b@),
            forall|x: &Scalar, y: &Scalar| #[trigger] call_requires(*equal, (x, y)),
            forall|k: int| 0 <= k < i ==> has_variable(y, (#[trigger] x[k]).0),
            forall|rule: spec_fn(ScalarModel, ScalarModel) -> bool, k: int|
                #![trigger values_equal_by(*equal, rule), x[k]]
                values_equal_by(*equal, rule) && 0 <= k < i ==> rule(
                    x[k].1,
                    value_of(y, x[k].0),
                ),
        decreases a@.len() - i,
    {
        assert(x[i as int].0 == a@[i as int].0@);
        let same: bool = match find_variable(b, &a[i].0) {
            None => false,
            Some(k) => {
                proof {
                    lemma_named_place(y, x[i as int].0, k as int);
                    assert(y[k as int].1 == b@[k as int].1@);
                }
                equal(&a[i].1, &b[k].1)
            },
        };
        if !same {
            assert forall|rule: spec_fn(ScalarModel, ScalarModel) -> bool| #[trigger]
                values_equal_by(*equal, rule) implies !same_variables(x, y, rule) by {
                assert(!has_variable(y, x[i as int].0) || !rule(
                    x[i as int].1,
                    value_of(y, x[i as int].0),
                ));
            }
            return false;
        }
        i = i + 1;
    }
    true
}

/// What a plan is cached as, and under which key.
pub open spec fn item_made<P>(
    planner: Planner,
    cache_ctx: PlanCacheContext,
    plan: P,
    r: (String, PlanCacheItem<P>),
) -> bool {
    &&& r.0 == cache_ctx.cache_key
    &&& r.1.plan == plan
    &&& r.1.table_snapshots == cache_ctx.table_snapshots
    &&& settings_view(r.1.setting_changes@) == planner.sorted_changes()
    &&& variables_view(r.1.variables@) == variables_view(planner.variables@)
}

/// A cached plan may be used for a query whose tables were looked at.
pub open spec fn may_be_used<P>(
    planner: Planner,
    plan_item: PlanCacheItem<P>,
    table_snapshots: Seq<TableSnapshot>,
    metadata_tables: Option<Seq<CurrentTable>>,
    rule: spec_fn(ScalarModel, ScalarModel) -> bool,
) -> bool {
    &&& planner.sorted_changes() == settings_view(plan_item.setting_changes@)
    &&& same_variables(
        variables_view(planner.variables@),
        variables_view(plan_item.variables@),
        rule,
    )
    &&& metadata_tables matches Some(tables) && all_matched(table_snapshots, tables)
}

impl Planner {
    /// The settings that were changed, in the order of their names.
    pub open spec fn sorted_changes(self) -> Seq<SettingModel> {
        stable_sort(settings_view(self.setting_changes@))
    }

    /// The settings that were changed, in the order of their names.
    pub fn sorted_setting_changes(&self) -> (r: Vec<(String, String)>)
        ensures
            settings_view(r@) == self.sorted_changes(),
    {
        let mut changes: Vec<(String, String)> = Vec::new();
        let mut i: usize = 0;
        while i < self.setting_changes.len()
            invariant
                i <= self.setting_changes@.len(),
                changes@.len() == i,
                forall|k: int|
                    0 <= k < i ==> (#[trigger] changes@[k]).0@ == self.setting_changes@[k].0@
                        && changes@[k].1@ == self.setting_changes@[k].1@,
            decreases self.setting_changes@.len() - i,
        {
            let change = &self.setting_changes[i];
            changes.push((change.0.clone(), change.1.clone()));
            i = i + 1;
        }
        assert(settings_view(changes@) =~= settings_view(self.setting_changes@));
        let ghost unsorted = changes@;
        let sorted = sort_stably(changes);
        proof {
            lemma_stable_sort_view(
                unsorted,
                sorted@,
                settings_view(unsorted),
                settings_view(sorted@),
                |s: (String, String)| (SettingModel { name: s.0@, value: s.1@ }),
            );
            lemma_stable_sort_unique(settings_view(unsorted), settings_view(sorted@));
        }
        sorted
    }

    /// Whether a plan was made with the settings and the variables of this session.
    pub fn plan_cache_item_matches_env<P, E: Fn(&Scalar, &Scalar) -> bool>(
        &self,
        plan_item: &PlanCacheItem<P>,
        equal: &E,
    ) -> (r: bool)
        requires
            forall|x: &Scalar, y: &Scalar| #[trigger] call_requires(*equal, (x, y)),
        ensures
            r ==> self.sorted_changes() == settings_view(plan_item.setting_changes@),
            r ==> same_names(variables_view(self.variables@), variables_view(plan_item.variables@)),
            forall|rule: spec_fn(ScalarModel, ScalarModel) -> bool| #[trigger]
                values_equal_by(*equal, rule) ==> r == (self.sorted_changes() == settings_view(
                    plan_item.setting_changes@,
                ) && same_variables(
                    variables_view(self.variables@),
                    variables_view(plan_item.variables@),
                    rule,
                )),
    {
        same_settings(&self.sorted_setting_changes(), &plan_item.setting_changes)
            && equal_variables(&self.variables, &plan_item.variables, equal)
    }

    /// A plan with what it was made with, to be cached.
    pub fn cache_item<P>(&self, cache_ctx: PlanCacheContext, plan: P) -> (r: (
        String,
        PlanCacheItem<P>,
    ))
        ensures
            item_made(*self, cache_ctx, plan, r),
    {
        let mut variables: Vec<(String, Scalar)> = Vec::new();
        let mut i: usize = 0;
        while i < self.variables.len()
            invariant
                i <= self.variables@.len(),
                variables@.len() == i,
                forall|k: int|
                    0 <= k < i ==> (#[trigger] variables@[k]).0@ == self.variables@[k].0@
                        && variables@[k].1@ == self.variables@[k].1@,
            decreases self.variables@.len() - i,
        {
            let variable = &self.variables[i];
            variables.push((variable.0.clone(), variable.1.clone()));
            i = i + 1;
        }
        assert(variables_view(variables@) =~= variables_view(self.variables@));
        let item = PlanCacheItem {
            plan,
            table_snapshots: cache_ctx.table_snapshots,
            setting_changes: self.sorted_setting_changes(),
            variables,
        };
        (cache_ctx.cache_key, item)
    }

    /// Whether a cached plan may be used for a query whose tables were looked at: it was made with
    /// the same settings and variables, it is the plan of a query, and the tables of the query are
    /// those that it reads.
    ///
    /// `metadata_tables` are the tables that the plan reads, where it is the plan of a query.
    pub fn may_use_cached<P, E: Fn(&Scalar, &Scalar) -> bool>(
        &self,
        plan_item: &PlanCacheItem<P>,
        table_snapshots: &Vec<TableSnapshot>,
        metadata_tables: Option<&Vec<CurrentTable>>,
        equal: &E,
    ) -> (r: bool)
        requires
            forall|x: &Scalar, y: &Scalar| #[trigger] call_requires(*equal, (x, y)),
        ensures
            r ==> self.sorted_changes() == settings_view(plan_item.setting_changes@),
            r ==> same_names(variables_view(self.variables@), variables_view(plan_item.variables@)),
            r ==> metadata_tables is Some && all_matched(
                table_snapshots@,
                metadata_tables->Some_0@,
            ),
            forall|rule: spec_fn(ScalarModel, ScalarModel) -> bool| #[trigger]
                values_equal_by(*equal, rule) ==> r == may_be_used(
                    *self,
                    *plan_item,
                    table_snapshots@,
                    match metadata_tables {
                        Some(tables) => Some(tables@),
                        None => None,
                    },
                    rule,
                ),
    {
        if !self.plan_cache_item_matches_env(plan_item, equal) {
            return false;
        }
        match metadata_tables {
            None => false,
            Some(tables) => PlanCacheContext::matches_snapshots_with_metadata_tables(
                table_snapshots,
                tables,
            ),
        }
    }
}

/// What looking a table up again found.
#[derive(Debug)]
pub enum TableLookup {
    /// The catalog is gone.
    NoCatalog,
    /// No table has the number any more.
    NoMeta,
    /// The table has no name any more.
    NoTable { seq: u64, meta: CachedTableMeta },
    Found { seq: u64, meta: CachedTableMeta, table: CurrentTable },
}

/// The table of a plan is what it was, by its number and by its name.
pub open spec fn is_current(snapshot: TableSnapshot, lookup: TableLookup) -> bool {
    lookup matches TableLookup::Found { seq, meta, table } && meta_matches(snapshot, seq, meta)
        && table_matches(snapshot, table)
}

/// Checks again the tables of a cached plan, one after the other.
#[derive(Debug)]
pub struct CurrentTables {
    pub table_snapshots: Vec<TableSnapshot>,
    pub next: usize,
    /// Whether all tables are what they were, once it is known.
    pub verdict: Option<bool>,
}

/// Where looking the tables of a plan up again begins. A plan over no table is never taken from the
/// cache.
pub open spec fn looks_begin(table_snapshots: Vec<TableSnapshot>, r: CurrentTables) -> bool {
    &&& r.table_snapshots == table_snapshots
    &&& r.next == 0
    &&& r.verdict == if table_snapshots@.len() == 0 {
        Some(false)
    } else {
        None
    }
}

/// What is known once a table was looked up.
pub open spec fn looked_up(
    before: CurrentTables,
    lookup: TableLookup,
    after: CurrentTables,
) -> bool {
    let current = is_current(before.table_snapshots@[before.next as int], lookup);
    &&& after.table_snapshots == before.table_snapshots
    &&& after.next == if current {
        before.next + 1
    } else {
        before.next as int
    }
    &&& after.verdict == if !current {
        Some(false)
    } else if before.next + 1 == before.table_snapshots@.len() {
        Some(true)
    } else {
        None
    }
}

impl CurrentTables {
    /// What was looked up so far is what it was.
    pub open spec fn wf(self) -> bool {
        match self.verdict {
            None => self.next < self.table_snapshots@.len(),
            Some(all_current) => all_current ==> self.next == self.table_snapshots@.len() && self.next
                > 0,
        }
    }

    /// Begins with the first table. A plan over no table is never taken from the cache.
    pub fn start(table_snapshots: Vec<TableSnapshot>) -> (r: CurrentTables)
        ensures
            r.wf(),
            looks_begin(table_snapshots, r),
    {
        let verdict: Option<bool> = if table_snapshots.len() == 0 {
            Some(false)
        } else {
            None
        };
        CurrentTables { table_snapshots, next: 0, verdict }
    }

    /// The table to look up.
    pub fn wanted(&self) -> (r: &TableSnapshot)
        requires
            self.wf(),
            self.verdict is None,
        ensures
            *r == self.table_snapshots@[self.next as int],
    {
        &self.table_snapshots[self.next]
    }

    /// Takes what looking the table up found.
    pub fn accept(&mut self, lookup: &TableLookup)
        requires
            old(self).wf(),
            old(self).verdict is None,
        ensures
            final(self).wf(),
            looked_up(*old(self), *lookup, *final(self)),
    {
        let current: bool = match lookup {
            TableLookup::Found { seq, meta, table } => {
                let snapshot = &self.table_snapshots[self.next];
                snapshot.matches_table_meta(*seq, meta) && snapshot.matches_table(table)
            },
            _ => false,
        };
        if !current {
            self.verdict = Some(false);
            return;
        }
        assert(self.next < self.table_snapshots.len());
        self.next = self.next + 1;
        if self.next == self.table_snapshots.len() {
            self.verdict = Some(true);
        }
    }
}

/// What a walk over a query gathers for the cache.
#[derive(Debug)]
pub struct TableRefVisitor {
    pub table_snapshots: Vec<TableSnapshot>,
    /// The plan cannot be cached.
    pub cache_miss: bool,
    pub has_security_policy: bool,
}

/// A table that a query names, with the names resolved, and the table where it was found.
#[derive(Debug)]
pub struct TableReference {
    pub catalog_name: String,
    pub database_name: String,
    pub table_name: String,
    /// The query asks for the table as it was.
    pub temporal: bool,
    pub with_options: bool,
    pub resolved: Option<CurrentTable>,
}

/// Plans over a table that a query names can be cached.
pub open spec fn is_cacheable_reference(reference: TableReference) -> bool {
    &&& !reference.temporal
    &&& !reference.with_options
    &&& reference.resolved matches Some(table) && is_cacheable_table(table)
}

/// What the plan of a statement is cached under, by what a walk over it gathered.
pub open spec fn context_made(
    planner: Planner,
    is_query: bool,
    enable_planner_cache: bool,
    statement: Seq<char>,
    visitor: TableRefVisitor,
    r: Result<Option<PlanCacheContext>, PlanCacheError>,
) -> bool {
    let cacheable = is_query && enable_planner_cache && !visitor.cache_miss
        && visitor.table_snapshots@.len() > 0;
    let key = planner.statement_key(statement, visitor.has_security_policy);
    match r {
        Ok(Some(context)) => cacheable && key == Ok::<_, PlanCacheError>(context.cache_key@)
            && context.table_snapshots == visitor.table_snapshots,
        Ok(None) => !cacheable,
        Err(e) => cacheable && key == Err::<Seq<char>, _>(e),
    }
}

/// What a walk has gathered once it met a call of a function.
pub open spec fn met_function_call(
    before: TableRefVisitor,
    is_cacheable: bool,
    after: TableRefVisitor,
) -> bool {
    &&& after.table_snapshots == before.table_snapshots
    &&& after.has_security_policy == before.has_security_policy
    &&& after.cache_miss == (before.cache_miss || !is_cacheable)
}

/// What a walk has gathered once it met a table.
pub open spec fn met_table(
    before: TableRefVisitor,
    reference: TableReference,
    after: TableRefVisitor,
) -> bool {
    &&& after.cache_miss == (before.cache_miss || !is_cacheable_reference(reference))
    &&& after.cache_miss ==> after.table_snapshots == before.table_snapshots
        && after.has_security_policy == before.has_security_policy
    &&& !after.cache_miss ==> {
        &&& after.table_snapshots@.len() == before.table_snapshots@.len() + 1
        &&& after.table_snapshots@.drop_last() == before.table_snapshots@
        &&& is_snapshot_of(
            after.table_snapshots@.last(),
            reference.resolved->Some_0,
            reference.catalog_name@,
            reference.database_name@,
            reference.table_name@,
        )
        &&& after.has_security_policy == (before.has_security_policy
            || reference.resolved->Some_0.meta.security_policy@.has_policy())
    }
}

/// The catalog and the database of a table that a query names.
pub open spec fn names_completed(
    planner: Planner,
    catalog: Option<String>,
    database: Option<String>,
    r: (String, String),
) -> bool {
    &&& r.0@ == (match catalog {
        Some(name) => name@,
        None => planner.current_catalog@,
    })
    &&& r.1@ == (match database {
        Some(name) => name@,
        None => planner.current_database@,
    })
}

/// The key under which the plan of a statement may be looked up before its tables were looked at.
pub open spec fn lookup_key_made(
    planner: Planner,
    is_query: bool,
    enable_planner_cache: bool,
    statement: Seq<char>,
    r: Option<String>,
) -> bool {
    match r {
        Some(key) => is_query && enable_planner_cache && planner.statement_key(statement, false)
            == Ok::<_, PlanCacheError>(key@),
        None => !is_query || !enable_planner_cache,
    }
}

impl TableRefVisitor {
    /// Begins a walk.
    pub fn new() -> (r: TableRefVisitor)
        ensures
            r.table_snapshots@.len() == 0,
            !r.cache_miss,
            !r.has_security_policy,
    {
        TableRefVisitor { table_snapshots: Vec::new(), cache_miss: false, has_security_policy: false }
    }

    /// Meets a call of a function; `is_cacheable` says whether a plan with it can be cached.
    pub fn enter_function_call(&mut self, is_cacheable: bool)
        ensures
            met_function_call(*old(self), is_cacheable, *final(self)),
    {
        if self.cache_miss {
            return;
        }
        if !is_cacheable {
            self.cache_miss = true;
        }
    }

    /// Meets a table.
    pub fn enter_table_reference(&mut self, reference: &TableReference)
        ensures
            met_table(*old(self), *reference, *final(self)),
    {
        if self.cache_miss {
            return;
        }
        if reference.temporal || reference.with_options {
            self.cache_miss = true;
            return;
        }
        let ghost before = self.table_snapshots@;
        match &reference.resolved {
            Some(table) => {
                match TableSnapshot::from_resolved_table(
                    table,
                    reference.catalog_name.clone(),
                    reference.database_name.clone(),
                    reference.table_name.clone(),
                ) {
                    Some(snapshot) => {
                        if snapshot.has_security_policy() {
                            self.has_security_policy = true;
                        }
                        self.table_snapshots.push(snapshot);
                        assert(self.table_snapshots@.drop_last() =~= before);
                        return;
                    },
                    None => {},
                }
            },
            None => {},
        }
        self.cache_miss = true;
    }
}

impl Planner {
    /// The catalog and the database of a table that a query names: those that it names, else the
    /// current ones.
    pub fn reference_names(&self, catalog: Option<String>, database: Option<String>) -> (r: (
        String,
        String,
    ))
        ensures
            names_completed(*self, catalog, database, r),
    {
        let catalog_name = match catalog {
            Some(name) => name,
            None => self.current_catalog.clone(),
        };
        let database_name = match database {
            Some(name) => name,
            None => self.current_database.clone(),
        };
        (catalog_name, database_name)
    }

    /// What the plan of a statement is cached under, where it can be: the statement is a query, the
    /// cache is on, nothing in the query forbids it and the query reads a table.
    pub fn build_plan_cache_context(
        &self,
        is_query: bool,
        enable_planner_cache: bool,
        statement: &str,
        visitor: TableRefVisitor,
    ) -> (r: Result<Option<PlanCacheContext>, PlanCacheError>)
        ensures
            context_made(*self, is_query, enable_planner_cache, statement@, visitor, r),
    {
        if !is_query || !enable_planner_cache {
            return Ok(None);
        }
        if visitor.cache_miss || visitor.table_snapshots.len() == 0 {
            return Ok(None);
        }
        match self.planner_cache_key_for_stmt(statement, visitor.has_security_policy) {
            Ok(cache_key) => Ok(
                Some(PlanCacheContext { cache_key, table_snapshots: visitor.table_snapshots }),
            ),
            Err(e) => Err(e),
        }
    }

    /// The key under which the plan of a statement may be looked up before its tables were looked
    /// at, where it may.
    pub fn lookup_key_for_stmt(
        &self,
        is_query: bool,
        enable_planner_cache: bool,
        statement: &str,
    ) -> (r: Option<String>)
        ensures
            lookup_key_made(*self, is_query, enable_planner_cache, statement@, r),
    {
        if !is_query || !enable_planner_cache {
            return None;
        }
        match self.planner_cache_key_for_stmt(statement, false) {
            Ok(key) => Some(key),
            Err(_) => None,
        }
    }
}

} // verus!
