//! When a cached plan is used again.

use vstd::prelude::*;

use crate::plan_cache::{context_made, fields_view, has_variable, is_current, is_matched,
    is_named_at, item_made, lookup_key_made, looked_up, looks_begin, masks_view, may_be_used, names_completed,
    settings_view, table_matches, value_of, variables_view, CachedSchema, CurrentTable,
    CurrentTables, PlanCacheContext, PlanCacheError, PlanCacheItem, Planner,
    SecurityPolicySnapshot, TableLookup, TableRefVisitor, TableSnapshot};
use crate::scalar::{Scalar, ScalarModel};
use crate::sort::{lemma_stable_sort_exists, lemma_stable_sort_items, stable_sort};

verus! {

/// Schemas that are taken for equal have the same fields, in the same order and with the same names,
/// types and numbers, and say the same besides.
pub proof fn law_equal_schemas_have_the_same_fields(a: CachedSchema, b: CachedSchema, i: int)
    requires
        a@ == b@,
    ensures
        a.fields@.len() == b.fields@.len(),
        a.details@ == b.details@,
        0 <= i < a.fields@.len() ==> {
            let x = a.fields@[i];
            let y = b.fields@[i];
            &&& x.name@ == y.name@
            &&& x.data_type == y.data_type
            &&& x.column_id == y.column_id
            &&& x.virtual_computed == y.virtual_computed
        },
{
    let x = fields_view(a.fields@);
    let y = fields_view(b.fields@);
    assert(x == y);
    assert(x.len() == a.fields@.len() && y.len() == b.fields@.len());
    if 0 <= i < a.fields@.len() {
        assert(x[i] == y[i]);
    }
}

/// Security policies that are taken for equal mask the same columns by the same policies, and have
/// the same row access policy, over the same columns.
pub proof fn law_equal_policies_guard_the_same(
    a: SecurityPolicySnapshot,
    b: SecurityPolicySnapshot,
    i: int,
)
    requires
        a@ == b@,
    ensures
        ({
            let x = a.column_mask_policy_columns_ids@;
            let y = b.column_mask_policy_columns_ids@;
            &&& x.len() == y.len()
            &&& 0 <= i < x.len() ==> x[i].0 == y[i].0 && x[i].1.policy_id == y[i].1.policy_id
                && x[i].1.columns_ids@ == y[i].1.columns_ids@
        }),
        a.row_access_policy_columns_ids is Some <==> b.row_access_policy_columns_ids is Some,
        a.row_access_policy_columns_ids matches Some(x) ==> {
            let y = b.row_access_policy_columns_ids->Some_0;
            x.policy_id == y.policy_id && x.columns_ids@ == y.columns_ids@
        },
{
    let x = masks_view(a.column_mask_policy_columns_ids@);
    let y = masks_view(b.column_mask_policy_columns_ids@);
    assert(x == y);
    assert(x.len() == a.column_mask_policy_columns_ids@.len());
    assert(y.len() == b.column_mask_policy_columns_ids@.len());
    if 0 <= i < a.column_mask_policy_columns_ids@.len() {
        assert(x[i] == y[i]);
    }
}

/// The setting was changed to this value.
pub open spec fn is_set(settings: Seq<(String, String)>, name: Seq<char>, value: Seq<char>) -> bool {
    exists|i: int|
        0 <= i < settings.len() && (#[trigger] settings[i]).0@ == name && settings[i].1@ == value
}

proof fn lemma_setting_listed(
    a: Seq<(String, String)>,
    b: Seq<(String, String)>,
    name: Seq<char>,
    value: Seq<char>,
)
    requires
        stable_sort(settings_view(a)) == stable_sort(settings_view(b)),
        is_set(a, name, value),
    ensures
        is_set(b, name, value),
{
    let i = choose|i: int|
        0 <= i < a.len() && (#[trigger] a[i]).0@ == name && a[i].1@ == value;
    let x = settings_view(a);
    let y = settings_view(b);
    let sorted = stable_sort(x);
    lemma_stable_sort_exists(x);
    lemma_stable_sort_exists(y);
    assert(x.contains(x[i]));
    lemma_stable_sort_items(x, sorted, x[i]);
    lemma_stable_sort_items(y, sorted, x[i]);
    let k = choose|k: int| 0 <= k < y.len() && y[k] == x[i];
    assert(b[k].0@ == name && b[k].1@ == value);
}

/// A cached plan is used only in a session that changed the same settings to the same values as the
/// one that it was made in.
pub proof fn law_used_plan_was_made_with_the_same_settings<P>(
    maker: Planner,
    cache_ctx: PlanCacheContext,
    plan: P,
    made: (String, PlanCacheItem<P>),
    user: Planner,
    table_snapshots: Seq<TableSnapshot>,
    metadata_tables: Option<Seq<CurrentTable>>,
    rule: spec_fn(ScalarModel, ScalarModel) -> bool,
    name: Seq<char>,
    value: Seq<char>,
)
    requires
        item_made(maker, cache_ctx, plan, made),
        may_be_used(user, made.1, table_snapshots, metadata_tables, rule),
    ensures
        made.1.plan == plan,
        made.0 == cache_ctx.cache_key,
        made.1.table_snapshots == cache_ctx.table_snapshots,
        is_set(user.setting_changes@, name, value) <==> is_set(
            maker.setting_changes@,
            name,
            value,
        ),
{
    if is_set(user.setting_changes@, name, value) {
        lemma_setting_listed(user.setting_changes@, maker.setting_changes@, name, value);
    }
    if is_set(maker.setting_changes@, name, value) {
        lemma_setting_listed(maker.setting_changes@, user.setting_changes@, name, value);
    }
}

/// A variable of this name has an equal value.
pub open spec fn has_equal_variable(
    variables: Seq<(String, Scalar)>,
    name: Seq<char>,
    value: ScalarModel,
    rule: spec_fn(ScalarModel, ScalarModel) -> bool,
) -> bool {
    exists|k: int|
        0 <= k < variables.len() && (#[trigger] variables[k]).0@ == name && rule(
            value,
            variables[k].1@,
        )
}

/// A cached plan is used only in a session that has as many variables as the one that it was made in,
/// each with the name of one of those and, as the host finds, the same value.
pub proof fn law_used_plan_was_made_with_the_same_variables<P>(
    maker: Planner,
    cache_ctx: PlanCacheContext,
    plan: P,
    made: (String, PlanCacheItem<P>),
    user: Planner,
    table_snapshots: Seq<TableSnapshot>,
    metadata_tables: Option<Seq<CurrentTable>>,
    rule: spec_fn(ScalarModel, ScalarModel) -> bool,
    i: int,
)
    requires
        item_made(maker, cache_ctx, plan, made),
        may_be_used(user, made.1, table_snapshots, metadata_tables, rule),
        0 <= i < user.variables@.len(),
    ensures
        maker.variables@.len() == user.variables@.len(),
        has_equal_variable(
            maker.variables@,
            user.variables@[i].0@,
            user.variables@[i].1@,
            rule,
        ),
{
    let a = variables_view(user.variables@);
    let b = variables_view(made.1.variables@);
    assert(b == variables_view(maker.variables@));
    assert(a[i].0 == user.variables@[i].0@);
    assert(has_variable(b, a[i].0));
    let k = choose|k: int| is_named_at(b, a[i].0, k);
    assert(value_of(b, a[i].0) == b[k].1);
    assert(maker.variables@[k].0@ == b[k].0 && maker.variables@[k].1@ == b[k].1);
}

/// A cached plan is used only for a query, and only where each table that was looked at is one of
/// those that the plan reads, with the number, the state, the schema and the policies that it had.
pub proof fn law_used_plan_reads_unchanged_tables<P>(
    user: Planner,
    item: PlanCacheItem<P>,
    table_snapshots: Seq<TableSnapshot>,
    metadata_tables: Option<Seq<CurrentTable>>,
    rule: spec_fn(ScalarModel, ScalarModel) -> bool,
    i: int,
)
    requires
        may_be_used(user, item, table_snapshots, metadata_tables, rule),
        0 <= i < table_snapshots.len(),
    ensures
        metadata_tables is Some,
        exists|k: int|
            0 <= k < metadata_tables->Some_0.len() && ({
                let table = #[trigger] metadata_tables->Some_0[k];
                let snapshot = table_snapshots[i];
                &&& !table.is_temp
                &&& table.table_id == snapshot.table_id
                &&& table.seq == snapshot.table_seq
                &&& table.name@ == snapshot.table_name@
                &&& table.schema@ == snapshot.schema@
                &&& table.meta.security_policy@ == snapshot.security_policy@
            }),
{
    let tables = metadata_tables->Some_0;
    assert(is_matched(table_snapshots[i], tables));
    let k = choose|k: int|
        0 <= k < tables.len() && table_matches(table_snapshots[i], #[trigger] tables[k]);
    assert(tables[k].table_id == table_snapshots[i].table_id);
}

/// Looking tables up, one after the other.
pub open spec fn is_looked_up(
    table_snapshots: Vec<TableSnapshot>,
    lookups: Seq<TableLookup>,
    states: Seq<CurrentTables>,
) -> bool {
    &&& states.len() == lookups.len() + 1
    &&& looks_begin(table_snapshots, states[0])
    &&& forall|i: int|
        0 <= i < lookups.len() ==> states[i].verdict is None && looked_up(
            states[i],
            #[trigger] lookups[i],
            states[i + 1],
        )
}

proof fn lemma_looked_up_so_far(
    table_snapshots: Vec<TableSnapshot>,
    lookups: Seq<TableLookup>,
    states: Seq<CurrentTables>,
    n: int,
)
    requires
        is_looked_up(table_snapshots, lookups, states),
        0 <= n <= lookups.len(),
        states[n].verdict != Some(false),
    ensures
        states[n].table_snapshots == table_snapshots,
        states[n].next == n,
        states[n].verdict == Some(true) <==> n == table_snapshots@.len(),
        forall|i: int|
            0 <= i < n ==> is_current(#[trigger] table_snapshots@[i], lookups[i]),
    decreases n,
{
    if n > 0 {
        let lookup = lookups[n - 1];
        lemma_looked_up_so_far(table_snapshots, lookups, states, n - 1);
        assert forall|i: int| 0 <= i < n implies is_current(
            #[trigger] table_snapshots@[i],
            lookups[i],
        ) by {
            if i == n - 1 {
                assert(is_current(table_snapshots@[n - 1], lookups[n - 1]));
            }
        }
    }
}

/// Looking the tables of a plan up again ends well exactly where there is one at least and each was
/// found as it was. It ends badly at the first that was not, and for a plan over no table.
pub proof fn law_tables_are_current_where_each_is(
    table_snapshots: Vec<TableSnapshot>,
    lookups: Seq<TableLookup>,
    states: Seq<CurrentTables>,
)
    requires
        is_looked_up(table_snapshots, lookups, states),
    ensures
        states.last().verdict == Some(true) ==> {
            &&& table_snapshots@.len() > 0
            &&& lookups.len() == table_snapshots@.len()
            &&& forall|i: int|
                0 <= i < lookups.len() ==> is_current(#[trigger] table_snapshots@[i], lookups[i])
        },
        states.last().verdict == Some(false) ==> table_snapshots@.len() == 0 || (lookups.len() > 0
            && !is_current(table_snapshots@[lookups.len() - 1], lookups.last()) && forall|i: int|
            0 <= i < lookups.len() - 1 ==> is_current(
                #[trigger] table_snapshots@[i],
                lookups[i],
            )),
        states.last().verdict is None ==> lookups.len() < table_snapshots@.len(),
{
    let n = lookups.len() as int;
    assert(states.last() == states[n]);
    if states[n].verdict != Some(false) {
        lemma_looked_up_so_far(table_snapshots, lookups, states, n);
        if n == 0 {
            assert(table_snapshots@.len() > 0);
        }
        if states[n].verdict is None {
            lemma_never_past(table_snapshots, lookups, states, n);
        }
    } else if n > 0 {
        let lookup = lookups[n - 1];
        lemma_looked_up_so_far(table_snapshots, lookups, states, n - 1);
    }
}

proof fn lemma_never_past(
    table_snapshots: Vec<TableSnapshot>,
    lookups: Seq<TableLookup>,
    states: Seq<CurrentTables>,
    n: int,
)
    requires
        is_looked_up(table_snapshots, lookups, states),
        0 <= n <= lookups.len(),
        states[n].verdict is None,
    ensures
        n < table_snapshots@.len(),
    decreases n,
{
    if n > 0 {
        let lookup = lookups[n - 1];
        lemma_never_past(table_snapshots, lookups, states, n - 1);
        lemma_looked_up_so_far(table_snapshots, lookups, states, n);
        lemma_looked_up_so_far(table_snapshots, lookups, states, n - 1);
    }
}

/// A table that is named with the current catalog and database is that which is named without; and
/// names that are given are kept.
pub proof fn law_names_are_completed_by_the_current_ones(
    planner: Planner,
    catalog: String,
    database: String,
    named: (String, String),
    unnamed: (String, String),
    half: (String, String),
)
    requires
        names_completed(planner, Some(catalog), Some(database), named),
        names_completed(planner, None, None, unnamed),
        names_completed(planner, None, Some(database), half),
    ensures
        named.0@ == catalog@,
        named.1@ == database@,
        half.0@ == unnamed.0@,
        half.1@ == database@,
        catalog@ == planner.current_catalog@ <==> named.0@ == unnamed.0@,
        database@ == planner.current_database@ <==> named.1@ == unnamed.1@,
{
}

/// A plan over tables without security policies is looked up under the key that it was cached under,
/// whatever the tables are; and where nothing is looked up nothing is cached.
pub proof fn law_plan_is_looked_up_under_its_key(
    planner: Planner,
    is_query: bool,
    enable_planner_cache: bool,
    statement: Seq<char>,
    visitor: TableRefVisitor,
    made: Result<Option<PlanCacheContext>, PlanCacheError>,
    key: Option<String>,
)
    requires
        context_made(planner, is_query, enable_planner_cache, statement, visitor, made),
        lookup_key_made(planner, is_query, enable_planner_cache, statement, key),
        !visitor.has_security_policy,
    ensures
        made matches Ok(Some(context)) ==> (key matches Some(key) && key@ == context.cache_key@),
        key is None ==> made == Ok::<Option<PlanCacheContext>, PlanCacheError>(None),
        key is Some <==> is_query && enable_planner_cache,
{
}

} // verus!
