//! What the key of a cached plan tells, and when a cached plan is used again.

use vstd::prelude::*;

use crate::digest::text_digest;
use crate::plan_cache::{context_made, is_current, met_function_call, met_table, opt_texts, roles_key,
    separator, table_matches, CurrentTable, PlanCacheContext, PlanCacheError, Planner, TableLookup,
    TableRefVisitor, TableReference, TableSnapshot, OPT_KEY_SNAPSHOT_LOCATION};
use crate::sort::{lemma_stable_sort_exists, lemma_stable_sort_items, lemma_stable_sort_sorted,
    stable_sort, Ranked};
use crate::text::{joined_text, property};

verus! {

/// The text does not have the character.
pub open spec fn lacks(text: Seq<char>, c: char) -> bool {
    forall|i: int| 0 <= i < text.len() ==> #[trigger] text[i] != c
}

/// None of the texts has the character.
pub open spec fn all_lack(texts: Seq<Seq<char>>, c: char) -> bool {
    forall|i: int| 0 <= i < texts.len() ==> lacks(#[trigger] texts[i], c)
}

pub proof fn lemma_split_first(a: Seq<char>, x: Seq<char>, b: Seq<char>, y: Seq<char>, c: char)
    requires
        lacks(a, c),
        lacks(b, c),
        a + seq![c] + x == b + seq![c] + y,
    ensures
        a == b,
        x == y,
{
    let s = a + seq![c] + x;
    let t = b + seq![c] + y;
    assert(s[a.len() as int] == c);
    assert(t[b.len() as int] == c);
    if a.len() < b.len() {
        assert(t[a.len() as int] == b[a.len() as int]);
    } else if b.len() < a.len() {
        assert(s[b.len() as int] == a[b.len() as int]);
    } else {
        assert(a =~= s.take(a.len() as int));
        assert(b =~= t.take(a.len() as int));
        assert(x =~= s.skip(a.len() as int + 1));
        assert(y =~= t.skip(a.len() as int + 1));
    }
}

pub proof fn lemma_split_last(a: Seq<char>, x: Seq<char>, b: Seq<char>, y: Seq<char>, c: char)
    requires
        lacks(x, c),
        lacks(y, c),
        a + seq![c] + x == b + seq![c] + y,
    ensures
        a == b,
        x == y,
{
    let s = a + seq![c] + x;
    let t = b + seq![c] + y;
    assert(s[a.len() as int] == c);
    assert(t[b.len() as int] == c);
    assert(s.len() == a.len() + 1 + x.len() && t.len() == b.len() + 1 + y.len());
    if a.len() < b.len() {
        assert(s[b.len() as int] == x[b.len() - a.len() - 1]);
    } else if b.len() < a.len() {
        assert(t[a.len() as int] == y[a.len() - b.len() - 1]);
    } else {
        assert(a =~= s.take(a.len() as int));
        assert(b =~= t.take(a.len() as int));
        assert(x =~= s.skip(a.len() as int + 1));
        assert(y =~= t.skip(a.len() as int + 1));
    }
}

proof fn lemma_drop_head(head: Seq<char>, x: Seq<char>, y: Seq<char>)
    requires
        head + x == head + y,
    ensures
        x == y,
{
    assert(x =~= (head + x).skip(head.len() as int));
    assert(y =~= (head + y).skip(head.len() as int));
}

/// Texts that lack the character between them come back out of the text that they are joined to.
pub proof fn lemma_joined_tells(a: Seq<Seq<char>>, b: Seq<Seq<char>>, c: char)
    requires
        a.len() > 0,
        b.len() > 0,
        all_lack(a, c),
        all_lack(b, c),
        joined_text(a, seq![c]) == joined_text(b, seq![c]),
    ensures
        a == b,
    decreases a.len(),
{
    assert(lacks(a[a.len() - 1], c));
    assert(lacks(b[b.len() - 1], c));
    if a.len() == 1 && b.len() == 1 {
        assert(a =~= b);
    } else if a.len() == 1 {
        let head = joined_text(b.drop_last(), seq![c]);
        assert(joined_text(b, seq![c])[head.len() as int] == c);
    } else if b.len() == 1 {
        let head = joined_text(a.drop_last(), seq![c]);
        assert(joined_text(a, seq![c])[head.len() as int] == c);
    } else {
        let p = a.drop_last();
        let q = b.drop_last();
        lemma_split_last(
            joined_text(p, seq![c]),
            a.last(),
            joined_text(q, seq![c]),
            b.last(),
            c,
        );
        assert forall|i: int| 0 <= i < p.len() implies lacks(#[trigger] p[i], c) by {
            assert(p[i] == a[i]);
        }
        assert forall|i: int| 0 <= i < q.len() implies lacks(#[trigger] q[i], c) by {
            assert(q[i] == b[i]);
        }
        lemma_joined_tells(p, q, c);
        assert(a =~= p.push(a.last()));
        assert(b =~= q.push(b.last()));
    }
}

proof fn lemma_joined_lacks(texts: Seq<Seq<char>>, separator: Seq<char>, c: char)
    requires
        all_lack(texts, c),
        lacks(separator, c),
    ensures
        lacks(joined_text(texts, separator), c),
    decreases texts.len(),
{
    if texts.len() > 1 {
        let head = texts.drop_last();
        assert forall|i: int| 0 <= i < head.len() implies lacks(#[trigger] head[i], c) by {
            assert(head[i] == texts[i]);
        }
        lemma_joined_lacks(head, separator, c);
        assert(lacks(texts[texts.len() - 1], c));
    } else if texts.len() == 1 {
        assert(lacks(texts[0], c));
    }
}

/// The lists hold the same texts, in any order.
pub open spec fn same_texts(a: Seq<Seq<char>>, b: Seq<Seq<char>>) -> bool {
    a.len() == b.len() && forall|text: Seq<char>| #[trigger] a.contains(text) == b.contains(text)
}

/// The secondary roles are the same: all, or the same ones.
pub open spec fn same_roles(a: Option<Seq<Seq<char>>>, b: Option<Seq<Seq<char>>>) -> bool {
    match (a, b) {
        (None, None) => true,
        (Some(a), Some(b)) => same_texts(a, b),
        _ => false,
    }
}

/// The names of a session have none of the characters that separate the parts of a key.
pub open spec fn has_plain_names(planner: Planner) -> bool {
    &&& lacks(planner.tenant_name@, '\0')
    &&& lacks(planner.current_catalog@, '\0')
    &&& lacks(planner.current_database@, '\0')
    &&& planner.current_user matches Some(user) ==> lacks(user@, '\0')
    &&& planner.current_role matches Some(role) ==> lacks(role@, '\0')
    &&& opt_texts(planner.secondary_roles) matches Some(roles) ==> all_lack(roles, '\0')
        && all_lack(roles, ',')
}

/// The role of a session, or nothing.
pub open spec fn role_of(planner: Planner) -> Seq<char> {
    match planner.current_role {
        Some(role) => role@,
        None => Seq::empty(),
    }
}

/// The text that the key of a plan is the digest of, where no table has a security policy.
pub open spec fn plain_key_text(planner: Planner, statement: Seq<char>) -> Seq<char> {
    planner.context_prefix() + separator() + statement
}

/// The text that the key of a plan is the digest of, where a table has a security policy.
pub open spec fn secure_key_text(planner: Planner, statement: Seq<char>) -> Seq<char> {
    planner.context_prefix() + separator() + planner.security_prefix()->Ok_0 + separator()
        + statement
}

/// The key of a plan is the digest of a text. Where a table has a security policy it needs a user.
pub proof fn law_key_is_the_digest_of_a_text(planner: Planner, statement: Seq<char>)
    ensures
        planner.statement_key(statement, false) == Ok::<_, PlanCacheError>(
            text_digest(plain_key_text(planner, statement)),
        ),
        planner.current_user is Some ==> planner.statement_key(statement, true) == Ok::<
            _,
            PlanCacheError,
        >(text_digest(secure_key_text(planner, statement))),
        planner.current_user is None ==> planner.statement_key(statement, true) == Err::<
            Seq<char>,
            _,
        >(PlanCacheError::NoCurrentUser),
{
}

proof fn lemma_separator()
    ensures
        separator() == seq!['\0'],
{
    reveal_strlit("\0");
    assert("\0"@ =~= seq!['\0']);
}

proof fn lemma_context_peeled(a: Planner, x: Seq<char>, b: Planner, y: Seq<char>)
    requires
        has_plain_names(a),
        has_plain_names(b),
        a.context_prefix() + separator() + x == b.context_prefix() + separator() + y,
    ensures
        a.tenant_name@ == b.tenant_name@,
        a.current_catalog@ == b.current_catalog@,
        a.current_database@ == b.current_database@,
        x == y,
{
    lemma_separator();
    let s = seq!['\0'];
    let head = "ctx\0"@;
    let x2 = a.current_database@ + s + x;
    let y2 = b.current_database@ + s + y;
    let x1 = a.current_catalog@ + s + x2;
    let y1 = b.current_catalog@ + s + y2;
    let x0 = a.tenant_name@ + s + x1;
    let y0 = b.tenant_name@ + s + y1;
    assert(a.context_prefix() + s + x =~= head + x0);
    assert(b.context_prefix() + s + y =~= head + y0);
    lemma_drop_head(head, x0, y0);
    lemma_split_first(a.tenant_name@, x1, b.tenant_name@, y1, '\0');
    lemma_split_first(a.current_catalog@, x2, b.current_catalog@, y2, '\0');
    lemma_split_first(a.current_database@, x, b.current_database@, y, '\0');
}

/// Where no table has a security policy, the text of a key tells the tenant, the catalog, the
/// database and the statement, and nothing else: not who asks.
pub proof fn law_plain_key_tells_context_and_statement(
    a: Planner,
    statement: Seq<char>,
    b: Planner,
    other: Seq<char>,
)
    requires
        has_plain_names(a),
        has_plain_names(b),
    ensures
        plain_key_text(a, statement) == plain_key_text(b, other) <==> (a.tenant_name@
            == b.tenant_name@ && a.current_catalog@ == b.current_catalog@ && a.current_database@
            == b.current_database@ && statement == other),
{
    if plain_key_text(a, statement) == plain_key_text(b, other) {
        lemma_context_peeled(a, statement, b, other);
    }
}

proof fn lemma_roles_key_tells(a: Option<Seq<Seq<char>>>, b: Option<Seq<Seq<char>>>)
    requires
        a matches Some(roles) ==> all_lack(roles, ','),
        b matches Some(roles) ==> all_lack(roles, ','),
        roles_key(a) == roles_key(b),
    ensures
        a == b,
{
    reveal_strlit("ALL");
    reveal_strlit("NONE");
    reveal_strlit("SOME:");
    reveal_strlit(",");
    assert(","@ =~= seq![',']);
    assert("ALL"@[0] == 'A' && "NONE"@[0] == 'N' && "SOME:"@[0] == 'S');
    match (a, b) {
        (Some(x), Some(y)) => {
            if x.len() == 0 {
                if y.len() > 0 {
                    assert(roles_key(b)[0] == 'S');
                }
                assert(x =~= y);
            } else if y.len() == 0 {
                assert(roles_key(a)[0] == 'S');
            } else {
                lemma_drop_head("SOME:"@, joined_text(x, ","@), joined_text(y, ","@));
                lemma_joined_tells(x, y, ',');
            }
        },
        (Some(x), None) => {
            if x.len() > 0 {
                assert(roles_key(a)[0] == 'S');
            }
        },
        (None, Some(y)) => {
            if y.len() > 0 {
                assert(roles_key(b)[0] == 'S');
            }
        },
        _ => {},
    }
}

proof fn lemma_roles_key_lacks(roles: Option<Seq<Seq<char>>>)
    requires
        roles matches Some(roles) ==> all_lack(roles, '\0'),
    ensures
        lacks(roles_key(roles), '\0'),
{
    reveal_strlit("ALL");
    reveal_strlit("NONE");
    reveal_strlit("SOME:");
    reveal_strlit(",");
    match roles {
        Some(roles) => {
            lemma_joined_lacks(roles, ","@, '\0');
        },
        None => {},
    }
}

/// Sorting texts keeps them.
pub proof fn lemma_sorted_texts(texts: Seq<Seq<char>>, c: char)
    requires
        all_lack(texts, c),
    ensures
        all_lack(stable_sort(texts), c),
        same_texts(stable_sort(texts), texts),
{
    let sorted = stable_sort(texts);
    lemma_stable_sort_exists(texts);
    lemma_stable_sort_sorted(texts, sorted);
    assert forall|text: Seq<char>| #[trigger] sorted.contains(text) == texts.contains(text) by {
        lemma_stable_sort_items(texts, sorted, text);
    }
    assert forall|i: int| 0 <= i < sorted.len() implies lacks(#[trigger] sorted[i], c) by {
        assert(sorted.contains(sorted[i]));
        let k = choose|k: int| 0 <= k < texts.len() && texts[k] == sorted[i];
        assert(lacks(texts[k], c));
    }
}

proof fn lemma_sorted_roles(planner: Planner)
    requires
        has_plain_names(planner),
    ensures
        planner.sorted_roles() is Some <==> planner.secondary_roles is Some,
        planner.sorted_roles() matches Some(sorted) ==> all_lack(sorted, '\0') && all_lack(
            sorted,
            ',',
        ) && same_texts(sorted, opt_texts(planner.secondary_roles)->Some_0),
{
    match opt_texts(planner.secondary_roles) {
        Some(roles) => {
            lemma_sorted_texts(roles, '\0');
            lemma_sorted_texts(roles, ',');
        },
        None => {},
    }
}

proof fn lemma_secure_form(planner: Planner, statement: Seq<char>)
    requires
        planner.current_user is Some,
    ensures
        secure_key_text(planner, statement) == planner.context_prefix() + separator() + ("secure\0"@
            + (planner.current_user->Some_0@ + seq!['\0'] + (role_of(planner) + seq!['\0'] + (
        roles_key(planner.sorted_roles()) + seq!['\0'] + statement)))),
{
    lemma_separator();
    assert(secure_key_text(planner, statement) =~= planner.context_prefix() + separator() + (
    "secure\0"@ + (planner.current_user->Some_0@ + seq!['\0'] + (role_of(planner) + seq!['\0'] + (
    roles_key(planner.sorted_roles()) + seq!['\0'] + statement)))));
}

/// Where a table has a security policy, the text of a key tells besides who asks: the user, the role
/// and the secondary roles. Sessions that differ in one of these have different texts.
pub proof fn law_secure_key_tells_who_asks(
    a: Planner,
    statement: Seq<char>,
    b: Planner,
    other: Seq<char>,
)
    requires
        has_plain_names(a),
        has_plain_names(b),
        a.current_user is Some,
        b.current_user is Some,
        secure_key_text(a, statement) == secure_key_text(b, other),
    ensures
        a.tenant_name@ == b.tenant_name@,
        a.current_catalog@ == b.current_catalog@,
        a.current_database@ == b.current_database@,
        a.current_user->Some_0@ == b.current_user->Some_0@,
        role_of(a) == role_of(b),
        same_roles(opt_texts(a.secondary_roles), opt_texts(b.secondary_roles)),
        statement == other,
{
    lemma_secure_form(a, statement);
    lemma_secure_form(b, other);
    let s = seq!['\0'];
    let x3 = roles_key(a.sorted_roles()) + s + statement;
    let y3 = roles_key(b.sorted_roles()) + s + other;
    let x2 = role_of(a) + s + x3;
    let y2 = role_of(b) + s + y3;
    let x1 = a.current_user->Some_0@ + s + x2;
    let y1 = b.current_user->Some_0@ + s + y2;
    lemma_context_peeled(a, "secure\0"@ + x1, b, "secure\0"@ + y1);
    lemma_drop_head("secure\0"@, x1, y1);
    lemma_split_first(a.current_user->Some_0@, x2, b.current_user->Some_0@, y2, '\0');
    lemma_split_first(role_of(a), x3, role_of(b), y3, '\0');
    lemma_sorted_roles(a);
    lemma_sorted_roles(b);
    lemma_roles_key_lacks(a.sorted_roles());
    lemma_roles_key_lacks(b.sorted_roles());
    lemma_split_first(
        roles_key(a.sorted_roles()),
        statement,
        roles_key(b.sorted_roles()),
        other,
        '\0',
    );
    lemma_roles_key_tells(a.sorted_roles(), b.sorted_roles());
    if a.secondary_roles is Some {
        let sorted = a.sorted_roles()->Some_0;
        let x = opt_texts(a.secondary_roles)->Some_0;
        let y = opt_texts(b.secondary_roles)->Some_0;
        assert forall|text: Seq<char>| #[trigger] x.contains(text) == y.contains(text) by {
            assert(sorted.contains(text) == x.contains(text));
            assert(sorted.contains(text) == y.contains(text));
        }
    }
}

/// The text of a key that tells who asks is the text of no key that does not, but for a statement
/// that begins as the part does that tells it.
pub proof fn law_secure_key_is_no_plain_key(
    a: Planner,
    statement: Seq<char>,
    b: Planner,
    other: Seq<char>,
)
    requires
        has_plain_names(a),
        has_plain_names(b),
        a.current_user is Some,
        other.len() < 7 || other.take(7) != "secure\0"@,
    ensures
        secure_key_text(a, statement) != plain_key_text(b, other),
{
    if secure_key_text(a, statement) == plain_key_text(b, other) {
        lemma_secure_form(a, statement);
        let s = seq!['\0'];
        let rest = a.current_user->Some_0@ + s + (role_of(a) + s + (roles_key(a.sorted_roles()) + s
            + statement));
        lemma_context_peeled(a, "secure\0"@ + rest, b, other);
        reveal_strlit("secure\0");
        assert(other.take(7) =~= "secure\0"@);
    }
}

/// What a walk over a query meets.
pub enum WalkStep {
    FunctionCall { is_cacheable: bool },
    Table { reference: TableReference },
}

/// The walk meets these one after the other, and gathers what stands between them.
pub open spec fn is_walk(steps: Seq<WalkStep>, states: Seq<TableRefVisitor>) -> bool {
    &&& states.len() == steps.len() + 1
    &&& states[0].table_snapshots@.len() == 0
    &&& !states[0].cache_miss
    &&& !states[0].has_security_policy
    &&& forall|i: int|
        0 <= i < steps.len() ==> match #[trigger] steps[i] {
            WalkStep::FunctionCall { is_cacheable } => met_function_call(
                states[i],
                is_cacheable,
                states[i + 1],
            ),
            WalkStep::Table { reference } => met_table(states[i], reference, states[i + 1]),
        }
}

/// The step meets a table on which a masking policy is on some column, or a row access policy.
pub open spec fn meets_policy(step: WalkStep) -> bool {
    step matches WalkStep::Table { reference } && reference.resolved matches Some(table) && (
    table.meta.security_policy.column_mask_policy_columns_ids@.len() > 0
        || table.meta.security_policy.row_access_policy_columns_ids is Some)
}

/// A plan with this step can be cached: the function can be called, or the table was found as it
/// is now, without options, is a stored table of the catalog, and says where its snapshot lies.
pub open spec fn allows_cache(step: WalkStep) -> bool {
    match step {
        WalkStep::FunctionCall { is_cacheable } => is_cacheable,
        WalkStep::Table { reference } => {
            &&& !reference.temporal
            &&& !reference.with_options
            &&& reference.resolved matches Some(table) && !table.is_temp && !table.is_stage_table
                && !table.is_stream && property(
                table.meta.options@,
                OPT_KEY_SNAPSHOT_LOCATION@,
            ) is Some
        },
    }
}

proof fn lemma_walk(steps: Seq<WalkStep>, states: Seq<TableRefVisitor>, n: int)
    requires
        is_walk(steps, states),
        0 <= n <= steps.len(),
    ensures
        !states[n].cache_miss <==> forall|i: int| 0 <= i < n ==> allows_cache(#[trigger] steps[i]),
        !states[n].cache_miss ==> (states[n].has_security_policy <==> exists|i: int|
            0 <= i < n && meets_policy(#[trigger] steps[i])),
    decreases n,
{
    if n > 0 {
        lemma_walk(steps, states, n - 1);
        let step = steps[n - 1];
        if !states[n].cache_miss {
            assert forall|i: int| 0 <= i < n implies allows_cache(#[trigger] steps[i]) by {
                if i == n - 1 {
                    assert(allows_cache(step));
                }
            }
            if states[n].has_security_policy {
                if states[n - 1].has_security_policy {
                    let i = choose|i: int| 0 <= i < n - 1 && meets_policy(#[trigger] steps[i]);
                    assert(meets_policy(steps[i]));
                } else {
                    assert(meets_policy(steps[n - 1]));
                }
            }
            if exists|i: int| 0 <= i < n && meets_policy(#[trigger] steps[i]) {
                let i = choose|i: int| 0 <= i < n && meets_policy(#[trigger] steps[i]);
                if i < n - 1 {
                    assert(states[n - 1].has_security_policy);
                }
                assert(states[n].has_security_policy);
            }
        }
        if forall|i: int| 0 <= i < n ==> allows_cache(#[trigger] steps[i]) {
            assert(allows_cache(steps[n - 1]));
            assert(!states[n - 1].cache_miss);
        }
    }
}

/// A plan is cached only where every function that its query calls can be, and every table that it
/// reads is a stored one as it is now. Where a masking policy is on a column of one of these tables,
/// or a row access policy on one of them, its key is the digest of the text that tells who asks;
/// where there is neither, of the text that does not.
pub proof fn law_policies_of_met_tables_are_in_the_key(
    planner: Planner,
    is_query: bool,
    enable_planner_cache: bool,
    statement: Seq<char>,
    steps: Seq<WalkStep>,
    states: Seq<TableRefVisitor>,
    context: PlanCacheContext,
)
    requires
        is_walk(steps, states),
        context_made(
            planner,
            is_query,
            enable_planner_cache,
            statement,
            states[steps.len() as int],
            Ok(Some(context)),
        ),
    ensures
        is_query,
        enable_planner_cache,
        context.table_snapshots@.len() > 0,
        forall|i: int| 0 <= i < steps.len() ==> allows_cache(#[trigger] steps[i]),
        (exists|i: int| 0 <= i < steps.len() && meets_policy(#[trigger] steps[i])) ==> planner.current_user
            is Some && context.cache_key@ == text_digest(secure_key_text(planner, statement)),
        !(exists|i: int| 0 <= i < steps.len() && meets_policy(#[trigger] steps[i]))
            ==> context.cache_key@ == text_digest(plain_key_text(planner, statement)),
{
    lemma_walk(steps, states, steps.len() as int);
    law_key_is_the_digest_of_a_text(planner, statement);
}

/// A walk over what can be cached, with a table in it, gives a key, unless a table has a policy and
/// the session has no user.
pub proof fn law_cacheable_walk_gives_a_key(
    planner: Planner,
    statement: Seq<char>,
    steps: Seq<WalkStep>,
    states: Seq<TableRefVisitor>,
    r: Result<Option<PlanCacheContext>, PlanCacheError>,
)
    requires
        is_walk(steps, states),
        context_made(planner, true, true, statement, states[steps.len() as int], r),
        forall|i: int| 0 <= i < steps.len() ==> allows_cache(#[trigger] steps[i]),
        exists|i: int| 0 <= i < steps.len() && #[trigger] steps[i] is Table,
        planner.current_user is Some,
    ensures
        r matches Ok(Some(context)),
{
    let n = steps.len() as int;
    lemma_walk(steps, states, n);
    lemma_walk_snapshots(steps, states, n);
    law_key_is_the_digest_of_a_text(planner, statement);
}

proof fn lemma_walk_snapshots(steps: Seq<WalkStep>, states: Seq<TableRefVisitor>, n: int)
    requires
        is_walk(steps, states),
        0 <= n <= steps.len(),
        !states[n].cache_miss,
    ensures
        (exists|i: int| 0 <= i < n && #[trigger] steps[i] is Table)
            ==> states[n].table_snapshots@.len() > 0,
    decreases n,
{
    if n > 0 {
        let step = steps[n - 1];
        assert(!states[n - 1].cache_miss);
        lemma_walk_snapshots(steps, states, n - 1);
    }
}

/// A table with another name or another number, one of another catalog or database, and one that
/// lives as long as the session only, is not taken for the one of the plan.
pub proof fn law_other_table_does_not_match(snapshot: TableSnapshot, table: CurrentTable)
    requires
        table.is_temp || table.catalog@ != snapshot.catalog_name@ || table.database_name is None
            || table.database_name->Some_0@ != snapshot.database_name@ || table.name@
            != snapshot.table_name@ || table.table_id != snapshot.table_id,
    ensures
        !table_matches(snapshot, table),
{
}

/// The table of a plan is what it was only where it was found, both by its number and by its name,
/// with the number, the schema, the snapshot and the policies that it had.
pub proof fn law_current_table_is_unchanged(snapshot: TableSnapshot, lookup: TableLookup)
    requires
        is_current(snapshot, lookup),
    ensures
        lookup matches TableLookup::Found { seq, meta, table } && {
            &&& seq == snapshot.table_seq
            &&& table.seq == snapshot.table_seq
            &&& table.table_id == snapshot.table_id
            &&& meta.schema@ == snapshot.schema@
            &&& table.schema@ == snapshot.schema@
            &&& table.meta.schema@ == snapshot.schema@
            &&& property(meta.options@, OPT_KEY_SNAPSHOT_LOCATION@) == Some(
                snapshot.snapshot_location@,
            )
            &&& property(table.meta.options@, OPT_KEY_SNAPSHOT_LOCATION@) == Some(
                snapshot.snapshot_location@,
            )
            &&& meta.security_policy@ == snapshot.security_policy@
            &&& table.meta.security_policy@ == snapshot.security_policy@
        },
{
}

} // verus!
