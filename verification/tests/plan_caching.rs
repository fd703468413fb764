use btree_index::digest::{digest_bytes, digest_text};
use btree_index::plan_cache::{
    CachedSchema, CachedTableMeta, CurrentTable, CurrentTables, PlanCacheContext, PlanCacheError, Planner,
    SecurityPolicyColumnMap, SecurityPolicySnapshot, TableLookup, TableRefVisitor, TableReference,
    TableSnapshot,
};
use btree_index::scalar::{ColumnKind, Scalar, TableDataType, TableField};

fn planner() -> Planner {
    Planner {
        tenant_name: "tenant".to_string(),
        current_catalog: "default".to_string(),
        current_database: "db".to_string(),
        current_user: Some("'u'@'%'".to_string()),
        current_role: Some("public".to_string()),
        secondary_roles: Some(vec!["b".to_string(), "a".to_string()]),
        setting_changes: vec![
            ("max_threads".to_string(), "4".to_string()),
            ("enable_x".to_string(), "1".to_string()),
        ],
        variables: vec![("v".to_string(), Scalar::Boolean(true))],
    }
}

fn schema() -> CachedSchema {
    let fields = vec![TableField {
        name: "a".to_string(),
        data_type: TableDataType::of(ColumnKind::String),
        column_id: 0,
        virtual_computed: false,
    }];
    CachedSchema { fields, details: "a DEFAULT 'x'".to_string() }
}

fn no_policy() -> SecurityPolicySnapshot {
    SecurityPolicySnapshot {
        column_mask_policy_columns_ids: vec![],
        row_access_policy_columns_ids: None,
    }
}

fn meta(location: Option<&str>) -> CachedTableMeta {
    CachedTableMeta {
        schema: schema(),
        options: match location {
            Some(location) => vec![("snapshot_location".to_string(), location.to_string())],
            None => vec![],
        },
        security_policy: no_policy(),
    }
}

fn table(seq: u64, location: &str) -> CurrentTable {
    CurrentTable {
        is_temp: false,
        is_stage_table: false,
        is_stream: false,
        catalog: "default".to_string(),
        database_name: Some("db".to_string()),
        name: "t".to_string(),
        table_id: 7,
        seq,
        schema: schema(),
        meta: meta(Some(location)),
    }
}

fn snapshot(table: &CurrentTable) -> Option<TableSnapshot> {
    TableSnapshot::from_resolved_table(
        table,
        "default".to_string(),
        "db".to_string(),
        "t".to_string(),
    )
}

fn equal(a: &Scalar, b: &Scalar) -> bool {
    format!("{a:?}") == format!("{b:?}")
}

#[test]
fn digests_are_spelled_in_hexadecimal() {
    let digest = "ba7816bf8f01cfea414140de5dae2223b00361a396177a9cb410ff61f20015ad";
    assert_eq!(digest_text("abc"), digest);
    assert_eq!(digest_bytes(b"abc"), digest);
    assert_eq!(Planner::planner_cache_key("abc"), digest);
}

#[test]
fn a_key_is_made_of_the_context_and_the_query() {
    let planner = planner();
    assert_eq!(planner.planner_cache_context_prefix(), "ctx\0tenant\0default\0db");
    assert_eq!(
        planner.planner_cache_key_for_stmt("select 1", false).unwrap(),
        digest_text("ctx\0tenant\0default\0db\0select 1")
    );
    assert_eq!(
        planner.planner_cache_key_for_stmt("select 1", true).unwrap(),
        digest_text(
            "ctx\0tenant\0default\0db\0secure\0'u'@'%'\0public\0SOME:a,b\0select 1"
        )
    );
}

#[test]
fn a_key_does_not_depend_on_the_order_of_the_roles() {
    let listed = planner();
    let mut relisted = planner();
    relisted.secondary_roles = Some(vec!["a".to_string(), "b".to_string()]);
    assert_eq!(
        listed.security_policy_cache_key_prefix(),
        relisted.security_policy_cache_key_prefix()
    );
}

#[test]
fn roles_are_all_none_or_listed() {
    assert_eq!(Planner::secondary_roles_cache_key(None), "ALL");
    assert_eq!(Planner::secondary_roles_cache_key(Some(&vec![])), "NONE");
    let roles = vec!["x".to_string(), "y".to_string()];
    assert_eq!(Planner::secondary_roles_cache_key(Some(&roles)), "SOME:x,y");
}

#[test]
fn a_key_that_tells_who_asks_needs_a_user() {
    let mut nobody = planner();
    nobody.current_user = None;
    assert_eq!(
        nobody.planner_cache_key_for_stmt("select 1", true),
        Err(PlanCacheError::NoCurrentUser)
    );
    assert!(nobody.planner_cache_key_for_stmt("select 1", false).is_ok());
}

#[test]
fn a_snapshot_matches_its_table_until_it_changes() {
    let current = table(3, "s1");
    let kept = snapshot(&current).unwrap();
    assert!(kept.matches_table(&current));
    assert!(kept.matches_table_meta(3, &current.meta));
    assert!(!kept.has_security_policy());

    assert!(!kept.matches_table(&table(4, "s1")));
    assert!(!kept.matches_table(&table(3, "s2")));
    let mut renamed = table(3, "s1");
    renamed.name = "u".to_string();
    assert!(!kept.matches_table(&renamed));
    let mut widened = table(3, "s1");
    widened.schema.fields.push(TableField {
        name: "b".to_string(),
        data_type: TableDataType::of(ColumnKind::Date),
        column_id: 1,
        virtual_computed: false,
    });
    assert!(!kept.matches_table(&widened));
    let mut defaulted = table(3, "s1");
    defaulted.schema.details = "a DEFAULT 'y'".to_string();
    assert!(!kept.matches_table(&defaulted));
    let mut described = table(3, "s1");
    described.meta.schema.details = String::new();
    assert!(!kept.matches_table_meta(3, &described.meta));
    let mut guarded = table(3, "s1");
    guarded.meta.security_policy.row_access_policy_columns_ids =
        Some(SecurityPolicyColumnMap { policy_id: 1, columns_ids: vec![0] });
    assert!(!kept.matches_table(&guarded));
    assert!(snapshot(&guarded).unwrap().has_security_policy());
    let mut temporary = table(3, "s1");
    temporary.is_temp = true;
    assert!(!kept.matches_table(&temporary));
    assert!(snapshot(&temporary).is_none());
}

#[test]
fn a_table_without_a_snapshot_is_not_kept() {
    let mut plain = table(3, "s1");
    plain.meta = meta(None);
    assert!(snapshot(&plain).is_none());
    let mut stage = table(3, "s1");
    stage.is_stage_table = true;
    assert!(snapshot(&stage).is_none());
    let mut stream = table(3, "s1");
    stream.is_stream = true;
    assert!(snapshot(&stream).is_none());
}

fn reference(resolved: Option<CurrentTable>) -> TableReference {
    TableReference {
        catalog_name: "default".to_string(),
        database_name: "db".to_string(),
        table_name: "t".to_string(),
        temporal: false,
        with_options: false,
        resolved,
    }
}

fn visited(references: &[TableReference]) -> TableRefVisitor {
    let mut visitor = TableRefVisitor::new();
    for reference in references {
        visitor.enter_table_reference(reference);
    }
    visitor
}

#[test]
fn a_query_over_a_table_that_cannot_be_told_is_not_cached() {
    assert!(!visited(&[reference(Some(table(1, "s")))]).cache_miss);
    assert!(visited(&[reference(None)]).cache_miss);
    let mut past = reference(Some(table(1, "s")));
    past.temporal = true;
    assert!(visited(&[past]).cache_miss);
    let mut options = reference(Some(table(1, "s")));
    options.with_options = true;
    assert!(visited(&[options]).cache_miss);

    let mut visitor = TableRefVisitor::new();
    visitor.enter_function_call(true);
    assert!(!visitor.cache_miss);
    visitor.enter_function_call(false);
    assert!(visitor.cache_miss);
}

#[test]
fn a_table_is_looked_for_where_the_session_is() {
    let planner = planner();
    let named = planner.reference_names(Some("c".to_string()), Some("d".to_string()));
    assert_eq!(named, ("c".to_string(), "d".to_string()));
    assert_eq!(
        planner.reference_names(None, Some("d".to_string())),
        (planner.current_catalog.clone(), "d".to_string())
    );
    assert_eq!(
        planner.reference_names(Some("c".to_string()), None),
        ("c".to_string(), planner.current_database.clone())
    );
}

#[test]
fn the_context_of_a_plan_tells_its_tables() {
    let planner = planner();
    let walk = || visited(&[reference(Some(table(1, "s")))]);
    let context = planner.build_plan_cache_context(true, true, "q", walk()).unwrap().unwrap();
    assert_eq!(context.cache_key, planner.planner_cache_key_for_stmt("q", false).unwrap());
    assert_eq!(context.table_snapshots.len(), 1);
    assert!(planner.build_plan_cache_context(false, true, "q", walk()).unwrap().is_none());
    assert!(planner.build_plan_cache_context(true, false, "q", walk()).unwrap().is_none());
    assert!(planner
        .build_plan_cache_context(true, true, "q", visited(&[reference(None)]))
        .unwrap()
        .is_none());
    assert!(planner
        .build_plan_cache_context(true, true, "q", TableRefVisitor::new())
        .unwrap()
        .is_none());
}

#[test]
fn a_query_is_looked_up_by_its_text() {
    let planner = planner();
    assert_eq!(
        planner.lookup_key_for_stmt(true, true, "q"),
        Some(planner.planner_cache_key_for_stmt("q", false).unwrap())
    );
    assert_eq!(planner.lookup_key_for_stmt(false, true, "q"), None);
    assert_eq!(planner.lookup_key_for_stmt(true, false, "q"), None);
}

#[test]
fn a_plan_is_used_again_only_as_it_was_made() {
    let made = planner();
    let tables = vec![table(1, "s")];
    let context = || PlanCacheContext {
        cache_key: "key".to_string(),
        table_snapshots: vec![snapshot(&tables[0]).unwrap()],
    };
    let (key, item) = made.cache_item(context(), "plan");
    assert_eq!(key, "key");
    assert_eq!(item.plan, "plan");
    assert_eq!(item.setting_changes[0].0, "enable_x");
    assert!(made.plan_cache_item_matches_env(&item, &equal));
    assert!(context().matches_metadata_tables(&tables));
    assert!(made.may_use_cached(&item, &item.table_snapshots, Some(&tables), &equal));
    assert!(!made.may_use_cached(&item, &item.table_snapshots, Some(&vec![]), &equal));

    let mut reordered = planner();
    reordered.setting_changes.reverse();
    assert!(reordered.plan_cache_item_matches_env(&item, &equal));
    let mut changed = planner();
    changed.setting_changes[0].1 = "8".to_string();
    assert!(!changed.plan_cache_item_matches_env(&item, &equal));
    let mut other = planner();
    other.variables[0].1 = Scalar::Boolean(false);
    assert!(!other.plan_cache_item_matches_env(&item, &equal));
}

#[test]
fn variables_are_compared_by_their_names() {
    let with = |names: &[(&str, bool)]| {
        let mut made = planner();
        made.variables =
            names.iter().map(|(name, v)| (name.to_string(), Scalar::Boolean(*v))).collect();
        made
    };
    let context = PlanCacheContext { cache_key: "key".to_string(), table_snapshots: vec![] };
    let (_, item) = with(&[("a", true), ("b", false)]).cache_item(context, "plan");
    let matches =
        |names: &[(&str, bool)]| with(names).plan_cache_item_matches_env(&item, &equal);
    assert!(matches(&[("a", true), ("b", false)]));
    assert!(matches(&[("b", false), ("a", true)]));
    assert!(!matches(&[("b", true), ("a", false)]));
    assert!(!matches(&[("a", true), ("c", false)]));
    assert!(!matches(&[("a", true)]));
    assert!(!matches(&[("a", true), ("b", false), ("c", true)]));
}

#[test]
fn masks_are_compared_column_by_column() {
    let masks = |ids: &[(u32, u64)]| SecurityPolicySnapshot {
        column_mask_policy_columns_ids: ids
            .iter()
            .map(|(column, policy)| {
                let map = SecurityPolicyColumnMap { policy_id: *policy, columns_ids: vec![*column] };
                (*column, map)
            })
            .collect(),
        row_access_policy_columns_ids: None,
    };
    assert!(masks(&[(1, 7), (2, 8)]).same(&masks(&[(1, 7), (2, 8)])));
    assert!(!masks(&[(1, 7), (2, 8)]).same(&masks(&[(1, 7), (2, 9)])));
    assert!(!masks(&[(1, 7), (2, 8)]).same(&masks(&[(1, 7)])));
}

#[test]
fn cached_tables_are_looked_up_one_by_one() {
    let kept = || vec![snapshot(&table(1, "s")).unwrap(), snapshot(&table(1, "s")).unwrap()];
    let found = |location: &str| TableLookup::Found {
        seq: 1,
        meta: meta(Some(location)),
        table: table(1, location),
    };

    assert_eq!(CurrentTables::start(vec![]).verdict, Some(false));

    let mut lookups = CurrentTables::start(kept());
    assert_eq!(lookups.wanted().table_id, 7);
    lookups.accept(&found("s"));
    assert_eq!(lookups.verdict, None);
    lookups.accept(&found("s"));
    assert_eq!(lookups.verdict, Some(true));

    let mut lookups = CurrentTables::start(kept());
    lookups.accept(&found("moved"));
    assert_eq!(lookups.verdict, Some(false));
    for gone in [
        TableLookup::NoCatalog,
        TableLookup::NoMeta,
        TableLookup::NoTable { seq: 1, meta: meta(Some("s")) },
    ] {
        let mut lookups = CurrentTables::start(kept());
        lookups.accept(&gone);
        assert_eq!(lookups.verdict, Some(false));
    }
}
