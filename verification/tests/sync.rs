//! Schema plans, key checks and row plans.

use mysync::ddl::{parse_create_table, TableSchema};
use mysync::diff::{diff_keyed, diff_unkeyed};
use mysync::dumpfile;
use mysync::plan::TablePlan;
use mysync::sync::{
    compute_keyed_table_plan, compute_new_table_plan, compute_unkeyed_table_plan, execute_ddl, find_unsafe_key_tables,
    is_new_table, plan_ddl, prepare, tables_to_sync, try_compute_keyed_table_plan, try_compute_table_plan, DdlPlan,
};
use mysync::table_map::TableMap;
use mysync::values::Cell;

fn schema_map(schemas: Vec<TableSchema>) -> TableMap<TableSchema> {
    let mut map = TableMap::new();
    for s in schemas {
        map.insert(s.name.clone(), s);
    }
    map
}

fn cell(s: &str) -> Cell {
    Some(s.as_bytes().to_vec())
}

fn row(cells: &[&str]) -> Vec<Cell> {
    cells.iter().map(|c| cell(c)).collect()
}

fn names(list: &[&str]) -> Vec<String> {
    list.iter().map(|s| s.to_string()).collect()
}

#[test]
fn unsafe_key_check_passes_a_clean_single_key_table() {
    let dump = schema_map(vec![parse_create_table(
        b"CREATE TABLE `t` (`id` int NOT NULL, PRIMARY KEY (`id`))",
    )]);
    let local = schema_map(vec![parse_create_table(
        b"CREATE TABLE `t` (`id` int NOT NULL, PRIMARY KEY (`id`))",
    )]);
    let plan = DdlPlan { unchanged: vec!["t".to_string()], ..Default::default() };
    assert!(find_unsafe_key_tables(&dump, &local, &plan).is_empty());
}

#[test]
fn unsafe_key_check_flags_a_second_unique_key_in_the_dump() {
    let dump = schema_map(vec![parse_create_table(
        b"CREATE TABLE `t` (`id` int NOT NULL, `a` int NOT NULL, \
          PRIMARY KEY (`id`), UNIQUE KEY `uk_a` (`a`))",
    )]);
    // Even where the database agrees with the dump, both keys can make an insert collide.
    let local = dump.clone();
    let plan = DdlPlan { unchanged: vec!["t".to_string()], ..Default::default() };
    let problems = find_unsafe_key_tables(&dump, &local, &plan);
    assert_eq!(problems.len(), 1);
    assert!(problems[0].contains('t'));
    assert!(problems[0].contains("more than one"));
}

#[test]
fn unsafe_key_check_flags_drift_between_dump_and_local_key() {
    // The dump has a unique key on `a`; the same columns, but a key on `b`, are in the database.
    let dump = schema_map(vec![parse_create_table(
        b"CREATE TABLE `t` (`a` int NOT NULL, `b` int NOT NULL, UNIQUE KEY `uk_a` (`a`))",
    )]);
    let local = schema_map(vec![parse_create_table(
        b"CREATE TABLE `t` (`a` int NOT NULL, `b` int NOT NULL, UNIQUE KEY `uk_b` (`b`))",
    )]);
    let plan = DdlPlan { unchanged: vec!["t".to_string()], ..Default::default() };
    let problems = find_unsafe_key_tables(&dump, &local, &plan);
    assert_eq!(problems.len(), 1);
    assert!(problems[0].contains("differs between the dump and the local database"));
}

#[test]
fn unsafe_key_check_skips_drift_check_for_freshly_created_tables() {
    // The table is created from the dump's own statement, so its key is that of the dump.
    let dump = schema_map(vec![parse_create_table(
        b"CREATE TABLE `t` (`a` int NOT NULL, UNIQUE KEY `uk_a` (`a`))",
    )]);
    let local = TableMap::new();
    let plan = DdlPlan { to_create: vec!["t".to_string()], ..Default::default() };
    assert!(find_unsafe_key_tables(&dump, &local, &plan).is_empty());
}

#[test]
fn unsafe_key_check_ignores_tables_with_no_usable_key_at_all() {
    // Without a key there is no upsert, so nothing can collide.
    let dump = schema_map(vec![parse_create_table(
        b"CREATE TABLE `t` (`a` int NOT NULL)",
    )]);
    let local = dump.clone();
    let plan = DdlPlan { unchanged: vec!["t".to_string()], ..Default::default() };
    assert!(find_unsafe_key_tables(&dump, &local, &plan).is_empty());
}

#[test]
fn explicit_column_list_fills_omitted_column_with_its_default() {
    // `INSERT INTO t (id) VALUES (1)` applies the default of `status`, not NULL.
    let data = b"CREATE TABLE `t` (\n\
        `id` int NOT NULL,\n\
        `status` int NOT NULL DEFAULT '1',\n\
        PRIMARY KEY (`id`)\n\
    ) ENGINE=InnoDB;\n\
    INSERT INTO `t` (`id`) VALUES (1),(2);\n";
    let dump = dumpfile::parse_dump(data);
    let schema = dump.schemas.get("t").unwrap();
    let TablePlan::New { rows } = compute_new_table_plan(schema, dump.inserts.get("t").unwrap()) else {
        panic!("expected TablePlan::New");
    };
    assert_eq!(
        rows,
        vec![
            vec![Some(b"1".to_vec()), Some(b"1".to_vec())],
            vec![Some(b"2".to_vec()), Some(b"1".to_vec())],
        ]
    );
}

#[test]
fn explicit_column_list_omitted_column_without_default_is_still_null() {
    let data = b"CREATE TABLE `t` (\n\
        `id` int NOT NULL,\n\
        `note` varchar(10) DEFAULT NULL,\n\
        PRIMARY KEY (`id`)\n\
    ) ENGINE=InnoDB;\n\
    INSERT INTO `t` (`id`) VALUES (1);\n";
    let dump = dumpfile::parse_dump(data);
    let schema = dump.schemas.get("t").unwrap();
    let TablePlan::New { rows } = compute_new_table_plan(schema, dump.inserts.get("t").unwrap()) else {
        panic!("expected TablePlan::New");
    };
    assert_eq!(rows, vec![vec![Some(b"1".to_vec()), None]]);
}

#[test]
fn bit_literal_row_value_decodes_correctly_through_full_pipeline() {
    let data = b"CREATE TABLE `t` (\n\
        `id` int NOT NULL,\n\
        `flags` bit(4) NOT NULL,\n\
        PRIMARY KEY (`id`)\n\
    ) ENGINE=InnoDB;\n\
    INSERT INTO `t` VALUES (1,b'1010');\n";
    let dump = dumpfile::parse_dump(data);
    let schema = dump.schemas.get("t").unwrap();
    let TablePlan::New { rows } = compute_new_table_plan(schema, dump.inserts.get("t").unwrap()) else {
        panic!("expected TablePlan::New");
    };
    assert_eq!(rows, vec![vec![Some(b"1".to_vec()), Some(vec![0x0A])]]);
}

#[test]
fn the_exact_messages_come_in_order() {
    let two_keys = b"CREATE TABLE `b` (`a` int NOT NULL, PRIMARY KEY (`a`), UNIQUE KEY `u` (`a`))";
    let one_key = b"CREATE TABLE `a` (`a` int NOT NULL, PRIMARY KEY (`a`))";
    let no_key = b"CREATE TABLE `a` (`a` int NOT NULL)";
    let dump = schema_map(vec![parse_create_table(two_keys), parse_create_table(one_key)]);
    let local = schema_map(vec![parse_create_table(two_keys), parse_create_table(no_key)]);
    let problems = find_unsafe_key_tables(&dump, &local, &DdlPlan::default());
    assert_eq!(
        problems,
        names(&[
            "a: primary/unique key differs between the dump and the local database — the key mysync would sync by isn't actually enforced locally",
            "b: has more than one primary/unique key candidate — mysync can't tell which one INSERT ... ON DUPLICATE KEY UPDATE will actually conflict on",
        ])
    );
}

#[test]
fn schema_plans_sort_drops_and_keep_the_order_of_the_dump() {
    let same = b"CREATE TABLE `same` (`a` int)";
    let old = b"CREATE TABLE `changed` (`a` int)";
    let new = b"CREATE TABLE `changed` (`a` bigint)";
    let fresh = b"CREATE TABLE `fresh` (`a` int)";
    let dump = schema_map(vec![parse_create_table(fresh), parse_create_table(new), parse_create_table(same)]);
    let mut local_list = vec![parse_create_table(same), parse_create_table(old)];
    for name in ["zeta", "Beta", "alpha", "äpfel"] {
        let text = format!("CREATE TABLE `{name}` (`a` int)");
        local_list.push(parse_create_table(text.as_bytes()));
    }
    let local = schema_map(local_list);
    let order = names(&["same", "fresh", "changed"]);
    let plan = plan_ddl(&dump, &order, &local);
    assert_eq!(plan.to_drop, names(&["Beta", "alpha", "zeta", "äpfel"]));
    assert_eq!(plan.to_create, names(&["fresh"]));
    assert_eq!(plan.to_rebuild, names(&["changed"]));
    assert_eq!(plan.unchanged, names(&["same"]));
    assert_eq!(tables_to_sync(&order, &plan), order);
    assert!(is_new_table(&plan, "fresh"));
    assert!(is_new_table(&plan, "changed"));
    assert!(!is_new_table(&plan, "same"));

    assert_eq!(
        execute_ddl(&dump, &plan, false),
        names(&[
            "DROP TABLE `Beta`",
            "DROP TABLE `alpha`",
            "DROP TABLE `zeta`",
            "DROP TABLE `äpfel`",
            "DROP TABLE `changed`",
            "CREATE TABLE `changed` (`a` bigint)",
            "CREATE TABLE `fresh` (`a` int)",
        ])
    );
    assert!(execute_ddl(&dump, &plan, true).is_empty());
}

#[test]
fn malformed_bytes_of_a_statement_are_replaced() {
    let schema = parse_create_table(b"CREATE TABLE `t` (`a` int) COMMENT='\xff'");
    let dump = schema_map(vec![schema]);
    let plan = DdlPlan { to_create: names(&["t"]), ..Default::default() };
    assert_eq!(execute_ddl(&dump, &plan, false), names(&["CREATE TABLE `t` (`a` int) COMMENT='\u{fffd}'"]));
}

#[test]
fn nothing_is_executed_when_schemas_agree() {
    let a = parse_create_table(b"CREATE TABLE `t` (`a` int NOT NULL DEFAULT 1) ENGINE=InnoDB");
    let b = parse_create_table(b"CREATE TABLE `t` (`a` int NOT NULL, KEY `k` (`a`)) ENGINE=MyISAM");
    let r = prepare(&schema_map(vec![a]), &names(&["t"]), &schema_map(vec![b]), false);
    assert!(r.problems.is_empty());
    assert!(r.ddl.is_empty());
    assert_eq!(r.plan.unchanged, names(&["t"]));
}

#[test]
fn a_refused_run_executes_nothing() {
    let bad = b"CREATE TABLE `t` (`a` int NOT NULL, PRIMARY KEY (`a`), UNIQUE KEY `u` (`a`))";
    let other = b"CREATE TABLE `x` (`a` int)";
    let dump = schema_map(vec![parse_create_table(bad)]);
    let local = schema_map(vec![parse_create_table(other)]);
    let refused = prepare(&dump, &names(&["t"]), &local, false);
    assert_eq!(refused.problems.len(), 1);
    assert!(refused.ddl.is_empty());
    assert_eq!(refused.plan.to_drop, names(&["x"]));

    let good = schema_map(vec![parse_create_table(b"CREATE TABLE `t` (`a` int NOT NULL, PRIMARY KEY (`a`))")]);
    let ready = prepare(&good, &names(&["t"]), &local, false);
    assert!(ready.problems.is_empty());
    assert_eq!(ready.ddl.len(), 2);
    assert!(prepare(&good, &names(&["t"]), &local, true).ddl.is_empty());
}

const KEYED: &[u8] = b"CREATE TABLE `t` (`id` int NOT NULL, `v` text, PRIMARY KEY (`id`));\n\
    INSERT INTO `t` VALUES (1,'one'),(2,'two'),(4,'four');";

#[test]
fn keyed_plans_insert_update_and_delete_what_differs() {
    let dump = dumpfile::parse_dump(KEYED);
    let schema = dump.schemas.get("t").unwrap();
    let local = vec![row(&["1", "one"]), row(&["2", "zwei"]), row(&["3", "three"])];
    let plan = compute_keyed_table_plan(schema, dump.inserts.get("t").unwrap(), &schema.primary_key, &local);
    let stats = plan.stats();
    assert_eq!((stats.inserted, stats.updated, stats.deleted), (1, 1, 1));
    let TablePlan::Keyed { to_insert, to_update, delete_keys } = plan else {
        panic!("expected TablePlan::Keyed");
    };
    assert_eq!(to_insert, vec![row(&["4", "four"])]);
    assert_eq!(to_update, vec![row(&["2", "two"])]);
    assert_eq!(delete_keys, vec![row(&["3"])]);
}

#[test]
fn keyed_plans_reach_the_dump_and_are_then_empty() {
    let dump = dumpfile::parse_dump(KEYED);
    let schema = dump.schemas.get("t").unwrap();
    let stmts = dump.inserts.get("t").unwrap();
    let mut table = vec![row(&["9", "x"]), row(&["1", "eins"])];
    let plan = compute_keyed_table_plan(schema, stmts, &schema.primary_key, &table);
    let TablePlan::Keyed { to_insert, to_update, delete_keys } = plan else {
        panic!("expected TablePlan::Keyed");
    };
    for r in to_insert.into_iter().chain(to_update) {
        table.retain(|t| t[0] != r[0]);
        table.push(r);
    }
    table.retain(|t| !delete_keys.iter().any(|k| k[0] == t[0]));
    table.sort();
    assert_eq!(table, vec![row(&["1", "one"]), row(&["2", "two"]), row(&["4", "four"])]);

    let again = compute_keyed_table_plan(schema, stmts, &schema.primary_key, &table);
    let stats = again.stats();
    assert_eq!((stats.inserted, stats.updated, stats.deleted), (0, 0, 0));
}

#[test]
fn a_second_row_with_the_same_key_is_inserted() {
    let local = vec![row(&["1", "a"])];
    let dump = vec![row(&["1", "b"]), row(&["1", "c"])];
    let (to_insert, to_update, delete_keys) = diff_keyed(&[0], &local, dump);
    assert_eq!(to_insert, vec![row(&["1", "c"])]);
    assert_eq!(to_update, vec![row(&["1", "b"])]);
    assert!(delete_keys.is_empty());
}

#[test]
fn the_last_local_row_with_a_key_counts() {
    let local = vec![row(&["1", "a"]), row(&["1", "b"])];
    let (to_insert, to_update, delete_keys) = diff_keyed(&[0], &local, vec![row(&["1", "b"])]);
    assert!(to_insert.is_empty() && to_update.is_empty() && delete_keys.is_empty());
}

#[test]
fn keys_may_hold_nulls_and_several_columns() {
    let local = vec![vec![None, cell("x"), cell("1")], vec![cell("a"), None, cell("2")]];
    let dump = vec![vec![None, cell("x"), cell("9")]];
    let (to_insert, to_update, delete_keys) = diff_keyed(&[0, 1], &local, dump);
    assert!(to_insert.is_empty());
    assert_eq!(to_update, vec![vec![None, cell("x"), cell("9")]]);
    assert_eq!(delete_keys, vec![vec![cell("a"), None]]);
}

#[test]
fn rows_that_are_all_key_are_never_updated() {
    let local = vec![row(&["1", "a"]), row(&["2", "b"])];
    let dump = vec![row(&["2", "b"]), row(&["1", "c"])];
    let (to_insert, to_update, delete_keys) = diff_keyed(&[0, 1], &local, dump);
    assert_eq!(to_insert, vec![row(&["1", "c"])]);
    assert!(to_update.is_empty());
    assert_eq!(delete_keys, vec![row(&["1", "a"])]);
}

#[test]
fn keys_that_do_not_match_up_have_no_plan() {
    let dump = dumpfile::parse_dump(KEYED);
    let schema = dump.schemas.get("t").unwrap();
    let stmts = dump.inserts.get("t").unwrap();
    assert!(try_compute_keyed_table_plan(schema, stmts, &names(&["nope"]), &[]).is_none());
    assert!(try_compute_keyed_table_plan(schema, stmts, &names(&["v"]), &[row(&["1"])]).is_none());
    assert!(try_compute_keyed_table_plan(schema, stmts, &names(&["id"]), &[row(&["1"])]).is_some());
}

#[test]
fn unkeyed_plans_count_copies() {
    let data = b"CREATE TABLE `t` (`a` int, `b` int);\n\
        INSERT INTO `t` VALUES (1,NULL),(1,NULL),(2,2);INSERT INTO `t` VALUES (3,3);";
    let dump = dumpfile::parse_dump(data);
    let schema = dump.schemas.get("t").unwrap();
    let stmts = dump.inserts.get("t").unwrap();
    let local = vec![vec![cell("1"), None], row(&["2", "2"]), row(&["2", "2"]), row(&["2", "2"]), row(&["5", "5"])];
    let plan = compute_unkeyed_table_plan(schema, stmts, local);
    let stats = plan.stats();
    assert_eq!((stats.inserted, stats.updated, stats.deleted), (2, 0, 3));
    let TablePlan::Unkeyed { mut to_insert, mut to_delete } = plan else {
        panic!("expected TablePlan::Unkeyed");
    };
    to_insert.sort();
    to_delete.sort();
    assert_eq!(to_insert, vec![vec![cell("1"), None], row(&["3", "3"])]);
    assert_eq!(to_delete, vec![(row(&["2", "2"]), 2), (row(&["5", "5"]), 1)]);
}

#[test]
fn unkeyed_plans_are_empty_when_only_the_order_differs() {
    let a = vec![row(&["1"]), row(&["2"]), row(&["1"])];
    let b = vec![row(&["2"]), row(&["1"]), row(&["1"])];
    let (to_insert, to_delete) = diff_unkeyed(a, b);
    assert!(to_insert.is_empty() && to_delete.is_empty());
}

#[test]
fn a_cell_boundary_makes_a_difference() {
    // The same bytes in other cells are another row.
    let a = vec![row(&["ab", "c"]), vec![None, cell("")]];
    let b = vec![row(&["a", "bc"]), vec![cell(""), None]];
    let (to_insert, to_delete) = diff_unkeyed(a, b);
    assert_eq!(to_insert.len(), 2);
    assert_eq!(to_delete.len(), 2);
}

#[test]
fn many_rows_are_matched() {
    let local: Vec<Vec<Cell>> = (0..3000).map(|i| row(&[&i.to_string(), "x"])).collect();
    let dump: Vec<Vec<Cell>> = (1000..4000)
        .map(|i| row(&[&i.to_string(), if i % 2 == 0 { "x" } else { "y" }]))
        .collect();
    let (to_insert, to_update, delete_keys) = diff_keyed(&[0], &local, dump);
    assert_eq!((to_insert.len(), to_update.len(), delete_keys.len()), (1000, 1000, 1000));
}

#[test]
fn the_table_decides_how_rows_are_compared() {
    let dump = dumpfile::parse_dump(KEYED);
    let schema = dump.schemas.get("t").unwrap();
    let stmts = dump.inserts.get("t").unwrap();
    let new = try_compute_table_plan(schema, stmts, true, vec![]);
    assert!(matches!(new, Some(TablePlan::New { .. })));
    let keyed = try_compute_table_plan(schema, stmts, false, vec![]);
    assert!(matches!(keyed, Some(TablePlan::Keyed { .. })));

    let plain = dumpfile::parse_dump(b"CREATE TABLE `t` (`a` int);INSERT INTO `t` VALUES (1);");
    let unkeyed = try_compute_table_plan(
        plain.schemas.get("t").unwrap(),
        plain.inserts.get("t").unwrap(),
        false,
        vec![],
    );
    assert!(matches!(unkeyed, Some(TablePlan::Unkeyed { .. })));

    let broken = dumpfile::parse_dump(b"CREATE TABLE `t` (`a` int);INSERT INTO `t` VALUES (1;");
    assert!(try_compute_table_plan(
        broken.schemas.get("t").unwrap(),
        broken.inserts.get("t").unwrap(),
        true,
        vec![],
    )
    .is_none());
}
