//! The statements that apply a plan.

use mysql::Value;
use mysync::ddl::{parse_create_table, TableSchema};
use mysync::dml::{
    apply_table_plan, bulk_insert, chunked, delete_by_key, delete_n_matching, safe_batch_size, select_statement,
    try_apply_table_plan, upsert_batch, Statement,
};
use mysync::plan::{TablePlan, TableStats};
use mysync::sqltext::{quote_ident, repeat_part};
use mysync::values::Cell;

fn cell(s: &str) -> Cell {
    Some(s.as_bytes().to_vec())
}

fn row(cells: &[&str]) -> Vec<Cell> {
    cells.iter().map(|c| cell(c)).collect()
}

fn bytes(s: &str) -> Value {
    Value::Bytes(s.as_bytes().to_vec())
}

fn names(list: &[&str]) -> Vec<String> {
    list.iter().map(|s| s.to_string()).collect()
}

fn sql(list: &[Statement]) -> Vec<&str> {
    list.iter().map(|s| s.sql.as_str()).collect()
}

fn table() -> TableSchema {
    parse_create_table(b"CREATE TABLE `t` (`a` int NOT NULL, `b` int, `c``d` int, PRIMARY KEY (`a`))")
}

#[test]
fn identifiers_are_quoted() {
    assert_eq!(quote_ident("plain"), "`plain`");
    assert_eq!(quote_ident("a`b``"), "`a``b`````");
    assert_eq!(quote_ident(""), "``");
    assert_eq!(quote_ident("naïve"), "`naïve`");
}

#[test]
fn parts_are_repeated_with_commas() {
    assert_eq!(repeat_part("?", 0), "");
    assert_eq!(repeat_part("?", 1), "?");
    assert_eq!(repeat_part("(?)", 3), "(?),(?),(?)");
}

#[test]
fn batches_stay_within_the_placeholder_limit() {
    assert_eq!(safe_batch_size(1000, 10), 1000);
    assert_eq!(safe_batch_size(1000, 122), 537);
    assert_eq!(safe_batch_size(1000, 65535), 1);
    assert_eq!(safe_batch_size(1000, 70000), 1);
    assert_eq!(safe_batch_size(0, 3), 1);
    assert_eq!(safe_batch_size(100000, 0), 65535);
    let wide: Vec<String> = (0..122).map(|i| format!("c{i}")).collect();
    let columns: Vec<&str> = wide.iter().map(|s| s.as_str()).collect();
    let list: Vec<Vec<Cell>> = (0..1000).map(|_| vec![None; 122]).collect();
    let statements = bulk_insert("t", &columns, list, 1000);
    assert_eq!(statements.len(), 2);
    assert_eq!(statements[0].params.len(), 537 * 122);
    assert!(statements.iter().all(|s| s.params.len() <= 65535));
    assert_eq!(statements[0].sql.matches('?').count(), statements[0].params.len());
    assert_eq!(statements[1].params.len(), 463 * 122);
}

#[test]
fn chunks_keep_everything_in_order() {
    let all: Vec<u32> = (0..10).collect();
    let pieces = chunked(all.clone(), 4);
    assert_eq!(pieces, vec![vec![0, 1, 2, 3], vec![4, 5, 6, 7], vec![8, 9]]);
    assert_eq!(pieces.concat(), all);
    assert_eq!(chunked(vec![1, 2], 2), vec![vec![1, 2]]);
    assert!(chunked(Vec::<u8>::new(), 3).is_empty());
}

#[test]
fn rows_are_inserted_in_batches() {
    let list = vec![row(&["1", "x"]), vec![None, cell("y")], row(&["3", "z"])];
    let statements = bulk_insert("t`t", &["a", "b"], list, 2);
    assert_eq!(
        sql(&statements),
        vec![
            "INSERT INTO `t``t` (`a`,`b`) VALUES (?,?),(?,?)",
            "INSERT INTO `t``t` (`a`,`b`) VALUES (?,?)",
        ]
    );
    assert_eq!(statements[0].params, vec![bytes("1"), bytes("x"), Value::NULL, bytes("y")]);
    assert_eq!(statements[1].params, vec![bytes("3"), bytes("z")]);
}

#[test]
fn upserts_update_every_column_outside_the_key() {
    let statements = upsert_batch(&table(), &names(&["a"]), vec![row(&["1", "2", "3"])], 10);
    assert_eq!(
        sql(&statements),
        vec!["INSERT INTO `t` (`a`,`b`,`c`) VALUES (?,?,?) ON DUPLICATE KEY UPDATE `b`=VALUES(`b`),`c`=VALUES(`c`)"]
    );
    let all_key = upsert_batch(&table(), &names(&["c", "b", "a"]), vec![row(&["1", "2", "3"])], 10);
    assert_eq!(sql(&all_key), vec!["INSERT INTO `t` (`a`,`b`,`c`) VALUES (?,?,?)"]);
}

#[test]
fn rows_are_deleted_by_key() {
    let one = delete_by_key("t", &names(&["a"]), vec![row(&["1"]), vec![None], row(&["3"])], 2);
    assert_eq!(
        sql(&one),
        vec!["DELETE FROM `t` WHERE `a` IN (?,?)", "DELETE FROM `t` WHERE `a` IN (?)"]
    );
    assert_eq!(one[0].params, vec![bytes("1"), Value::NULL]);
    let two = delete_by_key("t", &names(&["a", "b"]), vec![row(&["1", "x"]), row(&["2", "y"])], 10);
    assert_eq!(sql(&two), vec!["DELETE FROM `t` WHERE (`a`,`b`) IN ((?,?),(?,?))"]);
    assert_eq!(two[0].params, vec![bytes("1"), bytes("x"), bytes("2"), bytes("y")]);
}

#[test]
fn copies_are_deleted_with_a_limit() {
    let s = delete_n_matching("t", &["a", "b", "c"], &[cell("1"), None, cell("x")], 12);
    assert_eq!(s.sql, "DELETE FROM `t` WHERE `a` <=> ? AND `b` IS NULL AND `c` <=> ? LIMIT 12");
    assert_eq!(s.params, vec![bytes("1"), bytes("x")]);
    let max = delete_n_matching("t", &["a"], &[None], u64::MAX);
    assert_eq!(max.sql, "DELETE FROM `t` WHERE `a` IS NULL LIMIT 18446744073709551615");
    assert!(max.params.is_empty());
}

#[test]
fn new_tables_are_filled() {
    let plan = TablePlan::New { rows: vec![row(&["1", "2", "3"])] };
    let statements = apply_table_plan(&table(), None, plan, 1000);
    assert_eq!(sql(&statements), vec!["INSERT INTO `t` (`a`,`b`,`c`) VALUES (?,?,?)"]);
    let empty = apply_table_plan(&table(), None, TablePlan::New { rows: vec![] }, 1000);
    assert!(empty.is_empty());
}

#[test]
fn keyed_plans_upsert_then_delete() {
    let schema = table();
    let plan = TablePlan::Keyed {
        to_insert: vec![row(&["1", "i", "i"])],
        to_update: vec![row(&["2", "u", "u"])],
        delete_keys: vec![row(&["9"])],
    };
    let statements = apply_table_plan(&schema, schema.key_columns(), plan, 1000);
    assert_eq!(
        sql(&statements),
        vec![
            "INSERT INTO `t` (`a`,`b`,`c`) VALUES (?,?,?),(?,?,?) ON DUPLICATE KEY UPDATE `b`=VALUES(`b`),`c`=VALUES(`c`)",
            "DELETE FROM `t` WHERE `a` IN (?)",
        ]
    );
    assert_eq!(statements[0].params[0], bytes("1"));
    assert_eq!(statements[0].params[3], bytes("2"));
    let nothing = TablePlan::Keyed { to_insert: vec![], to_update: vec![], delete_keys: vec![] };
    assert!(apply_table_plan(&schema, schema.key_columns(), nothing, 1000).is_empty());
}

#[test]
fn a_keyed_plan_needs_its_key() {
    let schema = table();
    let plan = || TablePlan::Keyed { to_insert: vec![], to_update: vec![], delete_keys: vec![vec![]] };
    assert!(try_apply_table_plan(&schema, None, plan(), 1).is_none());
    assert!(try_apply_table_plan(&schema, schema.key_columns(), plan(), 1).is_none());
    let two = names(&["a", "b"]);
    assert!(try_apply_table_plan(&schema, Some(&two), plan(), 1).is_some());
}

#[test]
fn unkeyed_plans_insert_then_delete() {
    let plan = TablePlan::Unkeyed {
        to_insert: vec![row(&["1", "2", "3"])],
        to_delete: vec![(vec![None, None, None], 2), (row(&["4", "5", "6"]), 1)],
    };
    let statements = apply_table_plan(&table(), None, plan, 1000);
    assert_eq!(
        sql(&statements),
        vec![
            "INSERT INTO `t` (`a`,`b`,`c`) VALUES (?,?,?)",
            "DELETE FROM `t` WHERE `a` IS NULL AND `b` IS NULL AND `c` IS NULL LIMIT 2",
            "DELETE FROM `t` WHERE `a` <=> ? AND `b` <=> ? AND `c` <=> ? LIMIT 1",
        ]
    );
}

#[test]
fn all_rows_of_a_table_are_selected() {
    assert_eq!(select_statement(&table()), "SELECT `a`,`b`,`c` FROM `t`");
}

#[test]
fn stats_count_rows() {
    let zero = TableStats::default();
    assert_eq!((zero.inserted, zero.updated, zero.deleted), (0, 0, 0));
    let plan = TablePlan::Unkeyed {
        to_insert: vec![vec![], vec![]],
        to_delete: vec![(vec![], 3), (vec![None], 4)],
    };
    let stats = plan.stats();
    assert_eq!((stats.inserted, stats.updated, stats.deleted), (2, 0, 7));
    let new = TablePlan::New { rows: vec![vec![]] }.stats();
    assert_eq!((new.inserted, new.updated, new.deleted), (1, 0, 0));
}
