//! Schemas from `information_schema`, and the map that holds them.

use mysync::db::fetch_local_tables;
use mysync::ddl::{parse_create_table, ColumnDefault};
use mysync::order::{comes_before, sort_strings};
use mysync::table_map::TableMap;

fn s(x: &str) -> String {
    x.to_string()
}

#[test]
fn tables_are_put_together_from_rows() {
    let tables = [s("a"), s("b")];
    let columns = [
        (s("a"), s("id"), s("INT"), s("NO")),
        (s("a"), s("name"), s("varchar"), s("YES")),
        (s("b"), s("x"), s("bit"), s("no")),
        (s("view"), s("x"), s("int"), s("NO")),
    ];
    let pk = [(s("a"), s("id"))];
    let uk = [
        (s("b"), s("u1"), s("x")),
        (s("b"), s("u2"), s("y")),
        (s("b"), s("u1"), s("z")),
        (s("a"), s("u1"), s("name")),
    ];
    let schemas = fetch_local_tables(&tables, &columns, &pk, &uk);
    assert_eq!(schemas.len(), 2);
    let a = schemas.get("a").unwrap();
    assert_eq!(a.name, "a");
    assert_eq!(a.column_names(), vec!["id", "name"]);
    assert_eq!(a.columns[0].data_type, "int");
    assert!(!a.columns[0].nullable);
    assert!(a.columns[1].nullable);
    assert_eq!(a.columns[0].bit_width, None);
    assert_eq!(a.columns[0].default, ColumnDefault::Absent);
    assert_eq!(a.primary_key, vec![s("id")]);
    assert_eq!(a.unique_keys, vec![vec![s("name")]]);
    assert!(a.raw_statement.is_empty());
    let b = schemas.get("b").unwrap();
    assert!(b.primary_key.is_empty());
    assert_eq!(b.unique_keys, vec![vec![s("x"), s("z")], vec![s("y")]]);
    assert!(!b.columns[0].nullable);
    assert!(!schemas.contains("view"));
}

#[test]
fn fetched_and_parsed_schemas_agree() {
    let schemas = fetch_local_tables(
        &[s("t")],
        &[(s("t"), s("id"), s("int"), s("NO")), (s("t"), s("f"), s("bit"), s("YES"))],
        &[(s("t"), s("id"))],
        &[],
    );
    let dump = parse_create_table(b"CREATE TABLE `t` (`id` INT NOT NULL DEFAULT 0, `f` bit(3), PRIMARY KEY (`id`))");
    assert_eq!(schemas.get("t").unwrap().signature(), dump.signature());
}

#[test]
fn types_are_lowercased_beyond_ascii() {
    let schemas = fetch_local_tables(&[s("t")], &[(s("t"), s("c"), s("ÄRGER"), s("NO"))], &[], &[]);
    assert_eq!(schemas.get("t").unwrap().columns[0].data_type, "ärger");
}

#[test]
fn a_name_that_comes_twice_is_left_empty() {
    let columns = [(s("t"), s("c"), s("int"), s("NO"))];
    let schemas = fetch_local_tables(&[s("t"), s("t")], &columns, &[], &[]);
    assert_eq!(schemas.len(), 1);
    assert!(schemas.get("t").unwrap().columns.is_empty());
}

#[test]
fn maps_hold_one_value_per_name() {
    let mut map: TableMap<u32> = TableMap::new();
    assert_eq!(map.len(), 0);
    map.insert(s("b"), 1);
    map.insert(s("a"), 2);
    map.insert(s("b"), 3);
    assert_eq!(map.len(), 2);
    assert_eq!(map.get("b"), Some(&3));
    assert_eq!(map.entry(0), ("b", &3));
    assert_eq!(map.entry(1), ("a", &2));
    let copy = map.clone();
    assert_eq!(map.remove("b"), Some(3));
    assert_eq!(map.remove("b"), None);
    assert!(!map.contains("b"));
    assert!(map.contains("a"));
    assert_eq!(copy.get("b"), Some(&3));
}

#[test]
fn strings_are_ordered_by_their_bytes() {
    assert!(comes_before("", "a"));
    assert!(comes_before("Z", "a"));
    assert!(comes_before("a", "aa"));
    assert!(comes_before("z", "é"));
    assert!(!comes_before("a", "a"));
    let list = ["b", "a", "é", "B", "ab", "a"];
    let mut want: Vec<String> = list.iter().map(|x| s(x)).collect();
    let got = sort_strings(want.clone());
    want.sort();
    assert_eq!(got, want);
}
