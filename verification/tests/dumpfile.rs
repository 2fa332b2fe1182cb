//! Whole dumps and their rows.

use std::io::Write;

use mysql::Value;
use mysync::dumpfile::{is_gzip, parse_dump, read_dump_bytes, try_parse_dump};
use mysync::rows::{iter_dump_rows, row_to_cells, try_dump_rows, try_row_to_cells};
use mysync::values::Cell;

fn cell(s: &str) -> Cell {
    Some(s.as_bytes().to_vec())
}

fn rows_of(data: &[u8], table: &str) -> Vec<Vec<Cell>> {
    let dump = parse_dump(data);
    iter_dump_rows(dump.schemas.get(table).unwrap(), dump.inserts.get(table).unwrap())
}

#[test]
fn plain_dumps_are_taken_as_they_are() {
    let raw = b"CREATE TABLE `t` (`a` int);".to_vec();
    assert!(!is_gzip(&raw));
    assert_eq!(read_dump_bytes(raw.clone()).unwrap(), raw);
    assert_eq!(read_dump_bytes(vec![]).unwrap(), Vec::<u8>::new());
    assert_eq!(read_dump_bytes(vec![0x1f]).unwrap(), vec![0x1f]);
}

#[test]
fn compressed_dumps_are_expanded() {
    let text = b"INSERT INTO `t` VALUES (1);\n".repeat(1000);
    let mut encoder = flate2::write::GzEncoder::new(Vec::new(), flate2::Compression::default());
    encoder.write_all(&text).unwrap();
    let packed = encoder.finish().unwrap();
    assert!(is_gzip(&packed));
    assert!(packed.len() < text.len());
    assert_eq!(read_dump_bytes(packed).unwrap(), text);
}

#[test]
fn broken_compressed_dumps_are_an_error() {
    let mut encoder = flate2::write::GzEncoder::new(Vec::new(), flate2::Compression::default());
    encoder.write_all(b"some text").unwrap();
    let mut packed = encoder.finish().unwrap();
    packed.truncate(packed.len() - 4);
    assert!(read_dump_bytes(packed).is_err());
    assert!(read_dump_bytes(vec![0x1f, 0x8b, 0x00]).is_err());
}

#[test]
fn tables_come_in_order_with_their_inserts() {
    let data = b"-- dump\n\
        /*!40101 SET NAMES utf8 */;\n\
        DROP TABLE IF EXISTS `b`;\n\
        CREATE TABLE `b` (`x` int);\n\
        LOCK TABLES `b` WRITE;\n\
        INSERT INTO `b` VALUES (1),(2);\n\
        INSERT IGNORE INTO `b` VALUES (3);\n\
        UNLOCK TABLES;\n\
        CREATE TABLE `a` (`y` text);\n\
        CREATE VIEW `v` AS SELECT 1;\n\
        insert into `a` values ('x;y');\n";
    let dump = parse_dump(data);
    assert_eq!(dump.table_order, vec!["b".to_string(), "a".to_string()]);
    assert_eq!(dump.schemas.len(), 2);
    assert!(!dump.schemas.contains("v"));
    let b = dump.inserts.get("b").unwrap();
    assert_eq!(b.len(), 2);
    assert_eq!(b[0].rows().collect(), vec![&b"1"[..], &b"2"[..]]);
    assert_eq!(b[1].rows().collect(), vec![&b"3"[..]]);
    assert_eq!(dump.inserts.get("a").unwrap()[0].explicit_columns, None);
    assert_eq!(rows_of(data, "a"), vec![vec![cell("x;y")]]);
}

#[test]
fn a_table_without_inserts_has_an_empty_list() {
    let dump = parse_dump(b"CREATE TABLE `t` (`a` int);");
    assert_eq!(dump.inserts.get("t").unwrap().len(), 0);
}

#[test]
fn inserts_before_their_table_and_into_unknown_tables_are_kept() {
    let dump = parse_dump(b"INSERT INTO `t` VALUES (1);CREATE TABLE `t` (`a` int);INSERT INTO `u` VALUES (2);");
    assert_eq!(dump.inserts.get("t").unwrap().len(), 1);
    assert_eq!(dump.inserts.get("u").unwrap().len(), 1);
    assert!(!dump.schemas.contains("u"));
}

#[test]
fn a_later_definition_replaces_an_earlier_one() {
    let dump = parse_dump(b"CREATE TABLE `t` (`a` int);CREATE TABLE `t` (`b` int);");
    assert_eq!(dump.table_order.len(), 2);
    assert_eq!(dump.schemas.len(), 1);
    assert_eq!(dump.schemas.get("t").unwrap().column_names(), vec!["b"]);
}

#[test]
fn column_lists_are_read() {
    let dump = parse_dump(b"/* x */ INSERT INTO `t` ( `a`, b ,`c` ) VALUES (1,2,3);");
    let insert = &dump.inserts.get("t").unwrap()[0];
    assert_eq!(insert.explicit_columns, Some(vec!["a", "b", "c"]));
    assert_eq!(insert.data, b"INSERT INTO `t` ( `a`, b ,`c` ) VALUES (1,2,3)");
    assert_eq!(&insert.data[insert.values_start..], b" (1,2,3)");
}

#[test]
fn malformed_statements_spoil_the_dump() {
    assert!(try_parse_dump(b"INSERT `t` VALUES (1);").is_none());
    assert!(try_parse_dump(b"INSERT INTO t VALUES (1);").is_none());
    assert!(try_parse_dump(b"INSERT INTO `t` SELECT 1;").is_none());
    assert!(try_parse_dump(b"INSERT INTO `t` (`a` VALUES (1);").is_none());
    assert!(try_parse_dump(b"INSERT INTO `\xff` VALUES (1);").is_none());
    assert!(try_parse_dump(b"INSERT INTO `t` (`\xff`) VALUES (1);").is_none());
    assert!(try_parse_dump(b"CREATE TABLE `t`;").is_none());
    // Statements of other kinds may hold anything.
    assert!(try_parse_dump(b"CREATE TRIGGER x; SET y = (; DROP z;").is_some());
}

#[test]
fn values_go_where_the_column_list_says() {
    let data = b"CREATE TABLE `t` (`a` int, `b` bit(8), `c` int DEFAULT 7, `d` int);\
        INSERT INTO `t` (`b`,`d`,`a`) VALUES (b'11',NULL,1),(b'1');";
    assert_eq!(
        rows_of(data, "t"),
        vec![
            vec![cell("1"), Some(vec![3]), cell("7"), None],
            // What the row is too short for is NULL.
            vec![None, Some(vec![1]), cell("7"), None],
        ]
    );
}

#[test]
fn the_last_mention_of_a_column_counts() {
    let data = b"CREATE TABLE `t` (`a` int);INSERT INTO `t` (`a`,`a`) VALUES (1,2);";
    assert_eq!(rows_of(data, "t"), vec![vec![cell("2")]]);
}

#[test]
fn rows_without_a_list_are_taken_as_they_are() {
    let data = b"CREATE TABLE `t` (`a` int, `b` int);INSERT INTO `t` VALUES (1),(1,2,3);";
    assert_eq!(
        rows_of(data, "t"),
        vec![vec![cell("1")], vec![cell("1"), cell("2"), cell("3")]]
    );
}

#[test]
fn a_whole_dump_reads_back() {
    let data = b"\n CREATE TABLE `t` (`a` int, `b` text);\
        \n INSERT INTO `t` VALUES (1,'it\\'s; (a,b) -- x'),(NULL,'\\\\'),(-2.5,0x4142);\
        \n SET x = 1;\
        \n INSERT INTO `t` VALUES (7,'#');";
    assert_eq!(
        rows_of(data, "t"),
        vec![
            vec![cell("1"), cell("it's; (a,b) -- x")],
            vec![None, cell("\\")],
            vec![cell("-2.5"), cell("AB")],
            vec![cell("7"), cell("#")],
        ]
    );
}

#[test]
fn malformed_rows_have_no_values() {
    let dump = parse_dump(b"CREATE TABLE `t` (`a` int);INSERT INTO `t` VALUES (1),(2;INSERT INTO `u` VALUES ();");
    let schema = dump.schemas.get("t").unwrap();
    assert!(try_dump_rows(schema, dump.inserts.get("t").unwrap()).is_none());
    // An empty tuple holds one empty value.
    assert_eq!(try_dump_rows(schema, dump.inserts.get("u").unwrap()), Some(vec![vec![cell("")]]));
}

#[test]
fn fetched_rows_are_nulls_and_bytes() {
    let row = vec![Value::NULL, Value::Bytes(b"x".to_vec())];
    assert_eq!(row_to_cells(row), vec![None, cell("x")]);
    assert_eq!(try_row_to_cells(vec![Value::NULL, Value::Int(1)]), None);
    assert_eq!(try_row_to_cells(vec![Value::Date(2024, 1, 2, 0, 0, 0, 0)]), None);
}

#[test]
fn a_trigger_adds_nothing() {
    let data = b"DELIMITER ;;\nCREATE TRIGGER `g` BEFORE INSERT ON `t` FOR EACH ROW BEGIN SET @a=1; INSERT INTO `l` VALUES (1); END;;\nDELIMITER ;\n";
    let dump = parse_dump(data);
    assert!(dump.table_order.is_empty());
    assert_eq!(dump.schemas.len(), 0);
    assert_eq!(dump.inserts.len(), 0);
}

#[test]
fn routines_between_tables_are_passed_over() {
    let data = b"CREATE TABLE `t` (`a` int);\n\
        INSERT INTO `t` VALUES (1);\n\
        /*!50003 SET sql_mode = 'ANSI' */ ;\n\
        -- a trigger; with a comment\n\
        delimiter $$\r\n\
        CREATE DEFINER=`r`@`%` TRIGGER `g` AFTER INSERT ON `t` FOR EACH ROW BEGIN\n\
          CREATE TABLE `x` (`b` int);\n\
          INSERT INTO `l` VALUES (2);\n\
        END $$\r\n\
        CREATE PROCEDURE `p`() BEGIN SELECT '$$'; INSERT INTO `l` VALUES (3); END $$\n\
        DELIMITER ;\r\n\
        INSERT INTO `t` VALUES (4);\n\
        DELIMITER //\n\
        /*!50003 CREATE FUNCTION `f`() RETURNS int BEGIN INSERT INTO `l` VALUES (5); RETURN 1; END */ //\n\
        DELIMITER ;\n\
        CREATE TABLE `u` (`a` int);\n";
    let dump = parse_dump(data);
    assert_eq!(dump.table_order, vec!["t".to_string(), "u".to_string()]);
    assert!(dump.schemas.get("x").is_none());
    assert!(dump.inserts.get("l").is_none());
    assert_eq!(rows_of(data, "t"), vec![vec![cell("1")], vec![cell("4")]]);
    assert!(rows_of(data, "u").is_empty());
}

#[test]
fn statements_end_with_the_delimiter_that_was_set() {
    let data = b"DELIMITER ;;\nCREATE TABLE `t` (`a` varchar(9));;\nINSERT INTO `t` VALUES ('a;;b');;\nDELIMITER ;\nINSERT INTO `t` VALUES ('c');";
    assert_eq!(rows_of(data, "t"), vec![vec![cell("a;;b")], vec![cell("c")]]);
}

#[test]
fn inserts_of_every_form_read_back() {
    let data = b"CREATE TABLE `t` (`a` int, `b` bit(9), `c` varchar(9) DEFAULT 'x');\n\
        INSERT IGNORE INTO `t` (`b`, `a`) VALUES (b'100000001',1),(b'1',2);\n\
        INSERT INTO `t` (`c`,`a`) VALUES ('y',NULL);\n\
        INSERT INTO `t` VALUES (3,b'',0x4142);";
    assert_eq!(
        rows_of(data, "t"),
        vec![
            vec![cell("1"), Some(vec![1, 1]), cell("x")],
            vec![cell("2"), Some(vec![0, 1]), cell("x")],
            vec![None, None, cell("y")],
            vec![cell("3"), Some(vec![0, 0]), cell("AB")],
        ]
    );
}

#[test]
fn triggers_in_conditional_comments_add_nothing() {
    // The comment in the body ends the conditional one early.
    let data = b"DELIMITER ;;\n\
        /*!50003 CREATE*/ /*!50017 DEFINER=`r`@`%`*/ /*!50003 TRIGGER `g` AFTER INSERT ON `t` FOR EACH ROW BEGIN /* log it */ INSERT INTO `l` VALUES (1); END */;;\n\
        DELIMITER ;\n\
        /*!40101 SET NAMES utf8 */ INSERT INTO `t` VALUES (1);\n";
    let dump = parse_dump(data);
    assert!(dump.table_order.is_empty());
    assert_eq!(dump.inserts.len(), 1);
    assert_eq!(dump.inserts.get("t").unwrap().len(), 1);
}
