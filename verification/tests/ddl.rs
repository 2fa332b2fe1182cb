//! `CREATE TABLE` statements.

use mysync::ddl::{extract_default, parse_create_table, parse_default_value, try_parse_create_table, ColumnDefault};

#[test]
fn parses_columns_and_primary_key() {
    let stmt = b"CREATE TABLE `_building` (\n  `id` int NOT NULL AUTO_INCREMENT,\n  `building_id` int NOT NULL DEFAULT '0',\n  PRIMARY KEY (`id`),\n  KEY `IDX_building_id` (`building_id`)\n) ENGINE=InnoDB AUTO_INCREMENT=2208668 DEFAULT CHARSET=utf8mb3";
    let schema = parse_create_table(stmt);
    assert_eq!(schema.name, "_building");
    assert_eq!(schema.column_names(), vec!["id", "building_id"]);
    assert_eq!(schema.primary_key, vec!["id".to_string()]);
    assert_eq!(schema.key_columns(), Some(&["id".to_string()][..]));
    assert!(!schema.columns[0].nullable);
    assert_eq!(
        schema.columns[1].default,
        ColumnDefault::Literal(Some(b"0".to_vec()))
    );
}

#[test]
fn bit_column_width_defaults_to_one_without_parens() {
    let stmt = b"CREATE TABLE `t` (`flag` bit NOT NULL, `flags` bit(9) NOT NULL)";
    let schema = parse_create_table(stmt);
    assert_eq!(schema.columns[0].bit_width, Some(1));
    assert_eq!(schema.columns[1].bit_width, Some(9));
    assert_eq!(schema.columns[0].data_type, "bit");
    // non-bit columns don't get a width at all
    let other = parse_create_table(b"CREATE TABLE `t` (`id` int NOT NULL)");
    assert_eq!(other.columns[0].bit_width, None);
}

#[test]
fn default_clause_variants() {
    let stmt = b"CREATE TABLE `t` (\n\
        `a` int DEFAULT NULL,\n\
        `b` int NOT NULL DEFAULT '0',\n\
        `c` varchar(10) NOT NULL DEFAULT 'x',\n\
        `d` bit(4) NOT NULL DEFAULT b'1010',\n\
        `e` timestamp NULL DEFAULT CURRENT_TIMESTAMP,\n\
        `f` int NOT NULL\n\
    )";
    let schema = parse_create_table(stmt);
    assert_eq!(schema.columns[0].default, ColumnDefault::Literal(None));
    assert_eq!(
        schema.columns[1].default,
        ColumnDefault::Literal(Some(b"0".to_vec()))
    );
    assert_eq!(
        schema.columns[2].default,
        ColumnDefault::Literal(Some(b"x".to_vec()))
    );
    assert_eq!(
        schema.columns[3].default,
        ColumnDefault::Literal(Some(vec![0x0A]))
    );
    assert_eq!(schema.columns[4].default, ColumnDefault::Expression);
    assert_eq!(schema.columns[5].default, ColumnDefault::Absent);
}

#[test]
fn default_word_inside_comment_is_not_mistaken_for_default_clause() {
    let stmt =
        b"CREATE TABLE `t` (`a` int NOT NULL COMMENT 'uses the default value elsewhere')";
    let schema = parse_create_table(stmt);
    assert_eq!(schema.columns[0].default, ColumnDefault::Absent);
}

#[test]
fn table_with_no_primary_or_unique_key_has_no_key_columns() {
    let stmt = b"CREATE TABLE `system` (\n  `name` varchar(255) DEFAULT NULL,\n  `value` text,\n  `created_at` timestamp NULL DEFAULT NULL,\n  `updated_at` timestamp NULL DEFAULT NULL,\n  KEY `IDX_name` (`name`)\n) ENGINE=InnoDB DEFAULT CHARSET=utf8mb3";
    let schema = parse_create_table(stmt);
    assert_eq!(schema.name, "system");
    assert!(schema.primary_key.is_empty());
    assert_eq!(schema.key_columns(), None);
    assert!(schema.columns[0].nullable);
}

#[test]
fn unique_key_used_only_when_all_columns_non_nullable() {
    let stmt = b"CREATE TABLE `t` (\n  `a` int NOT NULL,\n  `b` int DEFAULT NULL,\n  UNIQUE KEY `uk_a` (`a`),\n  UNIQUE KEY `uk_ab` (`a`,`b`)\n) ENGINE=InnoDB";
    let schema = parse_create_table(stmt);
    assert!(schema.primary_key.is_empty());
    // uk_a (a only, non-nullable) should win over uk_ab (b is nullable)
    assert_eq!(schema.key_columns(), Some(&["a".to_string()][..]));
}

#[test]
fn signature_ignores_index_and_engine_but_catches_column_changes() {
    let a = parse_create_table(
        b"CREATE TABLE `t` (`id` int NOT NULL, PRIMARY KEY (`id`)) ENGINE=InnoDB AUTO_INCREMENT=5",
    );
    let b = parse_create_table(
        b"CREATE TABLE `t` (`id` int NOT NULL, KEY `ix` (`id`), PRIMARY KEY (`id`)) ENGINE=MyISAM",
    );
    assert_eq!(a.signature(), b.signature());

    let c = parse_create_table(b"CREATE TABLE `t` (`id` bigint NOT NULL, PRIMARY KEY (`id`))");
    assert_ne!(a.signature(), c.signature());
}

#[test]
fn the_key_must_be_the_only_constraint_to_be_effective() {
    let one = parse_create_table(b"CREATE TABLE `t` (`a` int NOT NULL, UNIQUE KEY `u` (`a`))");
    assert_eq!(one.effective_key(), Some(&["a".to_string()][..]));
    let two = parse_create_table(
        b"CREATE TABLE `t` (`a` int NOT NULL, `b` int NOT NULL, PRIMARY KEY (`a`), UNIQUE INDEX `u` (`b`))",
    );
    assert_eq!(two.key_columns(), Some(&["a".to_string()][..]));
    assert_eq!(two.effective_key(), None);
    assert_eq!(two.unique_keys, vec![vec!["b".to_string()]]);
    let nullable = parse_create_table(b"CREATE TABLE `t` (`a` int, UNIQUE KEY `u` (`a`))");
    assert_eq!(nullable.key_columns(), None);
    assert_eq!(nullable.effective_key(), None);
}

#[test]
fn the_statement_is_kept_without_its_comments() {
    let schema = parse_create_table(b"-- Table `x`\n/* old */ create table `x` (`a` INT)");
    assert_eq!(schema.raw_statement, b"create table `x` (`a` INT)");
    assert_eq!(schema.columns[0].data_type, "int");
    assert!(schema.columns[0].nullable);
}

#[test]
fn keys_over_several_columns_and_expressions() {
    let schema = parse_create_table(
        b"CREATE TABLE `t` (`a` int NOT NULL, `b` int NOT NULL, PRIMARY KEY (`a`,`b`(10)), UNIQUE KEY `u` ((lower(`a`))))",
    );
    assert_eq!(schema.primary_key, vec!["a".to_string(), "b".to_string()]);
    assert_eq!(schema.unique_keys, vec![Vec::<String>::new()]);
}

#[test]
fn malformed_statements_are_not_parsed() {
    assert!(try_parse_create_table(b"CREATE VIEW `v` AS SELECT 1").is_none());
    assert!(try_parse_create_table(b"CREATE TABLE t (a int)").is_none());
    assert!(try_parse_create_table(b"CREATE TABLE `t").is_none());
    assert!(try_parse_create_table(b"CREATE TABLE `t` LIKE `u`").is_none());
    assert!(try_parse_create_table(b"CREATE TABLE `t` (`a` int").is_none());
    assert!(try_parse_create_table(b"CREATE TABLE `\xff` (`a` int)").is_none());
    assert!(try_parse_create_table(b"CREATE TABLE `t` (`a` int, PRIMARY KEY (`a`)").is_none());
}

#[test]
fn default_values_of_every_form() {
    let lit = |b: &[u8]| Some(ColumnDefault::Literal(Some(b.to_vec())));
    assert_eq!(parse_default_value(b"null,", None), Some(ColumnDefault::Literal(None)));
    assert_eq!(parse_default_value(b"'a\\nb' COMMENT 'x'", None), lit(b"a\nb"));
    assert_eq!(parse_default_value(b"\"q\"", None), lit(b"q"));
    assert_eq!(parse_default_value(b"-1.5e3 NOT NULL", None), lit(b"-1.5e3"));
    assert_eq!(parse_default_value(b"0x4142 NOT NULL", None), lit(b"AB"));
    assert_eq!(parse_default_value(b"b'101'", Some(3)), lit(&[5]));
    assert_eq!(parse_default_value(b"NULLIF(1,1)", None), Some(ColumnDefault::Expression));
    assert_eq!(parse_default_value(b"(uuid())", None), Some(ColumnDefault::Expression));
    assert_eq!(parse_default_value(b"", None), Some(ColumnDefault::Expression));
    assert_eq!(parse_default_value(b"'", None), None);
}

#[test]
fn the_default_keyword_is_a_whole_word() {
    assert_eq!(extract_default(b"int defaulted 1", None), Some(ColumnDefault::Absent));
    assert_eq!(extract_default(b"int xdefault 1", None), Some(ColumnDefault::Absent));
    assert_eq!(
        extract_default(b"int Default 1", None),
        Some(ColumnDefault::Literal(Some(b"1".to_vec())))
    );
}

#[test]
fn defaults_resolve_to_the_literal_or_null() {
    assert_eq!(ColumnDefault::Literal(Some(b"7".to_vec())).resolve(), Some(b"7".to_vec()));
    assert_eq!(ColumnDefault::Literal(None).resolve(), None);
    assert_eq!(ColumnDefault::Absent.resolve(), None);
    assert_eq!(ColumnDefault::Expression.resolve(), None);
}

#[test]
fn columns_are_found_by_name() {
    let schema = parse_create_table(b"CREATE TABLE `t` (`a` int, `b` int)");
    assert_eq!(schema.column_index("b"), Some(1));
    assert_eq!(schema.column_index("c"), None);
}

#[test]
fn odd_bit_widths_fall_back_to_one() {
    let schema = parse_create_table(b"CREATE TABLE `t` (`a` bit (x), `b` BIT( +12 ), `c` bit(99999999999))");
    assert_eq!(schema.columns[0].bit_width, Some(1));
    assert_eq!(schema.columns[1].bit_width, Some(12));
    assert_eq!(schema.columns[2].bit_width, Some(1));
}

#[test]
fn not_null_counts_only_as_an_attribute() {
    let stmt = b"CREATE TABLE `t` (\n\
        `a` int DEFAULT NULL COMMENT 'is NOT NULL elsewhere',\n\
        `b` int CHECK (`b` is not null),\n\
        `c` int not null COMMENT 'c',\n\
        `NOT NULL` int,\n\
        `e` enum('NOT NULL','x')\n\
    )";
    let schema = parse_create_table(stmt);
    let nullable: Vec<bool> = schema.columns.iter().map(|c| c.nullable).collect();
    assert_eq!(nullable, vec![true, true, false, true, true]);
}

#[test]
fn indexes_constraints_and_options_change_nothing() {
    let plain = parse_create_table(b"CREATE TABLE `t` (`a` int NOT NULL,`b` int,PRIMARY KEY (`a`))");
    let stmt = b"CREATE TABLE `t` (\n\
        KEY `first` (`b`,`a`),\n\
        `a` int NOT NULL,\n\
        CONSTRAINT `fk` FOREIGN KEY (`b`) REFERENCES `u` (`x`) ON DELETE CASCADE,\n\
        `b` int,\n\
        PRIMARY KEY (`a`),\n\
        FULLTEXT KEY `ft` (`b`),\n\
        CHECK (`a` > 1 and `b` <> ')')\n\
    ) ENGINE=InnoDB COMMENT='(`c` int, UNIQUE KEY `u` (`b`))'";
    let schema = parse_create_table(stmt);
    assert_eq!(schema.name, plain.name);
    assert_eq!(schema.column_names(), plain.column_names());
    assert_eq!(schema.primary_key, plain.primary_key);
    assert_eq!(schema.unique_keys, plain.unique_keys);
    assert!(!schema.columns[0].nullable && schema.columns[1].nullable);
}

#[test]
fn attributes_stand_in_any_order() {
    let stmt = b"CREATE TABLE `t` (\n\
        `id` bigint(20) unsigned NOT NULL AUTO_INCREMENT COMMENT 'it''s, (\\'default\\')',\n\
        `at` timestamp(6) NOT NULL DEFAULT CURRENT_TIMESTAMP(6) ON UPDATE CURRENT_TIMESTAMP(6),\n\
        `on` bit(9) DEFAULT b'100000001' COMMENT 'flags' NOT NULL,\n\
        `by` datetime DEFAULT current_timestamp(),\n\
        `of` enum('a,b','c)') CHARACTER SET utf8mb4 DEFAULT 'c)',\n\
        `in` decimal(10,2) DEFAULT -1.5 COMMENT 'x',\n\
        PRIMARY KEY (`id`, `at`),\n\
        UNIQUE KEY `u` (`on`)\n\
    )";
    let schema = parse_create_table(stmt);
    assert_eq!(schema.column_names(), vec!["id", "at", "on", "by", "of", "in"]);
    let nullable: Vec<bool> = schema.columns.iter().map(|c| c.nullable).collect();
    assert_eq!(nullable, vec![false, false, false, true, true, true]);
    let types: Vec<&str> = schema.columns.iter().map(|c| c.data_type.as_str()).collect();
    assert_eq!(types, vec!["bigint", "timestamp", "bit", "datetime", "enum", "decimal"]);
    assert_eq!(schema.columns[0].default, ColumnDefault::Absent);
    assert_eq!(schema.columns[1].default, ColumnDefault::Expression);
    assert_eq!(schema.columns[2].default, ColumnDefault::Literal(Some(vec![1, 1])));
    assert_eq!(schema.columns[2].bit_width, Some(9));
    assert_eq!(schema.columns[3].default, ColumnDefault::Expression);
    assert_eq!(schema.columns[4].default, ColumnDefault::Literal(Some(b"c)".to_vec())));
    assert_eq!(schema.columns[5].default, ColumnDefault::Literal(Some(b"-1.5".to_vec())));
    assert_eq!(schema.primary_key, vec!["id".to_string(), "at".to_string()]);
    assert_eq!(schema.unique_keys, vec![vec!["on".to_string()]]);
}
