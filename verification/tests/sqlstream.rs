//! Cutting a buffer into statements, parts and groups.

use mysync::sqlstream::{
    find_matching_paren, iter_paren_groups, iter_statements, split_toplevel, statement_keyword, strip_leading_comments,
    try_matching_paren, GroupStep,
};

#[test]
fn splits_simple_statements() {
    let data = b"CREATE TABLE t (a int);\nINSERT INTO t VALUES (1);\n";
    let stmts: Vec<&[u8]> = iter_statements(data).collect();
    assert_eq!(stmts, vec![
        &b"CREATE TABLE t (a int)"[..],
        &b"INSERT INTO t VALUES (1)"[..],
    ]);
}

#[test]
fn ignores_semicolons_inside_strings_and_comments() {
    let data = b"-- a;b\nINSERT INTO t VALUES ('a;b', \"c;d\", `e;f`);\n";
    let stmts: Vec<&[u8]> = iter_statements(data).collect();
    assert_eq!(stmts.len(), 1);
    assert!(stmts[0].starts_with(b"-- a;b\nINSERT"));
}

#[test]
fn skips_block_and_hash_comments() {
    // A comment belongs to the statement behind it: no unquoted `;` stands between them.
    let data = b"/* c;d */ SELECT 1; # e;f\nSELECT 2;";
    let stmts: Vec<&[u8]> = iter_statements(data).collect();
    assert_eq!(
        stmts,
        vec![&b"/* c;d */ SELECT 1"[..], &b"# e;f\nSELECT 2"[..]]
    );
    assert_eq!(statement_keyword(stmts[1]), "SELECT");
}

#[test]
fn keyword_skips_decorative_comments() {
    let stmt = b"--\n-- Table structure for table `x`\n--\n\nDROP TABLE IF EXISTS `x`";
    assert_eq!(statement_keyword(stmt), "DROP");
}

#[test]
fn matching_paren_is_quote_aware() {
    let data = b"(a, 'b)c', (nested), `d)e`)";
    assert_eq!(find_matching_paren(data, 0), data.len() - 1);
}

#[test]
fn split_toplevel_respects_depth_and_quotes() {
    let data = b"1,'a,b',(2,3),`c,d`,4";
    let parts = split_toplevel(data, b',');
    assert_eq!(
        parts,
        vec![
            &b"1"[..],
            &b"'a,b'"[..],
            &b"(2,3)"[..],
            &b"`c,d`"[..],
            &b"4"[..],
        ]
    );
}

#[test]
fn paren_groups_pulls_out_row_tuples() {
    let data = b"(1,2),(3,'x,y'),(5,6)";
    let groups: Vec<&[u8]> = iter_paren_groups(data, 0).collect();
    assert_eq!(groups, vec![&b"1,2"[..], &b"3,'x,y'"[..], &b"5,6"[..]]);
}

#[test]
fn statements_come_one_by_one() {
    let mut it = iter_statements(b" a ;; b;c");
    assert_eq!(it.next(), Some(&b"a"[..]));
    assert_eq!(it.next(), Some(&b"b"[..]));
    // What no semicolon ends is no statement.
    assert_eq!(it.next(), None);
    assert_eq!(it.next(), None);
}

#[test]
fn doubled_and_escaped_quotes_stay_inside_a_statement() {
    let data = br"INSERT INTO t VALUES ('it''s; \'x\';', `a``;b`);SELECT 1;";
    let stmts: Vec<&[u8]> = iter_statements(data).collect();
    assert_eq!(stmts.len(), 2);
    assert_eq!(stmts[1], b"SELECT 1");
}

#[test]
fn an_unclosed_quote_swallows_the_rest() {
    let stmts: Vec<&[u8]> = iter_statements(b"SELECT 1; SELECT 'a; SELECT 2;").collect();
    assert_eq!(stmts, vec![&b"SELECT 1"[..]]);
}

#[test]
fn an_unclosed_comment_swallows_the_rest() {
    let stmts: Vec<&[u8]> = iter_statements(b"SELECT 1; /* a; SELECT 2;").collect();
    assert_eq!(stmts, vec![&b"SELECT 1"[..]]);
}

#[test]
fn comments_are_stripped_until_the_statement_starts() {
    assert_eq!(strip_leading_comments(b"-- x\n# y\n /* z */ SELECT 1"), b"SELECT 1");
    assert_eq!(strip_leading_comments(b"  SELECT 1"), b"SELECT 1");
    // A comment that does not end stays.
    assert_eq!(strip_leading_comments(b"-- x"), b"-- x");
    assert_eq!(strip_leading_comments(b"/* x"), b"/* x");
    let once = strip_leading_comments(b"/* a */ -- b\n c");
    assert_eq!(strip_leading_comments(once), once);
}

#[test]
fn keywords_are_uppercase_letters() {
    assert_eq!(statement_keyword(b"insert into t"), "INSERT");
    assert_eq!(statement_keyword(b"(SELECT 1)"), "");
    assert_eq!(statement_keyword(b""), "");
}

#[test]
fn unbalanced_parentheses_have_no_match() {
    assert_eq!(try_matching_paren(b"(a, (b)", 0), None);
    assert_eq!(try_matching_paren(b"(a, (b)", 4), Some(6));
    assert_eq!(try_matching_paren(b"('))')", 0), Some(5));
}

#[test]
fn split_parts_put_together_again() {
    let data = b"a,,'b,\\'c',(d,(e,f)),";
    let parts = split_toplevel(data, b',');
    assert_eq!(parts.len(), 5);
    let mut whole: Vec<u8> = Vec::new();
    for (i, p) in parts.iter().enumerate() {
        if i > 0 {
            whole.push(b',');
        }
        whole.extend_from_slice(p);
    }
    assert_eq!(whole, data);
    assert_eq!(split_toplevel(b"", b','), vec![&b""[..]]);
}

#[test]
fn groups_come_one_by_one() {
    let mut it = iter_paren_groups(b"VALUES (1,(2)), ('(') tail", 6);
    assert_eq!(it.next(), Some(&b"1,(2)"[..]));
    assert_eq!(it.next(), Some(&b"'('"[..]));
    assert_eq!(it.next(), None);
}

#[test]
fn an_unclosed_group_is_reported() {
    let mut it = iter_paren_groups(b"(1),(2", 0);
    assert!(matches!(it.step(), GroupStep::Group(b"1")));
    assert!(matches!(it.step(), GroupStep::Unbalanced));
    assert!(iter_paren_groups(b"(1),(2", 0).try_collect().is_none());
    assert_eq!(iter_paren_groups(b"", 0).try_collect(), Some(vec![]));
}

#[test]
fn a_delimiter_command_sets_what_ends_statements() {
    let data = b"SELECT 1; DELIMITER //\nSELECT 2; SELECT 3 // SELECT 4 //\n-- back\nDelimiter ;\nSELECT 5;";
    let stmts: Vec<&[u8]> = iter_statements(data).collect();
    assert_eq!(
        stmts,
        vec![&b"SELECT 1"[..], &b"SELECT 2; SELECT 3"[..], &b"SELECT 4"[..], &b"SELECT 5"[..]]
    );
}

#[test]
fn a_delimiter_is_not_seen_inside_quotes_and_comments() {
    let data = b"DELIMITER $$\nSELECT '$$', `$$` /* $$ */ -- $$\n$$ SELECT 1 $$";
    let stmts: Vec<&[u8]> = iter_statements(data).collect();
    assert_eq!(stmts, vec![&b"SELECT '$$', `$$` /* $$ */ -- $$"[..], &b"SELECT 1"[..]]);
}

#[test]
fn only_the_command_changes_the_delimiter() {
    let stmts: Vec<&[u8]> = iter_statements(b"DELIMITERS x; SELECT 1;").collect();
    assert_eq!(stmts, vec![&b"DELIMITERS x"[..], &b"SELECT 1"[..]]);
    // A command without a word changes nothing.
    let stmts: Vec<&[u8]> = iter_statements(b"DELIMITER \nSELECT 1;DELIMITER").collect();
    assert_eq!(stmts, vec![&b"SELECT 1"[..]]);
    // What follows the word on its line is dropped.
    let stmts: Vec<&[u8]> = iter_statements(b"DELIMITER | ignored;\nSELECT 1;2|").collect();
    assert_eq!(stmts, vec![&b"SELECT 1;2"[..]]);
}

#[test]
fn a_slash_does_not_open_and_close_a_comment() {
    assert_eq!(strip_leading_comments(b"/*/ SELECT 1"), b"/*/ SELECT 1");
    assert_eq!(strip_leading_comments(b"/*/ x */ SELECT 1"), b"SELECT 1");
    assert_eq!(strip_leading_comments(b"/**/ SELECT 1"), b"SELECT 1");
    let stmts: Vec<&[u8]> = iter_statements(b"/*/ a; */ SELECT 1;").collect();
    assert_eq!(stmts, vec![&b"/*/ a; */ SELECT 1"[..]]);
}

#[test]
fn groups_may_nest_and_stand_apart() {
    let data = b" x ((1),(2,')')) , and then ()\n(3,`(`) end";
    let groups: Vec<&[u8]> = iter_paren_groups(data, 0).collect();
    assert_eq!(groups, vec![&b"(1),(2,')')"[..], &b""[..], &b"3,`(`"[..]]);
}
