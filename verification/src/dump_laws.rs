//! What the statements of a dump add to it, and how an `INSERT` statement names its table and columns.

use vstd::prelude::*;
use vstd::utf8::{decode_utf8, valid_utf8};

use crate::bytes::{
    ascii, byte_index, equal_to, index_where, is_alphabetic, is_digit, is_space, lemma_index_where,
    lemma_index_where_is, lemma_trim_start_suffix, not_alphabetic, starts_ci, trim_start, uppercase,
    BACKTICK, EXCLAMATION, NEWLINE, SLASH, STAR,
};
use crate::ddl::{backtick, create_table};
use crate::definition_laws::{case_is_ignored_letter_by_letter, is_same_letter};
use crate::dumpfile::{
    column_list, column_ref, column_refs, dump_of, gzip_magic, insert_header, insert_target,
    is_conditional_create, not_digit, skip_word, DumpModel, InsertModel,
};
use crate::lexical::{is_blank, lemma_trim_front};
use crate::source_laws::trimming_takes_off_whitespace_only;
use crate::sqlstream::{
    comment_end, ends_comment, keyword, lemma_comment_end_bounds, lemma_paren_close_bounds,
    starts_block_comment, starts_line_comment, strip_comments,
};

verus! {

/// `s` begins with `word`, letter by letter up to case.
pub open spec fn begins_with(s: Seq<u8>, word: Seq<u8>) -> bool {
    &&& s.len() >= word.len()
    &&& forall|i: int| 0 <= i < word.len() ==> is_same_letter(#[trigger] s[i], word[i])
}

/// The `INSERT` statements that a dump has for a table.
pub open spec fn statements_for(dump: DumpModel, name: Seq<char>) -> Seq<InsertModel> {
    if dump.inserts.contains_key(name) {
        dump.inserts[name]
    } else {
        Seq::empty()
    }
}

/// Both dumps say the same of the definition of a table.
pub open spec fn same_definition(a: DumpModel, b: DumpModel, name: Seq<char>) -> bool {
    &&& a.schemas.contains_key(name) == b.schemas.contains_key(name)
    &&& a.schemas.contains_key(name) ==> a.schemas[name] == b.schemas[name]
}

/// `stmt` starts with a conditional comment whose first word, past the version, is `CREATE`: digits stand up
/// to `n`, and whitespace from there up to `m`.
pub open spec fn creates_at(stmt: Seq<u8>, n: int, m: int) -> bool {
    &&& 3 <= n <= m <= stmt.len()
    &&& stmt[0] == SLASH
    &&& stmt[1] == STAR
    &&& stmt[2] == EXCLAMATION
    &&& forall|i: int| 3 <= i < n ==> is_digit(#[trigger] stmt[i])
    &&& is_blank(stmt.subrange(n, m))
    &&& begins_with(stmt.skip(m), ascii("CREATE"))
}

/// The statement creates something inside the conditional comment that it starts with.
pub open spec fn creates_conditionally(stmt: Seq<u8>) -> bool {
    exists|n: int, m: int| creates_at(stmt, n, m)
}

/// The start of a conditional comment is recognized exactly where it creates something.
proof fn lemma_conditional(stmt: Seq<u8>)
    ensures
        is_conditional_create(stmt) <==> creates_conditionally(stmt),
{
    reveal_strlit("CREATE");
    if creates_conditionally(stmt) {
        let (n, m) = choose|n: int, m: int| creates_at(stmt, n, m);
        let gap = stmt.subrange(n, m);
        let rest = stmt.skip(m);
        assert(is_same_letter(rest[0], ascii("CREATE")[0]));
        assert(stmt.skip(n) =~= gap + rest);
        assert(stmt[n] == (gap + rest)[0]);
        if gap.len() > 0 {
            assert(is_space(gap[0]));
        }
        assert forall|j: int| 3 <= j < n implies !not_digit()(#[trigger] stmt[j]) by {
            assert(is_digit(stmt[j]));
        }
        lemma_index_where_is(stmt, 3, not_digit(), n);
        lemma_trim_front(gap, rest);
        assert(trim_start(rest) == rest);
        lemma_begins(rest, ascii("CREATE"));
    }
    if is_conditional_create(stmt) {
        let n = index_where(stmt, 3, not_digit());
        lemma_index_where(stmt, 3, not_digit());
        let t = stmt.skip(n);
        let rest = trim_start(t);
        lemma_trim_start_suffix(t);
        lemma_blank_ahead(t);
        let m = stmt.len() - rest.len();
        assert(stmt.subrange(n, m) =~= t.take(t.len() - rest.len()));
        assert(stmt.skip(m) =~= rest);
        lemma_begins(rest, ascii("CREATE"));
        assert forall|i: int| 3 <= i < n implies is_digit(#[trigger] stmt[i]) by {
            assert(!not_digit()(stmt[i]));
        }
        assert(creates_at(stmt, n, m));
    }
}

/// What is taken off in front is whitespace.
proof fn lemma_blank_ahead(s: Seq<u8>)
    ensures
        trim_start(s).len() <= s.len(),
        is_blank(s.take(s.len() - trim_start(s).len())),
    decreases s.len(),
{
    lemma_trim_start_suffix(s);
    if s.len() > 0 && is_space(s[0]) {
        let t = s.skip(1);
        lemma_blank_ahead(t);
        let n = s.len() - trim_start(s).len();
        assert forall|k: int| 0 <= k < n implies is_space(#[trigger] s.take(n)[k]) by {
            if k > 0 {
                assert(s.take(n)[k] == t.take(n - 1)[k - 1]);
            }
        }
    }
}

/// A beginning up to case.
proof fn lemma_begins(s: Seq<u8>, word: Seq<u8>)
    ensures
        begins_with(s, word) <==> starts_ci(s, word),
{
    case_is_ignored_letter_by_letter(s, word);
}

/// What has a keyword starts with it.
proof fn lemma_keyword_is_in_front(s: Seq<u8>)
    ensures
        keyword(s).len() > 0 ==> trim_start(strip_comments(s)) == strip_comments(s),
    decreases s.len(),
{
    let t = trim_start(s);
    lemma_trim_start_suffix(s);
    lemma_index_where(t, 0, equal_to(NEWLINE));
    lemma_index_where(t, 0, not_alphabetic());
    if t.len() == 0 {
    } else if starts_line_comment(t, 0) {
        let newline = index_where(t, 0, equal_to(NEWLINE));
        if newline < t.len() {
            lemma_keyword_is_in_front(t.skip(newline + 1));
        } else {
            lemma_index_where_is(t, 0, not_alphabetic(), 0);
        }
    } else if starts_block_comment(t, 0) {
        lemma_comment_end_bounds(t, 2);
        let end = comment_end(t, 2);
        if end < t.len() || ends_comment(t) {
            lemma_keyword_is_in_front(t.skip(end));
        } else {
            lemma_index_where_is(t, 0, not_alphabetic(), 0);
        }
    } else {
        assert(!is_space(t[0]));
    }
}

/// A statement has the keyword that it begins with.
proof fn lemma_keyword(stmt: Seq<u8>, word: Seq<u8>, name: Seq<char>)
    requires
        0 < word.len() == name.len(),
        forall|i: int|
            0 <= i < word.len() ==> 0x41 <= #[trigger] word[i] <= 0x5a && name[i] == word[i] as char,
    ensures
        keyword(stmt) == name <==> begins_with(strip_comments(stmt), word) && (
        strip_comments(stmt).len() == word.len() || !is_alphabetic(
            strip_comments(stmt)[word.len() as int],
        )),
{
    let s = strip_comments(stmt);
    let n = word.len() as int;
    let rest = trim_start(s);
    let end = index_where(rest, 0, not_alphabetic());
    lemma_index_where(rest, 0, not_alphabetic());
    if keyword(stmt) == name {
        lemma_keyword_is_in_front(stmt);
        assert(rest == s);
        assert(end == n);
        assert forall|i: int| 0 <= i < n implies is_same_letter(#[trigger] s[i], word[i]) by {
            assert(keyword(stmt)[i] == uppercase(s[i]) as char);
            assert(name[i] == word[i] as char);
        }
    }
    if begins_with(s, word) && (s.len() == n || !is_alphabetic(s[n])) {
        assert(is_same_letter(s[0], word[0]));
        assert(0x41 <= word[0] <= 0x5a);
        assert(rest == s);
        assert forall|j: int| 0 <= j < n implies !not_alphabetic()(#[trigger] s[j]) by {
            assert(is_same_letter(s[j], word[j]));
            assert(0x41 <= word[j] <= 0x5a);
        }
        lemma_index_where_is(s, 0, not_alphabetic(), n);
        assert forall|i: int| 0 <= i < n implies keyword(stmt)[i] == name[i] by {
            assert(is_same_letter(s[i], word[i]));
            assert(0x41 <= word[i] <= 0x5a);
        }
        assert(keyword(stmt) =~= name);
    }
}

/// The keyword `CREATE`.
proof fn lemma_create(stmt: Seq<u8>)
    ensures
        begins_with(strip_comments(stmt), ascii("CREATE TABLE")) ==> keyword(stmt) == "CREATE"@,
        begins_with(strip_comments(stmt), ascii("CREATE TABLE")) <==> starts_ci(
            strip_comments(stmt),
            ascii("CREATE TABLE"),
        ),
        "INSERT"@ != "CREATE"@,
{
    reveal_strlit("CREATE");
    reveal_strlit("CREATE TABLE");
    reveal_strlit("INSERT");
    let s = strip_comments(stmt);
    let word = ascii("CREATE TABLE");
    lemma_begins(s, word);
    lemma_keyword(stmt, ascii("CREATE"), "CREATE"@);
    assert("INSERT"@[0] != "CREATE"@[0]);
    if begins_with(s, word) {
        assert forall|i: int| 0 <= i < 6 implies is_same_letter(
            #[trigger] s[i],
            ascii("CREATE")[i],
        ) by {
            assert(is_same_letter(s[i], word[i]));
        }
        assert(is_same_letter(s[6], word[6]));
    }
}

/// The keyword `INSERT`.
proof fn lemma_insert(stmt: Seq<u8>)
    ensures
        keyword(stmt) == "INSERT"@ <==> begins_with(strip_comments(stmt), ascii("INSERT")) && (
        strip_comments(stmt).len() == 6 || !is_alphabetic(strip_comments(stmt)[6])),
{
    reveal_strlit("INSERT");
    lemma_keyword(stmt, ascii("INSERT"), "INSERT"@);
}

/// A definition comes behind the tables ahead of it and replaces an earlier one of the same name; it
/// touches no other table and no row. A malformed one makes the dump malformed.
pub proof fn definitions_add_their_table(stmts: Seq<Seq<u8>>, stmt: Seq<u8>, other: Seq<char>)
    requires
        dump_of(stmts) is Some,
        !creates_conditionally(stmt),
        begins_with(strip_comments(stmt), ascii("CREATE TABLE")),
    ensures
        dump_of(stmts.push(stmt)) is Some <==> create_table(stmt) is Some,
        create_table(stmt) matches Some(schema) ==> {
            let before = dump_of(stmts)->0;
            let after = dump_of(stmts.push(stmt))->0;
            &&& after.table_order == before.table_order.push(schema.name)
            &&& after.schemas.contains_key(schema.name)
            &&& after.schemas[schema.name] == schema
            &&& other != schema.name ==> same_definition(after, before, other)
            &&& statements_for(after, other) == statements_for(before, other)
        },
{
    lemma_conditional(stmt);
    assert(stmts.push(stmt).drop_last() =~= stmts);
    lemma_create(stmt);
}

/// An `INSERT` statement comes behind those for the same table; it touches no other table and no
/// definition. A malformed one makes the dump malformed.
pub proof fn inserts_add_to_their_table(stmts: Seq<Seq<u8>>, stmt: Seq<u8>, other: Seq<char>)
    requires
        dump_of(stmts) is Some,
        !creates_conditionally(stmt),
        begins_with(strip_comments(stmt), ascii("INSERT")),
        strip_comments(stmt).len() == 6 || !is_alphabetic(strip_comments(stmt)[6]),
    ensures
        dump_of(stmts.push(stmt)) is Some <==> insert_header(stmt) is Some,
        insert_header(stmt) matches Some((name, insert)) ==> {
            let before = dump_of(stmts)->0;
            let after = dump_of(stmts.push(stmt))->0;
            &&& after.table_order == before.table_order
            &&& same_definition(after, before, other)
            &&& statements_for(after, name) == statements_for(before, name).push(insert)
            &&& other != name ==> statements_for(after, other) == statements_for(before, other)
        },
{
    lemma_conditional(stmt);
    assert(stmts.push(stmt).drop_last() =~= stmts);
    lemma_insert(stmt);
    lemma_create(stmt);
}

/// A statement that is neither a definition of a table nor an `INSERT` changes nothing, and nothing
/// mends a dump that is malformed.
pub proof fn other_statements_add_nothing(stmts: Seq<Seq<u8>>, stmt: Seq<u8>)
    ensures
        !begins_with(strip_comments(stmt), ascii("CREATE TABLE")) && !begins_with(
            strip_comments(stmt),
            ascii("INSERT"),
        ) ==> dump_of(stmts.push(stmt)) == dump_of(stmts),
        dump_of(stmts) is None ==> dump_of(stmts.push(stmt)) is None,
        dump_of(Seq::empty()) == Some(
            DumpModel {
                table_order: Seq::empty(),
                schemas: Map::empty(),
                inserts: Map::empty(),
            },
        ),
{
    assert(stmts.push(stmt).drop_last() =~= stmts);
    lemma_insert(stmt);
    lemma_create(stmt);
}

/// What is created inside a conditional comment is passed over, whatever stands behind the comment.
pub proof fn conditional_creations_add_nothing(
    stmts: Seq<Seq<u8>>,
    digits: Seq<u8>,
    gap: Seq<u8>,
    rest: Seq<u8>,
)
    requires
        forall|i: int| 0 <= i < digits.len() ==> is_digit(#[trigger] digits[i]),
        is_blank(gap),
        begins_with(rest, ascii("CREATE")),
    ensures
        dump_of(stmts.push(seq![SLASH, STAR, EXCLAMATION] + digits + (gap + rest))) == dump_of(stmts),
{
    let stmt = seq![SLASH, STAR, EXCLAMATION] + digits + (gap + rest);
    let n = 3 + digits.len() as int;
    let m = n + gap.len();
    assert(stmts.push(stmt).drop_last() =~= stmts);
    assert forall|i: int| 3 <= i < n implies is_digit(#[trigger] stmt[i]) by {
        assert(stmt[i] == digits[i - 3]);
    }
    assert(stmt.subrange(n, m) =~= gap);
    assert(stmt.skip(m) =~= rest);
    assert(creates_at(stmt, n, m));
    lemma_conditional(stmt);
}

/// A column is named by the text between its backticks, or by the text itself, without the whitespace
/// around it.
pub proof fn columns_are_named_with_or_without_backticks(
    before: Seq<u8>,
    name: Seq<u8>,
    behind: Seq<u8>,
)
    requires
        is_blank(before),
        is_blank(behind),
    ensures
        column_ref(before + (seq![BACKTICK] + name + seq![BACKTICK]) + behind) == name,
        name.len() > 0 && !is_space(name[0]) && !is_space(name.last()) && name[0] != BACKTICK
            && name.last() != BACKTICK ==> column_ref(before + name + behind) == name,
{
    let ticked = seq![BACKTICK] + name + seq![BACKTICK];
    trimming_takes_off_whitespace_only(before, ticked, behind);
    assert(ticked.skip(1).drop_last() =~= name);
    assert(ticked.skip(1).last() == BACKTICK);
    if name.len() > 0 && !is_space(name[0]) && !is_space(name.last()) {
        trimming_takes_off_whitespace_only(before, name, behind);
    }
}

/// A column list names its columns in order, one for each part.
pub proof fn column_lists_name_each_part(parts: Seq<Seq<u8>>, k: int)
    requires
        0 <= k < parts.len(),
    ensures
        column_refs(parts) matches Some(names) ==> names.len() == parts.len() && names[k]
            == decode_utf8(column_ref(parts[k])) && valid_utf8(column_ref(parts[k])),
        (forall|i: int| 0 <= i < parts.len() ==> valid_utf8(column_ref(#[trigger] parts[i])))
            ==> column_refs(parts) is Some,
{
}

/// What an `INSERT` statement says, apart from where it stands: its table, its columns, and the text of
/// its rows.
pub open spec fn gist(stmt: Seq<u8>) -> Option<(Seq<char>, Option<Seq<Seq<char>>>, Seq<u8>)> {
    match insert_header(stmt) {
        None => None,
        Some((name, insert)) => Some(
            (name, insert.explicit_columns, insert.data.skip(insert.values_start)),
        ),
    }
}

/// A word in front is skipped.
proof fn lemma_word_in_front(text: Seq<u8>, word: Seq<u8>, rest: Seq<u8>)
    requires
        begins_with(text, word),
        text.len() == word.len(),
    ensures
        starts_ci(text + rest, word),
        (text + rest).skip(word.len() as int) == rest,
{
    let s = text + rest;
    assert forall|i: int| 0 <= i < word.len() implies is_same_letter(#[trigger] s[i], word[i]) by {
        assert(s[i] == text[i]);
        assert(is_same_letter(text[i], word[i]));
    }
    lemma_begins(s, word);
    assert(s.skip(word.len() as int) =~= rest);
}

/// The text of the rows is what stands behind the word `VALUES`.
proof fn lemma_target(a: Seq<u8>, b: Seq<u8>, rest: Seq<u8>)
    requires
        a.len() >= rest.len(),
        b.len() >= rest.len(),
        a.skip(a.len() - rest.len()) == rest,
        b.skip(b.len() - rest.len()) == rest,
    ensures
        match (insert_target(a, rest), insert_target(b, rest)) {
            (Some((x, i)), Some((y, j))) => {
                &&& x == y
                &&& i.explicit_columns == j.explicit_columns
                &&& i.data.skip(i.values_start) == j.data.skip(j.values_start)
            },
            (None, None) => true,
            _ => false,
        },
{
    match (insert_target(a, rest), insert_target(b, rest)) {
        (Some((x, i)), Some((y, j))) => {
            lemma_values_behind(rest);
            assert(insert_target(rest, rest) is Some);
            let r = (insert_target(rest, rest)->0).1;
            let u = a.len() - rest.len();
            let v = b.len() - rest.len();
            assert(i.values_start == u + r.values_start);
            assert(j.values_start == v + r.values_start);
            assert(a.skip(u + r.values_start) =~= rest.skip(r.values_start));
            assert(b.skip(v + r.values_start) =~= rest.skip(r.values_start));
        },
        _ => {},
    }
}

/// The rows begin inside the text.
proof fn lemma_values_behind(rest: Seq<u8>)
    ensures
        insert_target(rest, rest) matches Some((name, insert)) ==> 0 <= insert.values_start
            <= rest.len() && insert.data == rest,
{
    reveal_strlit("VALUES");
    if let Some(tick) = byte_index(rest, 0, BACKTICK) {
        lemma_index_where(rest, 0, equal_to(BACKTICK));
        let item = rest.skip(tick);
        lemma_index_where(item, 1, equal_to(BACKTICK));
        if let Some((name, tail)) = backtick(item) {
            let s = trim_start(tail);
            lemma_trim_start_suffix(tail);
            lemma_paren_close_bounds(s, 1, 1);
            if let Some((names, after)) = column_list(s) {
                lemma_trim_start_suffix(after);
            }
        }
    }
}

/// The words of an `INSERT` statement may be written in any case, and `IGNORE` among them changes
/// nothing.
pub proof fn heads_may_be_spelled_in_any_case(
    insert: Seq<u8>,
    ignore: Seq<u8>,
    into: Seq<u8>,
    rest: Seq<u8>,
)
    requires
        begins_with(insert, ascii("INSERT ")),
        insert.len() == 7,
        begins_with(into, ascii("INTO ")),
        into.len() == 5,
        begins_with(ignore, ascii("IGNORE ")) && ignore.len() == 7 || ignore.len() == 0,
    ensures
        gist(insert + (ignore + (into + rest))) == gist(
            ascii("INSERT ") + (ascii("INTO ") + rest),
        ),
{
    lemma_spelled(insert, ignore, into, rest);
    reveal_strlit("INSERT ");
    reveal_strlit("INTO ");
    assert(Seq::<u8>::empty() + (ascii("INTO ") + rest) =~= ascii("INTO ") + rest);
    lemma_spelled(ascii("INSERT "), Seq::empty(), ascii("INTO "), rest);
    let a = insert + (ignore + (into + rest));
    let b = ascii("INSERT ") + (ascii("INTO ") + rest);
    let t = trim_start(rest);
    lemma_trim_start_suffix(rest);
    assert(a.skip(a.len() - t.len()) =~= t);
    assert(b.skip(b.len() - t.len()) =~= t);
    lemma_target(a, b, t);
}

/// The head of an `INSERT` statement is what stands behind its words.
proof fn lemma_spelled(insert: Seq<u8>, ignore: Seq<u8>, into: Seq<u8>, rest: Seq<u8>)
    requires
        begins_with(insert, ascii("INSERT ")),
        insert.len() == 7,
        begins_with(into, ascii("INTO ")),
        into.len() == 5,
        begins_with(ignore, ascii("IGNORE ")) && ignore.len() == 7 || ignore.len() == 0,
    ensures
        insert_header(insert + (ignore + (into + rest))) == insert_target(
            insert + (ignore + (into + rest)),
            trim_start(rest),
        ),
{
    reveal_strlit("INSERT ");
    reveal_strlit("INTO ");
    reveal_strlit("IGNORE ");
    let tail = ignore + (into + rest);
    let s = insert + tail;
    assert(is_same_letter(insert[0], ascii("INSERT ")[0]));
    assert(s[0] == insert[0]);
    assert(trim_start(s) == s);
    assert(strip_comments(s) == s);
    lemma_word_in_front(insert, ascii("INSERT "), tail);
    assert(is_same_letter(into[0], ascii("INTO ")[0]));
    let inner = into + rest;
    assert(inner[0] == into[0]);
    assert(trim_start(inner) == inner);
    lemma_word_in_front(into, ascii("INTO "), rest);
    if ignore.len() == 0 {
        assert(tail =~= inner);
        assert(is_same_letter(into[1], ascii("INTO ")[1]));
        assert(inner[1] == into[1]);
        lemma_begins(inner, ascii("IGNORE "));
        if starts_ci(inner, ascii("IGNORE ")) {
            assert(is_same_letter(inner[1], ascii("IGNORE ")[1]));
        }
    } else {
        lemma_word_in_front(ignore, ascii("IGNORE "), inner);
    }
}

/// An `INSERT` statement without the word `INTO`, without a backtick, or without the word `VALUES` is
/// malformed.
pub proof fn heads_need_their_words(stmt: Seq<u8>)
    ensures
        insert_header(stmt) is Some ==> {
            let s = strip_comments(stmt);
            &&& s.contains(BACKTICK)
            &&& exists|i: int| 0 <= i <= s.len() && begins_with(#[trigger] s.skip(i), ascii("INTO "))
            &&& exists|i: int| 0 <= i <= s.len() && begins_with(#[trigger] s.skip(i), ascii("VALUES"))
        },
{
    if insert_header(stmt) is Some {
        let s = strip_comments(stmt);
        let b = skip_word(skip_word(s, ascii("INSERT ")), ascii("IGNORE "));
        let into = trim_start(b);
        lemma_trim_start_suffix(b);
        let n = s.len() - into.len();
        assert(s.skip(n) =~= into);
        lemma_begins(into, ascii("INTO "));
        assert(begins_with(s.skip(n), ascii("INTO ")));
        let c = into.skip(ascii("INTO ").len() as int);
        let rest = trim_start(c);
        lemma_trim_start_suffix(c);
        let m = s.len() - rest.len();
        assert(s.skip(m) =~= rest);
        lemma_targets_need_their_words(s, rest);
        let k = choose|k: int| 0 <= k < rest.len() && rest[k] == BACKTICK;
        assert(s[m + k] == rest[k]);
        let i = choose|i: int|
            0 <= i <= rest.len() && begins_with(#[trigger] rest.skip(i), ascii("VALUES"));
        assert(s.skip(m + i) =~= rest.skip(i));
        assert(begins_with(s.skip(m + i), ascii("VALUES")));
    }
}

/// What follows the words in front has a backtick and the word `VALUES`.
proof fn lemma_targets_need_their_words(stmt: Seq<u8>, rest: Seq<u8>)
    requires
        insert_target(stmt, rest) is Some,
    ensures
        exists|k: int| 0 <= k < rest.len() && rest[k] == BACKTICK,
        exists|i: int|
            0 <= i <= rest.len() && begins_with(#[trigger] rest.skip(i), ascii("VALUES")),
{
    let tick = byte_index(rest, 0, BACKTICK)->0;
    lemma_index_where(rest, 0, equal_to(BACKTICK));
    assert(rest[tick] == BACKTICK);
    let item = rest.skip(tick);
    lemma_index_where(item, 1, equal_to(BACKTICK));
    let tail = (backtick(item)->0).1;
    let list = trim_start(tail);
    lemma_trim_start_suffix(tail);
    lemma_paren_close_bounds(list, 1, 1);
    let after = (column_list(list)->0).1;
    let v = trim_start(after);
    lemma_trim_start_suffix(after);
    lemma_begins(v, ascii("VALUES"));
    assert(tail =~= rest.skip(rest.len() - tail.len()));
    assert(list =~= rest.skip(rest.len() - list.len()));
    assert(after =~= rest.skip(rest.len() - after.len()));
    assert(v =~= rest.skip(rest.len() - v.len()));
    assert(begins_with(rest.skip(rest.len() - v.len()), ascii("VALUES")));
}

/// Compressed data starts with two bytes that no SQL text starts with.
pub proof fn compressed_data_is_told_by_its_first_bytes(data: Seq<u8>)
    ensures
        gzip_magic(data) <==> data.len() >= 2 && data.take(2) == seq![0x1fu8, 0x8bu8],
{
    if data.len() >= 2 {
        assert(data.take(2)[0] == data[0]);
        assert(data.take(2)[1] == data[1]);
        if gzip_magic(data) {
            assert(data.take(2) =~= seq![0x1fu8, 0x8bu8]);
        }
    }
}

} // verus!
