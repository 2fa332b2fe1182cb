//! Splits a dump into what a sync needs: the `CREATE TABLE` of each table, and the `INSERT`
//! statements of each table in order, as spans of the loaded dump.

use vstd::prelude::*;
use vstd::slice::slice_subrange;
use vstd::utf8::{decode_utf8, valid_utf8};

use crate::bytes::{
    ascii, ascii_bytes, byte_index, contents, find_byte, index_where, is_digit,
    lemma_index_where_is, lemma_trim_start_suffix, starts_ci, starts_with_ci, trim, trim_ascii,
    trim_ascii_start, trim_start, BACKTICK, COMMA, EXCLAMATION, OPEN_PAREN, SEMICOLON, SLASH, STAR,
};
use crate::ddl::{
    backtick, backtick_name, create_table, try_parse_create_table, SchemaModel, TableSchema,
};
use crate::sqlstream::{
    iter_paren_groups, iter_statements, keyword, matching_paren, split, split_toplevel,
    starts_block_comment, statement_keyword, statements, strip_comments, strip_leading_comments,
    try_matching_paren, Cursor, ParenGroups,
};
use crate::table_map::TableMap;
use crate::text::{str_eq, strs, texts, utf8_text};

verus! {

/// `std::io::Error`, as a reader of compressed data reports it.
#[verifier::external_type_specification]
#[verifier::external_body]
pub struct ExIoError(std::io::Error);

/// What gzip-compressed data expands to: the content of its first member, or `None` when that is
/// malformed or truncated.
pub uninterp spec fn gunzipped(data: Seq<u8>) -> Option<Seq<u8>>;

/// Reads `flate2::read::GzDecoder` over `data` to its end. The result depends on `data` alone:
/// the bytes of the first gzip member, or an error when it is not a complete and intact one.
#[verifier::external_body]
fn gunzip(data: &[u8]) -> (r: Result<Vec<u8>, std::io::Error>)
    ensures
        match r {
            Ok(bytes) => gunzipped(data@) == Some(bytes@),
            Err(_) => gunzipped(data@) is None,
        },
{
    let mut bytes = Vec::new();
    std::io::Read::read_to_end(&mut flate2::read::GzDecoder::new(data), &mut bytes)?;
    Ok(bytes)
}

/// `data` starts as gzip-compressed data does.
pub open spec fn gzip_magic(data: Seq<u8>) -> bool {
    data.len() >= 2 && data[0] == 0x1f && data[1] == 0x8b
}

/// Whether `data` starts as gzip-compressed data does.
pub fn is_gzip(data: &[u8]) -> (r: bool)
    ensures
        r == gzip_magic(data@),
{
    data.len() >= 2 && data[0] == 0x1f && data[1] == 0x8b
}

/// The text of a dump that is read as `raw`: the expanded data where it is gzip-compressed, which
/// its first bytes tell, else the data itself.
pub fn read_dump_bytes(raw: Vec<u8>) -> (r: Result<Vec<u8>, std::io::Error>)
    ensures
        match r {
            Ok(data) => (if gzip_magic(raw@) {
                gunzipped(raw@)
            } else {
                Some(raw@)
            }) == Some(data@),
            Err(_) => gzip_magic(raw@) && gunzipped(raw@) is None,
        },
{
    if is_gzip(raw.as_slice()) {
        gunzip(raw.as_slice())
    } else {
        Ok(raw)
    }
}

/// One `INSERT INTO ...` statement: its text past comments, where the row list after `VALUES`
/// begins in it, and the column list where it has one (most dumps rely on the order of the table's
/// columns instead).
pub struct InsertStmt<'a> {
    pub data: &'a [u8],
    pub values_start: usize,
    pub explicit_columns: Option<Vec<&'a str>>,
}

/// The content of an `INSERT` statement.
pub struct InsertModel {
    pub data: Seq<u8>,
    pub values_start: int,
    pub explicit_columns: Option<Seq<Seq<char>>>,
}

impl<'a> View for InsertStmt<'a> {
    type V = InsertModel;

    open spec fn view(&self) -> InsertModel {
        InsertModel {
            data: self.data@,
            values_start: self.values_start as int,
            explicit_columns: match self.explicit_columns {
                Some(names) => Some(strs(names@)),
                None => None,
            },
        }
    }
}

impl<'a> InsertStmt<'a> {
    /// The row tuples of the statement.
    pub fn rows(&self) -> (r: ParenGroups<'a>)
        ensures
            r@ == (Cursor { data: self@.data, pos: self@.values_start }),
    {
        iter_paren_groups(self.data, self.values_start)
    }
}

/// The name that one part of a column list spells: without surrounding whitespace, and without a
/// backtick at either end.
pub open spec fn column_ref(part: Seq<u8>) -> Seq<u8> {
    let t = trim(part);
    let u = if t.len() > 0 && t[0] == BACKTICK {
        t.skip(1)
    } else {
        t
    };
    if u.len() > 0 && u.last() == BACKTICK {
        u.drop_last()
    } else {
        u
    }
}

/// The names in a column list, or `None` when one of them is not valid UTF-8.
pub open spec fn column_refs(parts: Seq<Seq<u8>>) -> Option<Seq<Seq<char>>> {
    if forall|i: int| 0 <= i < parts.len() ==> valid_utf8(column_ref(#[trigger] parts[i])) {
        Some(parts.map_values(|p: Seq<u8>| decode_utf8(column_ref(p))))
    } else {
        None
    }
}

/// `s` without `word` at its start, where it starts with it.
pub open spec fn skip_word(s: Seq<u8>, word: Seq<u8>) -> Seq<u8> {
    if starts_ci(s, word) {
        s.skip(word.len() as int)
    } else {
        s
    }
}

/// The column list that `s` starts with, if any, and what follows; `None` when it is malformed.
pub open spec fn column_list(s: Seq<u8>) -> Option<(Option<Seq<Seq<char>>>, Seq<u8>)> {
    if s.len() > 0 && s[0] == OPEN_PAREN {
        match matching_paren(s, 0) {
            None => None,
            Some(close) => match column_refs(split(s.subrange(1, close), COMMA)) {
                None => None,
                Some(names) => Some((Some(names), s.skip(close + 1))),
            },
        }
    } else {
        Some((None, s))
    }
}

/// What follows the keyword `INTO` in an `INSERT` statement past its comments: the table name in
/// the first backticks, the column list, and where in the statement the row list begins.
pub open spec fn insert_target(stmt: Seq<u8>, rest: Seq<u8>) -> Option<(Seq<char>, InsertModel)> {
    match byte_index(rest, 0, BACKTICK) {
        None => None,
        Some(tick) => match backtick(rest.skip(tick)) {
            None => None,
            Some((name, tail)) => match column_list(trim_start(tail)) {
                None => None,
                Some((explicit_columns, after)) => {
                    let v = trim_start(after);
                    if starts_ci(v, ascii("VALUES")) {
                        Some(
                            (
                                name,
                                InsertModel {
                                    data: stmt,
                                    values_start: stmt.len() - v.len() + ascii("VALUES").len(),
                                    explicit_columns,
                                },
                            ),
                        )
                    } else {
                        None
                    }
                },
            },
        },
    }
}

/// The table that an `INSERT INTO` or `INSERT IGNORE INTO` statement fills, and its content;
/// `None` when the statement is malformed.
pub open spec fn insert_header(stmt: Seq<u8>) -> Option<(Seq<char>, InsertModel)> {
    let s = strip_comments(stmt);
    let into = trim_start(skip_word(skip_word(s, ascii("INSERT ")), ascii("IGNORE ")));
    if starts_ci(into, ascii("INTO ")) {
        insert_target(s, trim_start(into.skip(ascii("INTO ").len() as int)))
    } else {
        None
    }
}

/// The name that one part of a column list spells.
fn parse_column_ref(part: &[u8]) -> (r: Option<&str>)
    ensures
        match r {
            Some(name) => valid_utf8(column_ref(part@)) && name@ == decode_utf8(column_ref(part@)),
            None => !valid_utf8(column_ref(part@)),
        },
{
    let t = trim_ascii(part);
    let u = if t.len() > 0 && t[0] == BACKTICK {
        let len = t.len();
        let u = slice_subrange(t, 1, len);
        assert(u@ =~= t@.skip(1));
        u
    } else {
        t
    };
    let len = u.len();
    let name = if len > 0 && u[len - 1] == BACKTICK {
        let name = slice_subrange(u, 0, len - 1);
        assert(name@ =~= u@.drop_last());
        name
    } else {
        u
    };
    utf8_text(name)
}

/// The names in a column list.
fn parse_column_refs<'a>(parts: &[&'a [u8]]) -> (r: Option<Vec<&'a str>>)
    ensures
        match column_refs(contents(parts@)) {
            Some(names) => r is Some && strs(r->0@) == names,
            None => r is None,
        },
{
    let ghost all = contents(parts@);
    let mut names: Vec<&'a str> = Vec::new();
    let mut i: usize = 0;
    while i < parts.len()
        invariant
            i <= parts@.len(),
            all == contents(parts@),
            names@.len() == i,
            forall|j: int|
                0 <= j < i ==> valid_utf8(column_ref(#[trigger] all[j])) && names@[j]@ == decode_utf8(
                    column_ref(all[j]),
                ),
        decreases parts@.len() - i,
    {
        assert(all[i as int] == parts@[i as int]@);
        match parse_column_ref(parts[i]) {
            Some(name) => {
                names.push(name);
            },
            None => {
                return None;
            },
        }
        i = i + 1;
    }
    assert(strs(names@) =~= all.map_values(|p: Seq<u8>| decode_utf8(column_ref(p))));
    Some(names)
}

/// `s` without `word` at its start, where it starts with it.
fn skip_keyword<'a>(s: &'a [u8], word: &[u8]) -> (r: &'a [u8])
    ensures
        r@ == skip_word(s@, word@),
        r@.len() <= s@.len(),
{
    if starts_with_ci(s, word) {
        let len = s.len();
        let r = slice_subrange(s, word.len(), len);
        assert(r@ =~= s@.skip(word@.len() as int));
        r
    } else {
        s
    }
}

/// The column list that `s` starts with, if any, and what follows.
fn parse_column_list(s: &[u8]) -> (r: Option<(Option<Vec<&str>>, &[u8])>)
    ensures
        match column_list(s@) {
            None => r is None,
            Some((names, rest)) => {
                &&& r matches Some((n, t))
                &&& t@ == rest
                &&& t@.len() <= s@.len()
                &&& match names {
                    Some(names) => n matches Some(n) && strs(n@) == names,
                    None => n is None,
                }
            },
        },
{
    let len = s.len();
    if len > 0 && s[0] == OPEN_PAREN {
        let close = match try_matching_paren(s, 0) {
            Some(close) => close,
            None => {
                return None;
            },
        };
        let parts = split_toplevel(slice_subrange(s, 1, close), COMMA);
        match parse_column_refs(parts.as_slice()) {
            Some(names) => {
                let rest = slice_subrange(s, close + 1, len);
                assert(rest@ =~= s@.skip(close + 1));
                Some((Some(names), rest))
            },
            None => None,
        }
    } else {
        Some((None, s))
    }
}

/// Reads the head of an `INSERT` statement: the table, and the statement past its comments with
/// its column list and the start of its row list (an offset into that text, not into `stmt`).
fn parse_insert_header<'a>(stmt: &'a [u8]) -> (r: Option<(&'a str, InsertStmt<'a>)>)
    ensures
        match insert_header(stmt@) {
            Some((name, insert)) => r matches Some((n, i)) && n@ == name && i@ == insert,
            None => r is None,
        },
{
    proof {
        reveal_strlit("INSERT ");
        reveal_strlit("IGNORE ");
        reveal_strlit("INTO ");
        reveal_strlit("VALUES");
    }
    let body = strip_leading_comments(stmt);
    let after_insert = skip_keyword(body, ascii_bytes("INSERT "));
    let after_ignore = skip_keyword(after_insert, ascii_bytes("IGNORE "));
    proof {
        lemma_trim_start_suffix(after_ignore@);
    }
    let into = trim_ascii_start(after_ignore);
    let into_word = ascii_bytes("INTO ");
    if !starts_with_ci(into, into_word) {
        return None;
    }
    let len = into.len();
    let tail = slice_subrange(into, into_word.len(), len);
    assert(tail@ =~= into@.skip(into_word@.len() as int));
    proof {
        lemma_trim_start_suffix(tail@);
    }
    let rest = trim_ascii_start(tail);
    let tick = match find_byte(rest, 0, BACKTICK) {
        Some(tick) => tick,
        None => {
            return None;
        },
    };
    let len = rest.len();
    let from_name = slice_subrange(rest, tick, len);
    assert(from_name@ =~= rest@.skip(tick as int));
    let (name, after_name) = match backtick_name(from_name) {
        Some(found) => found,
        None => {
            return None;
        },
    };
    proof {
        lemma_trim_start_suffix(after_name@);
    }
    let (explicit_columns, after_columns) = match parse_column_list(trim_ascii_start(after_name)) {
        Some(found) => found,
        None => {
            return None;
        },
    };
    proof {
        lemma_trim_start_suffix(after_columns@);
    }
    let values = trim_ascii_start(after_columns);
    let values_word = ascii_bytes("VALUES");
    if !starts_with_ci(values, values_word) {
        return None;
    }
    let body_len = body.len();
    let values_start = body_len - values.len() + values_word.len();
    let insert = InsertStmt { data: body, values_start, explicit_columns };
    Some((name, insert))
}

/// A parsed dump: the tables in the order of their `CREATE TABLE` statements, their schemas, and
/// the `INSERT` statements of each table in order.
pub struct ParsedDump<'a> {
    pub table_order: Vec<String>,
    pub schemas: TableMap<TableSchema>,
    pub inserts: TableMap<Vec<InsertStmt<'a>>>,
}

/// The content of a parsed dump.
pub struct DumpModel {
    pub table_order: Seq<Seq<char>>,
    pub schemas: Map<Seq<char>, SchemaModel>,
    pub inserts: Map<Seq<char>, Seq<InsertModel>>,
}

/// The contents of a map of schemas.
pub open spec fn schemas_of(m: Map<Seq<char>, TableSchema>) -> Map<Seq<char>, SchemaModel> {
    m.map_values(|s: TableSchema| s@)
}

/// The contents of a list of `INSERT` statements.
pub open spec fn inserts(v: Seq<InsertStmt<'_>>) -> Seq<InsertModel> {
    v.map_values(|s: InsertStmt<'_>| s@)
}

/// The contents of a map of `INSERT` statements.
pub open spec fn inserts_of(m: Map<Seq<char>, Vec<InsertStmt<'_>>>) -> Map<
    Seq<char>,
    Seq<InsertModel>,
> {
    m.map_values(|v: Vec<InsertStmt<'_>>| inserts(v@))
}

impl<'a> View for ParsedDump<'a> {
    type V = DumpModel;

    open spec fn view(&self) -> DumpModel {
        DumpModel {
            table_order: texts(self.table_order@),
            schemas: schemas_of(self.schemas@),
            inserts: inserts_of(self.inserts@),
        }
    }
}

/// A byte that is no digit.
pub open spec fn not_digit() -> spec_fn(u8) -> bool {
    |b: u8| !is_digit(b)
}

/// The statement creates something inside a conditional comment, as triggers, views and events are
/// written: `/*!50003 CREATE*/ /*!50003 TRIGGER ... */`. What it creates is no table to sync, and what
/// stands behind a comment in the body, which ends the conditional one early, is no statement.
pub open spec fn is_conditional_create(stmt: Seq<u8>) -> bool {
    &&& stmt.len() > 2
    &&& starts_block_comment(stmt, 0)
    &&& stmt[2] == EXCLAMATION
    &&& starts_ci(trim_start(stmt.skip(index_where(stmt, 3, not_digit()))), ascii("CREATE"))
}

/// Whether the statement creates something inside a conditional comment.
fn starts_conditional_create(stmt: &[u8]) -> (r: bool)
    ensures
        r == is_conditional_create(stmt@),
{
    let len = stmt.len();
    if len < 3 || stmt[0] != SLASH || stmt[1] != STAR || stmt[2] != EXCLAMATION {
        return false;
    }
    let mut i: usize = 3;
    while i < len && is_digit(stmt[i])
        invariant
            len == stmt@.len(),
            3 <= i <= len,
            forall|j: int| 3 <= j < i ==> !not_digit()(#[trigger] stmt@[j]),
        decreases len - i,
    {
        i = i + 1;
    }
    proof {
        lemma_index_where_is(stmt@, 3, not_digit(), i as int);
        reveal_strlit("CREATE");
    }
    let rest = slice_subrange(stmt, i, len);
    assert(rest@ =~= stmt@.skip(i as int));
    starts_with_ci(trim_ascii_start(rest), ascii_bytes("CREATE"))
}

impl DumpModel {
    /// A dump without statements.
    pub open spec fn empty() -> DumpModel {
        DumpModel { table_order: Seq::empty(), schemas: Map::empty(), inserts: Map::empty() }
    }

    /// The `INSERT` statements of a table.
    pub open spec fn inserts_into(self, name: Seq<char>) -> Seq<InsertModel> {
        if self.inserts.contains_key(name) {
            self.inserts[name]
        } else {
            Seq::empty()
        }
    }

    /// The dump with one more table. A later definition replaces an earlier one of the same name.
    pub open spec fn create(self, schema: SchemaModel) -> DumpModel {
        DumpModel {
            table_order: self.table_order.push(schema.name),
            schemas: self.schemas.insert(schema.name, schema),
            inserts: self.inserts.insert(schema.name, self.inserts_into(schema.name)),
        }
    }

    /// The dump with one more `INSERT` statement.
    pub open spec fn insert_into(self, name: Seq<char>, insert: InsertModel) -> DumpModel {
        DumpModel {
            inserts: self.inserts.insert(name, self.inserts_into(name).push(insert)),
            ..self
        }
    }

    /// The dump with one more statement, or `None` when that is malformed. Statements other than
    /// `CREATE TABLE` and `INSERT` (views, triggers, `DROP`, `LOCK`, `SET`, ...) do not matter.
    pub open spec fn add_statement(self, stmt: Seq<u8>) -> Option<DumpModel> {
        if is_conditional_create(stmt) {
            Some(self)
        } else if keyword(stmt) == "CREATE"@ {
            if starts_ci(strip_comments(stmt), ascii("CREATE TABLE")) {
                match create_table(stmt) {
                    Some(schema) => Some(self.create(schema)),
                    None => None,
                }
            } else {
                Some(self)
            }
        } else if keyword(stmt) == "INSERT"@ {
            match insert_header(stmt) {
                Some((name, insert)) => Some(self.insert_into(name, insert)),
                None => None,
            }
        } else {
            Some(self)
        }
    }
}

/// The dump that a list of statements makes up, or `None` when one of them is malformed.
pub open spec fn dump_of(stmts: Seq<Seq<u8>>) -> Option<DumpModel>
    decreases stmts.len(),
{
    if stmts.len() == 0 {
        Some(DumpModel::empty())
    } else {
        match dump_of(stmts.drop_last()) {
            Some(dump) => dump.add_statement(stmts.last()),
            None => None,
        }
    }
}

/// The dump that a buffer holds, or `None` when a statement that matters is malformed.
pub open spec fn parsed(data: Seq<u8>) -> Option<DumpModel> {
    dump_of(statements(data, 0, seq![SEMICOLON]))
}

/// Where one statement is malformed, so is every list that goes on from it.
proof fn lemma_dump_prefix(stmts: Seq<Seq<u8>>, n: int)
    requires
        0 <= n <= stmts.len(),
        dump_of(stmts.take(n)) is None,
    ensures
        dump_of(stmts) is None,
    decreases stmts.len() - n,
{
    if n < stmts.len() {
        assert(stmts.take(n + 1).drop_last() =~= stmts.take(n));
        lemma_dump_prefix(stmts, n + 1);
    } else {
        assert(stmts.take(n) =~= stmts);
    }
}

/// A parsed dump holds together: exactly the tables in its order have schemas, each under its own
/// name, and each of them has a list of `INSERT` statements, which may be empty.
pub proof fn parsed_dump_holds_together(stmts: Seq<Seq<u8>>, name: Seq<char>)
    requires
        dump_of(stmts) is Some,
    ensures
        dump_of(stmts)->0.schemas.contains_key(name) <==> dump_of(stmts)->0.table_order.contains(
            name,
        ),
        dump_of(stmts)->0.schemas.contains_key(name) ==> {
            &&& dump_of(stmts)->0.schemas[name].name == name
            &&& dump_of(stmts)->0.inserts.contains_key(name)
        },
    decreases stmts.len(),
{
    if stmts.len() > 0 {
        parsed_dump_holds_together(stmts.drop_last(), name);
        let before = dump_of(stmts.drop_last())->0;
        let after = dump_of(stmts)->0;
        if after.table_order != before.table_order {
            let added = after.table_order.last();
            assert(after.table_order == before.table_order.push(added));
            if before.table_order.contains(name) {
                let i = choose|i: int|
                    0 <= i < before.table_order.len() && before.table_order[i] == name;
                assert(after.table_order[i] == name);
            }
            if name == added {
                assert(after.table_order[before.table_order.len() as int] == name);
            }
        }
    }
}

impl<'a> ParsedDump<'a> {
    /// Takes the `INSERT` statements of a table out of the map, or an empty list.
    fn take_inserts(&mut self, name: &str) -> (r: Vec<InsertStmt<'a>>)
        ensures
            inserts(r@) == old(self)@.inserts_into(name@),
            final(self).table_order == old(self).table_order,
            final(self).schemas == old(self).schemas,
            final(self).inserts@ == old(self).inserts@.remove(name@),
    {
        match self.inserts.remove(name) {
            Some(list) => list,
            None => {
                let list: Vec<InsertStmt<'a>> = Vec::new();
                assert(inserts(list@) =~= Seq::empty());
                list
            },
        }
    }

    /// Adds a table.
    fn create(&mut self, schema: TableSchema)
        ensures
            final(self)@ == old(self)@.create(schema@),
    {
        let list = self.take_inserts(schema.name.as_str());
        let ghost name = schema.name@;
        self.inserts.insert(schema.name.clone(), list);
        let ghost before = self.table_order@;
        self.table_order.push(schema.name.clone());
        self.schemas.insert(schema.name.clone(), schema);
        proof {
            assert(self@.table_order =~= old(self)@.table_order.push(name));
            assert(self@.schemas =~= old(self)@.schemas.insert(name, schema@));
            assert(self@.inserts =~= old(self)@.inserts.insert(
                name,
                old(self)@.inserts_into(name),
            ));
        }
    }

    /// Adds an `INSERT` statement.
    fn insert_into(&mut self, name: &str, insert: InsertStmt<'a>)
        ensures
            final(self)@ == old(self)@.insert_into(name@, insert@),
    {
        let mut list = self.take_inserts(name);
        let ghost before = inserts(list@);
        list.push(insert);
        assert(inserts(list@) =~= before.push(insert@));
        self.inserts.insert(name.to_owned(), list);
        assert(self@.inserts =~= old(self)@.inserts.insert(name@, before.push(insert@)));
    }

    /// Adds what a statement says; `false` when it is malformed.
    fn add_statement(&mut self, stmt: &'a [u8]) -> (r: bool)
        ensures
            match old(self)@.add_statement(stmt@) {
                Some(dump) => r && final(self)@ == dump,
                None => !r,
            },
    {
        proof {
            reveal_strlit("CREATE TABLE");
        }
        if starts_conditional_create(stmt) {
            return true;
        }
        let word = statement_keyword(stmt);
        if str_eq(word.as_str(), "CREATE") {
            let body = strip_leading_comments(stmt);
            if starts_with_ci(body, ascii_bytes("CREATE TABLE")) {
                match try_parse_create_table(stmt) {
                    Some(schema) => {
                        self.create(schema);
                    },
                    None => {
                        return false;
                    },
                }
            }
        } else if str_eq(word.as_str(), "INSERT") {
            match parse_insert_header(stmt) {
                Some((name, insert)) => {
                    self.insert_into(name, insert);
                },
                None => {
                    return false;
                },
            }
        }
        true
    }
}

/// Parses a dump; `None` when a `CREATE TABLE` or `INSERT` statement in it is malformed.
pub fn try_parse_dump(data: &[u8]) -> (r: Option<ParsedDump<'_>>)
    ensures
        match parsed(data@) {
            Some(dump) => r is Some && r->0@ == dump,
            None => r is None,
        },
{
    let stmts = iter_statements(data).collect();
    let ghost all = contents(stmts@);
    let mut dump = ParsedDump {
        table_order: Vec::new(),
        schemas: TableMap::new(),
        inserts: TableMap::new(),
    };
    proof {
        assert(dump@.table_order =~= Seq::empty());
        assert(dump@.schemas =~= Map::empty());
        assert(dump@.inserts =~= Map::empty());
        assert(all.take(0) =~= Seq::<Seq<u8>>::empty());
    }
    let mut i: usize = 0;
    while i < stmts.len()
        invariant
            i <= stmts@.len(),
            all == contents(stmts@),
            all == statements(data@, 0, seq![SEMICOLON]),
            dump_of(all.take(i as int)) == Some(dump@),
        decreases stmts@.len() - i,
    {
        proof {
            assert(all.take(i + 1).drop_last() =~= all.take(i as int));
            assert(all.take(i + 1).last() == stmts@[i as int]@);
            if dump_of(all.take(i + 1)) is None {
                lemma_dump_prefix(all, i + 1);
            }
        }
        if !dump.add_statement(stmts[i]) {
            return None;
        }
        i = i + 1;
    }
    assert(all.take(i as int) =~= all);
    Some(dump)
}

/// Parses a dump whose `CREATE TABLE` and `INSERT` statements are well-formed.
pub fn parse_dump(data: &[u8]) -> (r: ParsedDump<'_>)
    requires
        parsed(data@) is Some,
    ensures
        Some(r@) == parsed(data@),
{
    try_parse_dump(data).unwrap()
}

} // verus!
