//! Parses `CREATE TABLE` statements into structured form.

use vstd::prelude::*;
use vstd::slice::{slice_subrange, slice_to_vec};
use vstd::utf8::{decode_utf8, valid_utf8};

use crate::bytes::{
    alphabetic_prefix, ascii, ascii_bytes, at_ci, byte_index, contents, eq_ci, eq_ignore_ascii_case,
    find_byte, index_where, is_alphabetic, is_alphanumeric, is_digit, is_hex_digit, is_quote,
    lemma_index_where, lemma_index_where_is, lowercase, not_alphabetic, position, starts_ci,
    starts_with_ci, trim, trim_ascii, trim_ascii_start, trim_start, BACKTICK, CLOSE_PAREN, COMMA,
    DASH, DIGIT_0, DOT, DOUBLE_QUOTE, OPEN_PAREN, PLUS, SINGLE_QUOTE,
};
use crate::sqlstream::{
    lemma_quoted_end_bounds, matching_paren, quoted_end, skip_quoted, split, split_toplevel,
    strip_comments, strip_leading_comments, try_matching_paren,
};
use crate::text::{
    ascii_string, ascii_text, clone_strings, parse_number, parse_u32, str_eq, strs, texts,
    trim_text, utf8_text,
};
use crate::values::{cell, parse_value, try_parse_value_token, Cell};

verus! {

/// One column of a table.
#[derive(Debug, Clone, PartialEq, Eq)]
pub struct Column {
    pub name: String,
    /// The base type keyword in lowercase: `int`, `varchar`, `decimal`, ...
    pub data_type: String,
    pub nullable: bool,
    /// The declared width of a `bit` column (`BIT` alone is `BIT(1)`), which the decoding of its
    /// bit literals needs; `None` for every other type.
    pub bit_width: Option<u32>,
    /// What a row that leaves the column out of its column list gets.
    pub default: ColumnDefault,
}

/// A column's `DEFAULT` clause.
#[derive(Debug, Clone, PartialEq, Eq)]
pub enum ColumnDefault {
    /// There is no `DEFAULT` clause.
    Absent,
    /// A literal (`DEFAULT NULL`, `DEFAULT '0'`, `DEFAULT b'1'`, ...), parsed into the cell that
    /// a row value of the same text gives.
    Literal(Cell),
    /// An expression (`DEFAULT CURRENT_TIMESTAMP`, `DEFAULT (expr)`, ...), whose value is not
    /// known from the text.
    Expression,
}

/// The parsed form of one `CREATE TABLE` statement.
#[derive(Debug, Clone)]
pub struct TableSchema {
    pub name: String,
    pub columns: Vec<Column>,
    pub primary_key: Vec<String>,
    pub unique_keys: Vec<Vec<String>>,
    /// The exact text of the statement, which is what runs when the table is created or rebuilt.
    pub raw_statement: Vec<u8>,
}

/// The content of a `DEFAULT` clause.
pub enum DefaultModel {
    Absent,
    Literal(Option<Seq<u8>>),
    Expression,
}

/// The content of a column.
pub struct ColumnModel {
    pub name: Seq<char>,
    pub data_type: Seq<char>,
    pub nullable: bool,
    pub bit_width: Option<u32>,
    pub default: DefaultModel,
}

/// The content of a schema.
pub struct SchemaModel {
    pub name: Seq<char>,
    pub columns: Seq<ColumnModel>,
    pub primary_key: Seq<Seq<char>>,
    pub unique_keys: Seq<Seq<Seq<char>>>,
    pub raw_statement: Seq<u8>,
}

impl View for ColumnDefault {
    type V = DefaultModel;

    open spec fn view(&self) -> DefaultModel {
        match self {
            ColumnDefault::Absent => DefaultModel::Absent,
            ColumnDefault::Literal(c) => DefaultModel::Literal(cell(*c)),
            ColumnDefault::Expression => DefaultModel::Expression,
        }
    }
}

impl View for Column {
    type V = ColumnModel;

    open spec fn view(&self) -> ColumnModel {
        ColumnModel {
            name: self.name@,
            data_type: self.data_type@,
            nullable: self.nullable,
            bit_width: self.bit_width,
            default: self.default@,
        }
    }
}

/// The contents of a list of columns.
pub open spec fn columns(v: Seq<Column>) -> Seq<ColumnModel> {
    v.map_values(|c: Column| c@)
}

/// The contents of a list of keys.
pub open spec fn keys(v: Seq<Vec<String>>) -> Seq<Seq<Seq<char>>> {
    v.map_values(|k: Vec<String>| texts(k@))
}

impl View for TableSchema {
    type V = SchemaModel;

    open spec fn view(&self) -> SchemaModel {
        SchemaModel {
            name: self.name@,
            columns: columns(self.columns@),
            primary_key: texts(self.primary_key@),
            unique_keys: keys(self.unique_keys@),
            raw_statement: self.raw_statement@,
        }
    }
}

impl DefaultModel {
    /// The value of an omitted column: the literal, or NULL where none is known.
    pub open spec fn resolved(self) -> Option<Seq<u8>> {
        match self {
            DefaultModel::Literal(value) => value,
            _ => None,
        }
    }
}

impl ColumnDefault {
    /// The value for a row that omits this column. The value of an expression is not known, so it
    /// falls back to NULL, as a missing clause does.
    pub fn resolve(&self) -> (r: Cell)
        ensures
            cell(r) == self@.resolved(),
    {
        match self {
            ColumnDefault::Literal(Some(v)) => Some(slice_to_vec(v.as_slice())),
            _ => None,
        }
    }
}

/// The first column with the given name, from `i` on.
pub open spec fn column_from(columns: Seq<ColumnModel>, name: Seq<char>, i: int) -> Option<ColumnModel>
    decreases columns.len() - i,
{
    if i < 0 || i >= columns.len() {
        None
    } else if columns[i].name == name {
        Some(columns[i])
    } else {
        column_from(columns, name, i + 1)
    }
}

impl SchemaModel {
    /// The first column with the given name.
    pub open spec fn column(self, name: Seq<char>) -> Option<ColumnModel> {
        column_from(self.columns, name, 0)
    }

    /// Every column of the key exists and is declared `NOT NULL`.
    pub open spec fn never_null(self, key: Seq<Seq<char>>) -> bool {
        forall|i: int|
            0 <= i < key.len() ==> (self.column(#[trigger] key[i]) matches Some(c) && !c.nullable)
    }

    /// The first unique key without nullable columns, from the `i`-th on.
    pub open spec fn usable_unique_key(self, i: int) -> Option<Seq<Seq<char>>>
        decreases self.unique_keys.len() - i,
    {
        if i < 0 || i >= self.unique_keys.len() {
            None
        } else if self.never_null(self.unique_keys[i]) {
            Some(self.unique_keys[i])
        } else {
            self.usable_unique_key(i + 1)
        }
    }

    /// The key that identifies rows: the primary key, else the first unique key without nullable
    /// columns, else none.
    pub open spec fn key(self) -> Option<Seq<Seq<char>>> {
        if self.primary_key.len() > 0 {
            Some(self.primary_key)
        } else {
            self.usable_unique_key(0)
        }
    }

    /// The number of constraints that can make an inserted row collide with an existing one.
    pub open spec fn constraints(self) -> nat {
        self.unique_keys.len() + (if self.primary_key.len() > 0 {
            1nat
        } else {
            0nat
        })
    }

    /// The key that identifies rows, where it is the only unique constraint of the table.
    pub open spec fn only_key(self) -> Option<Seq<Seq<char>>> {
        if self.constraints() == 1 {
            self.key()
        } else {
            None
        }
    }

    /// The parts that affect the identity and shape of rows: names, types and nullability of the
    /// columns in order, and the primary key.
    pub open spec fn shape(self) -> (Seq<(Seq<char>, Seq<char>, bool)>, Seq<Seq<char>>) {
        (
            self.columns.map_values(|c: ColumnModel| (c.name, c.data_type, c.nullable)),
            self.primary_key,
        )
    }

    /// The names of the columns, in order.
    pub open spec fn column_names(self) -> Seq<Seq<char>> {
        self.columns.map_values(|c: ColumnModel| c.name)
    }
}

/// The contents of a list of column signatures.
pub open spec fn signatures(v: Seq<(String, String, bool)>) -> Seq<(Seq<char>, Seq<char>, bool)> {
    v.map_values(|s: (String, String, bool)| (s.0@, s.1@, s.2))
}

impl TableSchema {
    /// The names of the columns, in order.
    pub fn column_names(&self) -> (r: Vec<&str>)
        ensures
            strs(r@) == self@.column_names(),
    {
        let mut names: Vec<&str> = Vec::new();
        let mut i: usize = 0;
        while i < self.columns.len()
            invariant
                i <= self.columns@.len(),
                strs(names@) =~= self@.column_names().take(i as int),
            decreases self.columns@.len() - i,
        {
            let ghost before = names@;
            let name = self.columns[i].name.as_str();
            names.push(name);
            assert(strs(names@) =~= strs(before).push(name@));
            assert(self@.column_names().take(i + 1) =~= self@.column_names().take(i as int).push(
                name@,
            ));
            i = i + 1;
        }
        assert(self@.column_names().take(i as int) =~= self@.column_names());
        names
    }

    /// The index of the first column with the given name.
    pub fn column_index(&self, name: &str) -> (r: Option<usize>)
        ensures
            match r {
                Some(i) => {
                    &&& i < self.columns@.len()
                    &&& self.columns@[i as int].name@ == name@
                    &&& self@.column(name@) == Some(self.columns@[i as int]@)
                    &&& forall|j: int| 0 <= j < i ==> self.columns@[j].name@ != name@
                },
                None => {
                    &&& self@.column(name@) is None
                    &&& forall|j: int|
                        0 <= j < self.columns@.len() ==> self.columns@[j].name@ != name@
                },
            },
    {
        let mut i: usize = 0;
        while i < self.columns.len()
            invariant
                i <= self.columns@.len(),
                self@.column(name@) == column_from(self@.columns, name@, i as int),
                forall|j: int| 0 <= j < i ==> self.columns@[j].name@ != name@,
            decreases self.columns@.len() - i,
        {
            if str_eq(self.columns[i].name.as_str(), name) {
                return Some(i);
            }
            i = i + 1;
        }
        None
    }

    /// Whether every column of `key` exists and is declared `NOT NULL`.
    fn is_never_null(&self, key: &[String]) -> (r: bool)
        ensures
            r == self@.never_null(texts(key@)),
    {
        let mut i: usize = 0;
        while i < key.len()
            invariant
                i <= key@.len(),
                forall|j: int|
                    0 <= j < i ==> (self@.column(#[trigger] texts(key@)[j]) matches Some(c)
                        && !c.nullable),
            decreases key@.len() - i,
        {
            let found = self.column_index(key[i].as_str());
            assert(texts(key@)[i as int] == key@[i as int]@);
            match found {
                Some(c) => {
                    if self.columns[c].nullable {
                        return false;
                    }
                },
                None => {
                    return false;
                },
            }
            i = i + 1;
        }
        true
    }

    /// The best key to identify rows by: the primary key, else the first unique key without
    /// nullable columns, else `None` (rows are then compared as a multiset).
    pub fn key_columns(&self) -> (r: Option<&[String]>)
        ensures
            match self@.key() {
                Some(key) => r is Some && texts(r->0@) == key,
                None => r is None,
            },
    {
        if !self.primary_key.is_empty() {
            return Some(self.primary_key.as_slice());
        }
        let mut i: usize = 0;
        while i < self.unique_keys.len()
            invariant
                i <= self.unique_keys@.len(),
                self.primary_key@.len() == 0,
                self@.key() == self@.usable_unique_key(i as int),
            decreases self.unique_keys@.len() - i,
        {
            let key = self.unique_keys[i].as_slice();
            assert(self@.unique_keys[i as int] == texts(key@));
            if self.is_never_null(key) {
                return Some(key);
            }
            i = i + 1;
        }
        None
    }

    /// The key to identify rows by, where it is the table's only unique constraint.
    pub fn effective_key(&self) -> (r: Option<&[String]>)
        ensures
            match self@.only_key() {
                Some(key) => r is Some && texts(r->0@) == key,
                None => r is None,
            },
    {
        if self.primary_key.is_empty() {
            if self.unique_keys.len() != 1 {
                return None;
            }
        } else if !self.unique_keys.is_empty() {
            return None;
        }
        self.key_columns()
    }

    /// A comparable signature of the parts of a schema that affect the identity and shape of
    /// rows. Index, engine and charset differences do not show in it.
    pub fn signature(&self) -> (r: (Vec<(String, String, bool)>, Vec<String>))
        ensures
            (signatures(r.0@), texts(r.1@)) == self@.shape(),
    {
        let mut out: Vec<(String, String, bool)> = Vec::new();
        let mut i: usize = 0;
        while i < self.columns.len()
            invariant
                i <= self.columns@.len(),
                signatures(out@) =~= self@.shape().0.take(i as int),
            decreases self.columns@.len() - i,
        {
            let ghost before = out@;
            let c = &self.columns[i];
            let s = (c.name.clone(), c.data_type.clone(), c.nullable);
            out.push(s);
            assert(signatures(out@) =~= signatures(before).push((s.0@, s.1@, s.2)));
            assert(self@.shape().0.take(i + 1) =~= self@.shape().0.take(i as int).push(
                (s.0@, s.1@, s.2),
            ));
            i = i + 1;
        }
        assert(self@.shape().0.take(i as int) =~= self@.shape().0);
        (out, clone_strings(self.primary_key.as_slice()))
    }
}

/// The name between the backtick that `item` starts with and the next one, and what follows.
pub open spec fn backtick(item: Seq<u8>) -> Option<(Seq<char>, Seq<u8>)> {
    match byte_index(item, 1, BACKTICK) {
        Some(end) => if valid_utf8(item.subrange(1, end)) {
            Some((decode_utf8(item.subrange(1, end)), item.skip(end + 1)))
        } else {
            None
        },
        None => None,
    }
}

/// The name between the backtick that `item` starts with and the next one, and what follows;
/// `None` when there is no closing backtick or the name is not valid UTF-8.
pub(crate) fn backtick_name(item: &[u8]) -> (r: Option<(&str, &[u8])>)
    requires
        item@.len() > 0,
    ensures
        match backtick(item@) {
            Some((name, rest)) => r matches Some((n, t)) && n@ == name && t@ == rest,
            None => r is None,
        },
        r matches Some((_, t)) ==> t@.len() < item@.len(),
{
    let len = item.len();
    let end = match find_byte(item, 1, BACKTICK) {
        Some(end) => end,
        None => {
            return None;
        },
    };
    match utf8_text(slice_subrange(item, 1, end)) {
        Some(name) => {
            let rest = slice_subrange(item, end + 1, len);
            assert(rest@ =~= item@.skip(end + 1));
            Some((name, rest))
        },
        None => None,
    }
}

/// The backtick-quoted name that a key part starts with; other parts (expressions) have none.
pub open spec fn key_part(part: Seq<u8>) -> Seq<Seq<char>> {
    let t = trim(part);
    if t.len() > 0 && t[0] == BACKTICK {
        match backtick(t) {
            Some((name, _)) => seq![name],
            None => Seq::empty(),
        }
    } else {
        Seq::empty()
    }
}

/// The names of the key parts, in order.
pub open spec fn key_parts(parts: Seq<Seq<u8>>) -> Seq<Seq<char>>
    decreases parts.len(),
{
    if parts.len() == 0 {
        Seq::empty()
    } else {
        key_parts(parts.drop_last()) + key_part(parts.last())
    }
}

/// The columns that a key definition lists in its parentheses, or `None` when these are not
/// balanced.
pub open spec fn key_definition(def: Seq<u8>) -> Option<Seq<Seq<char>>> {
    match byte_index(def, 0, OPEN_PAREN) {
        None => Some(Seq::empty()),
        Some(open) => match matching_paren(def, open) {
            None => None,
            Some(close) => Some(key_parts(split(def.subrange(open + 1, close), COMMA))),
        },
    }
}

/// The columns that a key definition lists in its parentheses.
pub(crate) fn extract_key_cols(def: &[u8]) -> (r: Option<Vec<String>>)
    ensures
        match key_definition(def@) {
            Some(names) => r is Some && texts(r->0@) == names,
            None => r is None,
        },
{
    let open = match find_byte(def, 0, OPEN_PAREN) {
        Some(open) => open,
        None => {
            let names: Vec<String> = Vec::new();
            assert(texts(names@) =~= Seq::empty());
            return Some(names);
        },
    };
    let close = match try_matching_paren(def, open) {
        Some(close) => close,
        None => {
            return None;
        },
    };
    let inner = slice_subrange(def, open + 1, close);
    let parts = split_toplevel(inner, COMMA);
    let ghost all = contents(parts@);
    let mut names: Vec<String> = Vec::new();
    let mut i: usize = 0;
    assert(all.take(0) =~= Seq::<Seq<u8>>::empty());
    while i < parts.len()
        invariant
            i <= parts@.len(),
            all == contents(parts@),
            texts(names@) =~= key_parts(all.take(i as int)),
        decreases parts@.len() - i,
    {
        let part = trim_ascii(parts[i]);
        proof {
            assert(all.take(i + 1).drop_last() =~= all.take(i as int));
            assert(all.take(i + 1).last() == parts@[i as int]@);
        }
        if part.len() > 0 && part[0] == BACKTICK {
            if let Some((name, _)) = backtick_name(part) {
                let ghost before = names@;
                let owned = name.to_owned();
                names.push(owned);
                assert(texts(names@) =~= texts(before).push(owned@));
            }
        }
        i = i + 1;
    }
    assert(all.take(i as int) =~= all);
    Some(names)
}

/// The width that follows the keyword `bit`: the number in parentheses, or one.
pub open spec fn bit_width(after_type: Seq<u8>) -> u32 {
    let t = trim_start(after_type);
    if t.len() > 0 && t[0] == OPEN_PAREN {
        match byte_index(t, 0, CLOSE_PAREN) {
            Some(close) => if valid_utf8(t.subrange(1, close)) {
                match parse_number(trim_text(decode_utf8(t.subrange(1, close)))) {
                    Some(n) => n,
                    None => 1,
                }
            } else {
                1
            },
            None => 1,
        }
    } else {
        1
    }
}

/// The width that follows the keyword `bit`; without a parenthesized number it is one.
pub(crate) fn parse_bit_width(after_type: &[u8]) -> (r: u32)
    ensures
        r == bit_width(after_type@),
{
    let after = trim_ascii_start(after_type);
    if after.len() > 0 && after[0] == OPEN_PAREN {
        if let Some(close) = find_byte(after, 0, CLOSE_PAREN) {
            if let Some(text) = utf8_text(slice_subrange(after, 1, close)) {
                if let Some(n) = parse_u32(text) {
                    return n;
                }
            }
        }
    }
    1
}

/// `word` stands at `i` as a whole word, up to the case of its letters.
pub open spec fn word_at(data: Seq<u8>, word: Seq<u8>, i: int) -> bool {
    &&& i == 0 || !is_alphanumeric(data[i - 1])
    &&& at_ci(data, i, word)
    &&& i + word.len() >= data.len() || !is_alphanumeric(data[i + word.len()])
}

/// The first place at or after `i`, outside quotes, where `word` stands as a whole word.
pub open spec fn word_from(data: Seq<u8>, word: Seq<u8>, i: int) -> Option<int>
    decreases data.len() - i,
{
    if i < 0 || i >= data.len() {
        None
    } else if is_quote(data[i]) {
        proof {
            lemma_quoted_end_bounds(data, data[i], i + 1);
        }
        word_from(data, word, quoted_end(data, data[i], i + 1))
    } else if word_at(data, word, i) {
        Some(i)
    } else {
        word_from(data, word, i + 1)
    }
}

/// The first place outside quotes where `word` stands as a whole word, in any case.
pub(crate) fn find_word_ci(data: &[u8], word: &[u8]) -> (r: Option<usize>)
    ensures
        position(r) == word_from(data@, word@, 0),
        r matches Some(i) ==> i + word@.len() <= data@.len(),
{
    let len = data.len();
    let wlen = word.len();
    let mut i: usize = 0;
    while i < len
        invariant
            len == data@.len(),
            wlen == word@.len(),
            i <= len,
            word_from(data@, word@, i as int) == word_from(data@, word@, 0),
        decreases len - i,
    {
        if is_quote(data[i]) {
            i = skip_quoted(data, i);
        } else {
            if is_word_at(data, word, i) {
                return Some(i);
            }
            i = i + 1;
        }
    }
    None
}

/// The first place at or after `i`, outside quotes and parentheses, where `word` stands as a whole
/// word; `depth` parentheses are open at `i`.
pub open spec fn outer_word_from(data: Seq<u8>, word: Seq<u8>, i: int, depth: nat) -> Option<int>
    decreases data.len() - i,
{
    if i < 0 || i >= data.len() {
        None
    } else if is_quote(data[i]) {
        proof {
            lemma_quoted_end_bounds(data, data[i], i + 1);
        }
        outer_word_from(data, word, quoted_end(data, data[i], i + 1), depth)
    } else if data[i] == OPEN_PAREN {
        outer_word_from(data, word, i + 1, depth + 1)
    } else if data[i] == CLOSE_PAREN {
        outer_word_from(
            data,
            word,
            i + 1,
            if depth > 0 {
                (depth - 1) as nat
            } else {
                0
            },
        )
    } else if depth == 0 && word_at(data, word, i) {
        Some(i)
    } else {
        outer_word_from(data, word, i + 1, depth)
    }
}

/// Whether `word` stands at `i` as a whole word, in any case.
fn is_word_at(data: &[u8], word: &[u8], i: usize) -> (r: bool)
    requires
        i < data@.len(),
    ensures
        r == word_at(data@, word@, i as int),
{
    let len = data.len();
    let wlen = word.len();
    (i == 0 || !is_alphanumeric(data[i - 1])) && wlen <= len - i && eq_ignore_ascii_case(
        slice_subrange(data, i, i + wlen),
        word,
    ) && (i + wlen >= len || !is_alphanumeric(data[i + wlen]))
}

/// The first place outside quotes and parentheses where `word` stands as a whole word, in any case:
/// an attribute of a column, and not the text of its comment or part of an expression.
pub(crate) fn find_outer_word_ci(data: &[u8], word: &[u8]) -> (r: Option<usize>)
    ensures
        position(r) == outer_word_from(data@, word@, 0, 0),
{
    let len = data.len();
    let mut i: usize = 0;
    let mut depth: usize = 0;
    while i < len
        invariant
            len == data@.len(),
            depth <= i <= len,
            outer_word_from(data@, word@, i as int, depth as nat) == outer_word_from(
                data@,
                word@,
                0,
                0,
            ),
        decreases len - i,
    {
        if is_quote(data[i]) {
            i = skip_quoted(data, i);
        } else if data[i] == OPEN_PAREN {
            depth = depth + 1;
            i = i + 1;
        } else if data[i] == CLOSE_PAREN {
            if depth > 0 {
                depth = depth - 1;
            }
            i = i + 1;
        } else {
            if depth == 0 && is_word_at(data, word, i) {
                return Some(i);
            }
            i = i + 1;
        }
    }
    None
}

/// The bytes that are no ASCII letters or digits.
pub open spec fn not_alphanumeric() -> spec_fn(u8) -> bool {
    |b: u8| !is_alphanumeric(b)
}

/// The bytes that are no digits of base sixteen.
pub open spec fn not_hex() -> spec_fn(u8) -> bool {
    |b: u8| !is_hex_digit(b)
}

/// A byte of a decimal number: a digit, a point, a sign or an exponent mark.
#[verifier::allow_in_spec]
pub fn is_numeric(b: u8) -> bool
    returns
        is_digit(b) || b == DOT || b == DASH || b == PLUS || b == 0x65 || b == 0x45,
{
    is_digit(b) || b == DOT || b == DASH || b == PLUS || b == 0x65 || b == 0x45
}

/// The bytes that do not belong to a decimal number.
pub open spec fn not_numeric() -> spec_fn(u8) -> bool {
    |b: u8| !is_numeric(b)
}

/// Where the literal that `after` starts with ends; `None` when it starts with no literal.
pub open spec fn literal_end(after: Seq<u8>) -> Option<int> {
    if after.len() == 0 {
        None
    } else if after[0] == SINGLE_QUOTE || after[0] == DOUBLE_QUOTE {
        Some(quoted_end(after, after[0], 1))
    } else if (after[0] == 0x62 || after[0] == 0x42) && after.len() > 1 && after[1]
        == SINGLE_QUOTE {
        Some(quoted_end(after, SINGLE_QUOTE, 2))
    } else if after[0] == DIGIT_0 && after.len() > 1 && (after[1] == 0x78 || after[1] == 0x58) {
        Some(index_where(after, 2, not_hex()))
    } else if is_digit(after[0]) || after[0] == DASH || after[0] == PLUS || after[0] == DOT {
        Some(index_where(after, 0, not_numeric()))
    } else {
        None
    }
}

/// What the text after the keyword `DEFAULT` denotes; `None` when it is a lone quote.
pub open spec fn default_value(after: Seq<u8>, bit_width: Option<u32>) -> Option<DefaultModel> {
    if eq_ci(after.take(index_where(after, 0, not_alphanumeric())), ascii("NULL")) {
        Some(DefaultModel::Literal(None))
    } else {
        match literal_end(after) {
            Some(end) => match parse_value(after.take(end), bit_width) {
                Some(value) => Some(DefaultModel::Literal(value)),
                None => None,
            },
            None => Some(DefaultModel::Expression),
        }
    }
}

/// Where the literal that `after` starts with ends.
fn find_literal_end(after: &[u8]) -> (r: Option<usize>)
    ensures
        position(r) == literal_end(after@),
        r matches Some(end) ==> end <= after@.len(),
{
    let len = after.len();
    if len == 0 {
        return None;
    }
    let first = after[0];
    if first == SINGLE_QUOTE || first == DOUBLE_QUOTE {
        return Some(skip_quoted(after, 0));
    }
    if (first == 0x62 || first == 0x42) && len > 1 && after[1] == SINGLE_QUOTE {
        return Some(skip_quoted(after, 1));
    }
    if first == DIGIT_0 && len > 1 && (after[1] == 0x78 || after[1] == 0x58) {
        let mut i: usize = 2;
        while i < len && is_hex_digit(after[i])
            invariant
                2 <= i <= len == after@.len(),
                forall|j: int| 2 <= j < i ==> is_hex_digit(#[trigger] after@[j]),
            decreases len - i,
        {
            i = i + 1;
        }
        proof {
            lemma_index_where_is(after@, 2, not_hex(), i as int);
        }
        return Some(i);
    }
    if is_digit(first) || first == DASH || first == PLUS || first == DOT {
        let mut i: usize = 0;
        while i < len && is_numeric(after[i])
            invariant
                i <= len == after@.len(),
                forall|j: int| 0 <= j < i ==> is_numeric(#[trigger] after@[j]),
            decreases len - i,
        {
            i = i + 1;
        }
        proof {
            lemma_index_where_is(after@, 0, not_numeric(), i as int);
        }
        return Some(i);
    }
    None
}

/// What the text after the keyword `DEFAULT` denotes; `None` when it is a lone quote.
pub fn parse_default_value(after: &[u8], bit_width: Option<u32>) -> (r: Option<ColumnDefault>)
    ensures
        match default_value(after@, bit_width) {
            Some(default) => r is Some && r->0@ == default,
            None => r is None,
        },
{
    let len = after.len();
    let mut word_end: usize = 0;
    while word_end < len && is_alphanumeric(after[word_end])
        invariant
            word_end <= len == after@.len(),
            forall|j: int| 0 <= j < word_end ==> is_alphanumeric(#[trigger] after@[j]),
        decreases len - word_end,
    {
        word_end = word_end + 1;
    }
    proof {
        lemma_index_where_is(after@, 0, not_alphanumeric(), word_end as int);
        reveal_strlit("NULL");
    }
    let word = slice_subrange(after, 0, word_end);
    assert(word@ =~= after@.take(word_end as int));
    if eq_ignore_ascii_case(word, ascii_bytes("NULL")) {
        return Some(ColumnDefault::Literal(None));
    }
    match find_literal_end(after) {
        Some(end) => {
            let token = slice_subrange(after, 0, end);
            assert(token@ =~= after@.take(end as int));
            match try_parse_value_token(token, bit_width) {
                Some(value) => Some(ColumnDefault::Literal(value.into_cell())),
                None => None,
            }
        },
        None => Some(ColumnDefault::Expression),
    }
}

/// The `DEFAULT` clause in what follows a column's name; `None` when its value is a lone quote.
pub open spec fn default_clause(rest: Seq<u8>, bit_width: Option<u32>) -> Option<DefaultModel> {
    match word_from(rest, ascii("DEFAULT"), 0) {
        None => Some(DefaultModel::Absent),
        Some(i) => default_value(
            trim_start(rest.skip(i + ascii("DEFAULT").len())),
            bit_width,
        ),
    }
}

/// The `DEFAULT` clause in what follows a column's name. The keyword does not count inside
/// quotes, such as those of a `COMMENT`.
pub fn extract_default(rest: &[u8], bit_width: Option<u32>) -> (r: Option<ColumnDefault>)
    ensures
        match default_clause(rest@, bit_width) {
            Some(default) => r is Some && r->0@ == default,
            None => r is None,
        },
{
    proof {
        reveal_strlit("DEFAULT");
    }
    let word = ascii_bytes("DEFAULT");
    match find_word_ci(rest, word) {
        None => Some(ColumnDefault::Absent),
        Some(i) => {
            let len = rest.len();
            let tail = slice_subrange(rest, i + word.len(), len);
            assert(tail@ =~= rest@.skip(i + word@.len()));
            parse_default_value(trim_ascii_start(tail), bit_width)
        },
    }
}

/// What the items of a `CREATE TABLE` have declared so far.
pub struct Definitions {
    pub columns: Seq<ColumnModel>,
    pub primary_key: Seq<Seq<char>>,
    pub unique_keys: Seq<Seq<Seq<char>>>,
}

/// The base type keyword that a column definition starts with, past its name.
pub open spec fn type_keyword(rest: Seq<u8>) -> Seq<char> {
    ascii_text(
        rest.take(index_where(rest, 0, not_alphabetic())).map_values(|b: u8| lowercase(b)),
    )
}

/// The column that an item declares, given its name and what follows the name. The words `NOT NULL`
/// count outside quotes and parentheses only.
pub open spec fn column_definition(item: Seq<u8>, name: Seq<char>, after: Seq<u8>) -> Option<
    ColumnModel,
> {
    let rest = trim_start(after);
    let data_type = type_keyword(rest);
    let width = if data_type == "bit"@ {
        Some(bit_width(rest.skip(index_where(rest, 0, not_alphabetic()))))
    } else {
        None
    };
    match default_clause(rest, width) {
        Some(default) => Some(
            ColumnModel {
                name,
                data_type,
                nullable: outer_word_from(item, ascii("NOT NULL"), 0, 0) is None,
                bit_width: width,
                default,
            },
        ),
        None => None,
    }
}

/// The definitions with those of one more item: a column, a primary key, a unique key, or
/// something that does not matter to rows. `None` is a malformed item.
pub open spec fn add_item(defs: Definitions, item: Seq<u8>) -> Option<Definitions> {
    let t = trim(item);
    if t.len() == 0 {
        Some(defs)
    } else if t[0] == BACKTICK {
        match backtick(t) {
            None => Some(defs),
            Some((name, after)) => match column_definition(t, name, after) {
                Some(column) => Some(
                    Definitions { columns: defs.columns.push(column), ..defs },
                ),
                None => None,
            },
        }
    } else if starts_ci(t, ascii("PRIMARY KEY")) {
        match key_definition(t) {
            Some(names) => Some(Definitions { primary_key: names, ..defs }),
            None => None,
        }
    } else if starts_ci(t, ascii("UNIQUE KEY")) || starts_ci(t, ascii("UNIQUE INDEX")) {
        match key_definition(t) {
            Some(names) => Some(
                Definitions { unique_keys: defs.unique_keys.push(names), ..defs },
            ),
            None => None,
        }
    } else {
        Some(defs)
    }
}

/// The definitions of a list of items.
pub open spec fn definitions(items: Seq<Seq<u8>>) -> Option<Definitions>
    decreases items.len(),
{
    if items.len() == 0 {
        Some(
            Definitions {
                columns: Seq::empty(),
                primary_key: Seq::empty(),
                unique_keys: Seq::empty(),
            },
        )
    } else {
        match definitions(items.drop_last()) {
            Some(defs) => add_item(defs, items.last()),
            None => None,
        }
    }
}

/// The schema that a `CREATE TABLE` statement declares: the name in the first backticks, and the
/// items in the parentheses that follow. `None` is a statement of another kind, or one whose
/// name, parentheses or literals are malformed.
pub open spec fn create_table(stmt: Seq<u8>) -> Option<SchemaModel> {
    let s = strip_comments(stmt);
    let after = s.skip(ascii("CREATE TABLE").len() as int);
    if !starts_ci(s, ascii("CREATE TABLE")) {
        None
    } else {
        match byte_index(after, 0, BACKTICK) {
            None => None,
            Some(tick) => match (
                backtick(after.skip(tick)),
                byte_index(after, tick, OPEN_PAREN),
            ) {
                (Some((name, _)), Some(open)) => match matching_paren(after, open) {
                    None => None,
                    Some(close) => match definitions(
                        split(after.subrange(open + 1, close), COMMA),
                    ) {
                        None => None,
                        Some(defs) => Some(
                            SchemaModel {
                                name,
                                columns: defs.columns,
                                primary_key: defs.primary_key,
                                unique_keys: defs.unique_keys,
                                raw_statement: s,
                            },
                        ),
                    },
                },
                _ => None,
            },
        }
    }
}

/// The definitions collected by the parser, as `defs` describes them.
spec fn collected(
    columns_so_far: Seq<Column>,
    primary_key: Seq<String>,
    unique_keys: Seq<Vec<String>>,
    defs: Definitions,
) -> bool {
    &&& columns(columns_so_far) == defs.columns
    &&& texts(primary_key) == defs.primary_key
    &&& keys(unique_keys) == defs.unique_keys
}

/// Where one item is malformed, so is every list that goes on from it.
proof fn lemma_definitions_prefix(items: Seq<Seq<u8>>, n: int)
    requires
        0 <= n <= items.len(),
        definitions(items.take(n)) is None,
    ensures
        definitions(items) is None,
    decreases items.len() - n,
{
    if n < items.len() {
        assert(items.take(n + 1).drop_last() =~= items.take(n));
        lemma_definitions_prefix(items, n + 1);
    } else {
        assert(items.take(n) =~= items);
    }
}

/// The column that an item declares, given its name and what follows the name.
fn parse_column(item: &[u8], name: &str, after: &[u8]) -> (r: Option<Column>)
    ensures
        match column_definition(item@, name@, after@) {
            Some(column) => r is Some && r->0@ == column,
            None => r is None,
        },
{
    let rest = trim_ascii_start(after);
    let type_end = alphabetic_prefix(rest);
    let mut lower: Vec<u8> = Vec::new();
    let mut i: usize = 0;
    let ghost word = rest@.take(type_end as int);
    proof {
        lemma_index_where(rest@, 0, not_alphabetic());
        assert forall|j: int| 0 <= j < type_end implies is_alphabetic(#[trigger] rest@[j]) by {
            assert(!not_alphabetic()(rest@[j]));
        }
    }
    while i < type_end
        invariant
            i <= type_end <= rest@.len(),
            word == rest@.take(type_end as int),
            forall|j: int| 0 <= j < type_end ==> is_alphabetic(#[trigger] rest@[j]),
            lower@ =~= word.map_values(|b: u8| lowercase(b)).take(i as int),
        decreases type_end - i,
    {
        lower.push(lowercase(rest[i]));
        i = i + 1;
    }
    assert(lower@ =~= word.map_values(|b: u8| lowercase(b)));
    let data_type = ascii_string(lower.as_slice());
    let after_type = slice_subrange(rest, type_end, rest.len());
    assert(after_type@ =~= rest@.skip(type_end as int));
    let width = if str_eq(data_type.as_str(), "bit") {
        Some(parse_bit_width(after_type))
    } else {
        None
    };
    proof {
        reveal_strlit("NOT NULL");
    }
    let nullable = find_outer_word_ci(item, ascii_bytes("NOT NULL")).is_none();
    match extract_default(rest, width) {
        Some(default) => Some(
            Column { name: name.to_owned(), data_type, nullable, bit_width: width, default },
        ),
        None => None,
    }
}

/// The columns, the primary key and the unique keys that a list of items declares; `None` when one
/// is malformed.
fn parse_definitions(items: &[&[u8]]) -> (r: Option<(Vec<Column>, Vec<String>, Vec<Vec<String>>)>)
    ensures
        match definitions(contents(items@)) {
            Some(defs) => r matches Some((c, p, u)) && collected(c@, p@, u@, defs),
            None => r is None,
        },
{
    proof {
        reveal_strlit("PRIMARY KEY");
        reveal_strlit("UNIQUE KEY");
        reveal_strlit("UNIQUE INDEX");
    }
    let primary = ascii_bytes("PRIMARY KEY");
    let unique_a = ascii_bytes("UNIQUE KEY");
    let unique_b = ascii_bytes("UNIQUE INDEX");
    let ghost all = contents(items@);
    let mut column_list: Vec<Column> = Vec::new();
    let mut primary_key: Vec<String> = Vec::new();
    let mut unique_keys: Vec<Vec<String>> = Vec::new();
    let mut i: usize = 0;
    proof {
        assert(all.take(0) =~= Seq::<Seq<u8>>::empty());
        assert(columns(column_list@) =~= Seq::empty());
        assert(texts(primary_key@) =~= Seq::empty());
        assert(keys(unique_keys@) =~= Seq::empty());
    }
    while i < items.len()
        invariant
            i <= items@.len(),
            all == contents(items@),
            primary@ == ascii("PRIMARY KEY"),
            unique_a@ == ascii("UNIQUE KEY"),
            unique_b@ == ascii("UNIQUE INDEX"),
            definitions(all.take(i as int)) matches Some(defs) && collected(
                column_list@,
                primary_key@,
                unique_keys@,
                defs,
            ),
        decreases items@.len() - i,
    {
        let item = trim_ascii(items[i]);
        proof {
            assert(all.take(i + 1).drop_last() =~= all.take(i as int));
            assert(all.take(i + 1).last() == items@[i as int]@);
            if definitions(all.take(i + 1)) is None {
                lemma_definitions_prefix(all, i + 1);
            }
        }
        if item.len() == 0 {
        } else if item[0] == BACKTICK {
            if let Some((name, after)) = backtick_name(item) {
                match parse_column(item, name, after) {
                    Some(column) => {
                        let ghost before = column_list@;
                        column_list.push(column);
                        assert(columns(column_list@) =~= columns(before).push(column@));
                    },
                    None => {
                        return None;
                    },
                }
            }
        } else if starts_with_ci(item, primary) {
            match extract_key_cols(item) {
                Some(names) => {
                    primary_key = names;
                },
                None => {
                    return None;
                },
            }
        } else if starts_with_ci(item, unique_a) || starts_with_ci(item, unique_b) {
            match extract_key_cols(item) {
                Some(names) => {
                    let ghost before = unique_keys@;
                    unique_keys.push(names);
                    assert(keys(unique_keys@) =~= keys(before).push(texts(names@)));
                },
                None => {
                    return None;
                },
            }
        }
        i = i + 1;
    }
    assert(all.take(i as int) =~= all);
    Some((column_list, primary_key, unique_keys))
}

/// Parses one `CREATE TABLE` statement (as `sqlstream::iter_statements` yields it); `None` when
/// it is a statement of another kind, or malformed.
pub fn try_parse_create_table(stmt: &[u8]) -> (r: Option<TableSchema>)
    ensures
        match create_table(stmt@) {
            Some(schema) => r is Some && r->0@ == schema,
            None => r is None,
        },
{
    let body = strip_leading_comments(stmt);
    proof {
        reveal_strlit("CREATE TABLE");
    }
    let head = ascii_bytes("CREATE TABLE");
    if !starts_with_ci(body, head) {
        return None;
    }
    let after = slice_subrange(body, head.len(), body.len());
    assert(after@ =~= body@.skip(head@.len() as int));
    let tick = match find_byte(after, 0, BACKTICK) {
        Some(tick) => tick,
        None => {
            return None;
        },
    };
    let from_name = slice_subrange(after, tick, after.len());
    assert(from_name@ =~= after@.skip(tick as int));
    let name = match backtick_name(from_name) {
        Some((name, _)) => name,
        None => {
            return None;
        },
    };
    let open = match find_byte(after, tick, OPEN_PAREN) {
        Some(open) => open,
        None => {
            return None;
        },
    };
    let close = match try_matching_paren(after, open) {
        Some(close) => close,
        None => {
            return None;
        },
    };
    let items = split_toplevel(slice_subrange(after, open + 1, close), COMMA);
    match parse_definitions(items.as_slice()) {
        Some((columns, primary_key, unique_keys)) => Some(
            TableSchema {
                name: name.to_owned(),
                columns,
                primary_key,
                unique_keys,
                raw_statement: slice_to_vec(body),
            },
        ),
        None => None,
    }
}

/// Parses one well-formed `CREATE TABLE` statement.
pub fn parse_create_table(stmt: &[u8]) -> (r: TableSchema)
    requires
        create_table(stmt@) is Some,
    ensures
        Some(r@) == create_table(stmt@),
{
    try_parse_create_table(stmt).unwrap()
}

} // verus!
