//! What does not matter in a `CREATE TABLE` statement: plain indexes, constraints, and everything
//! behind the closing parenthesis.

use vstd::prelude::*;

use crate::balance::{is_part, lemma_inside_splits_into_parts, lemma_parts_text};
use crate::bytes::{
    ascii, byte_index, equal_to, index_where, is_quote, lemma_index_where, lemma_index_where_is,
    lowercase, starts_ci, trim, trim_start, BACKSLASH, BACKTICK, CLOSE_PAREN, COMMA, OPEN_PAREN,
};
use crate::ddl::{backtick, create_table, definitions, SchemaModel};
use crate::lexical::{holds_at, parts_text};
use crate::sqlstream::{
    lemma_paren_close_bounds, lemma_quoted_end_bounds, matching_paren, paren_close, quoted_end,
    split, strip_comments,
};

verus! {

/// An item that declares neither a column nor a primary or unique key: a plain index, a constraint,
/// or nothing at all.
pub open spec fn is_irrelevant(item: Seq<u8>) -> bool {
    let t = trim(item);
    t.len() == 0 || (t[0] != BACKTICK && !starts_ci(t, ascii("PRIMARY KEY")) && !starts_ci(
        t,
        ascii("UNIQUE KEY"),
    ) && !starts_ci(t, ascii("UNIQUE INDEX")))
}

/// An irrelevant item can stand anywhere among the others, or be left out, without a difference.
pub proof fn irrelevant_items_do_not_matter(
    ahead: Seq<Seq<u8>>,
    item: Seq<u8>,
    behind: Seq<Seq<u8>>,
)
    requires
        is_irrelevant(item),
    ensures
        definitions(ahead + seq![item] + behind) == definitions(ahead + behind),
    decreases behind.len(),
{
    let with = ahead + seq![item] + behind;
    let without = ahead + behind;
    if behind.len() == 0 {
        assert(with.drop_last() =~= ahead);
        assert(with.last() == item);
        assert(without =~= ahead);
    } else {
        irrelevant_items_do_not_matter(ahead, item, behind.drop_last());
        assert(with.drop_last() =~= ahead + seq![item] + behind.drop_last());
        assert(without.drop_last() =~= ahead + behind.drop_last());
    }
}

/// Two texts agree up to, but not including, `n`.
pub open spec fn agree(a: Seq<u8>, b: Seq<u8>, n: int) -> bool {
    &&& n <= a.len()
    &&& n <= b.len()
    &&& forall|k: int| 0 <= k < n ==> #[trigger] a[k] == b[k]
}

/// A quoted span that ends before what follows it differs ends in both texts.
proof fn lemma_quoted_end_agrees(a: Seq<u8>, b: Seq<u8>, n: int, quote: u8, i: int)
    requires
        agree(a, b, n),
        0 <= i,
        quoted_end(a, quote, i) < n,
    ensures
        quoted_end(b, quote, i) == quoted_end(a, quote, i),
    decreases a.len() + 1 - i,
{
    if i < a.len() {
        lemma_quoted_end_bounds(a, quote, i);
        assert(a[i] == b[i]);
        if a[i] == BACKSLASH && quote != BACKTICK {
            lemma_quoted_end_agrees(a, b, n, quote, i + 2);
        } else if a[i] == quote {
            if i + 1 < a.len() {
                if i + 1 < n {
                    assert(a[i + 1] == b[i + 1]);
                }
                if a[i + 1] == quote {
                    lemma_quoted_end_bounds(a, quote, i + 2);
                    lemma_quoted_end_agrees(a, b, n, quote, i + 2);
                }
            }
        } else {
            lemma_quoted_end_agrees(a, b, n, quote, i + 1);
        }
    }
}

/// A parenthesis that closes before anything differs closes in both texts.
proof fn lemma_paren_close_agrees(a: Seq<u8>, b: Seq<u8>, n: int, i: int, depth: int)
    requires
        agree(a, b, n),
        0 <= i,
        paren_close(a, i, depth) == Some(n - 1),
    ensures
        paren_close(b, i, depth) == Some(n - 1),
    decreases a.len() - i,
{
    lemma_paren_close_bounds(a, i, depth);
    assert(a[i] == b[i]);
    if is_quote(a[i]) {
        let end = quoted_end(a, a[i], i + 1);
        lemma_quoted_end_bounds(a, a[i], i + 1);
        lemma_paren_close_bounds(a, end, depth);
        lemma_quoted_end_agrees(a, b, n, a[i], i + 1);
        lemma_quoted_end_bounds(b, b[i], i + 1);
        lemma_paren_close_agrees(a, b, n, end, depth);
    } else if a[i] == OPEN_PAREN {
        lemma_paren_close_agrees(a, b, n, i + 1, depth + 1);
    } else if a[i] == CLOSE_PAREN {
        if depth != 1 {
            lemma_paren_close_agrees(a, b, n, i + 1, depth - 1);
        }
    } else {
        lemma_paren_close_agrees(a, b, n, i + 1, depth);
    }
}

/// A byte that is found before anything differs is found in both texts.
proof fn lemma_byte_index_agrees(a: Seq<u8>, b: Seq<u8>, n: int, from: int, needle: u8)
    requires
        agree(a, b, n),
        0 <= from <= a.len(),
        byte_index(a, from, needle) matches Some(k) && k < n,
    ensures
        byte_index(b, from, needle) == byte_index(a, from, needle),
{
    let p = equal_to(needle);
    lemma_index_where(a, from, p);
    let k = index_where(a, from, p);
    assert(a[k] == b[k]);
    assert forall|j: int| from <= j < k implies !p(#[trigger] b[j]) by {
        assert(a[j] == b[j]);
        assert(!p(a[j]));
    }
    lemma_index_where_is(b, from, p, k);
}

/// Where the closing parenthesis of a `CREATE TABLE` statement stands, past the keywords.
pub open spec fn body_close(stmt: Seq<u8>) -> Option<int> {
    let after = strip_comments(stmt).skip(ascii("CREATE TABLE").len() as int);
    match byte_index(after, 0, BACKTICK) {
        Some(tick) => match byte_index(after, tick, OPEN_PAREN) {
            Some(open) => matching_paren(after, open),
            None => None,
        },
        None => None,
    }
}

/// Where the name of the table ends, past the keywords.
pub open spec fn name_end(stmt: Seq<u8>) -> Option<int> {
    let after = strip_comments(stmt).skip(ascii("CREATE TABLE").len() as int);
    match byte_index(after, 0, BACKTICK) {
        Some(tick) => match byte_index(after.skip(tick), 1, BACKTICK) {
            Some(end) => Some(tick + end),
            None => None,
        },
        None => None,
    }
}

/// Where the parenthesis that opens the body stands, past the keywords.
pub open spec fn body_open(stmt: Seq<u8>) -> Option<int> {
    let after = strip_comments(stmt).skip(ascii("CREATE TABLE").len() as int);
    match byte_index(after, 0, BACKTICK) {
        Some(tick) => byte_index(after, tick, OPEN_PAREN),
        None => None,
    }
}

/// A well-formed statement has a name, and a body in parentheses.
proof fn lemma_places(stmt: Seq<u8>)
    requires
        create_table(stmt) is Some,
    ensures
        ({
            let s = strip_comments(stmt);
            let after = s.skip(12);
            let tick = byte_index(after, 0, BACKTICK)->0;
            let open = body_open(stmt)->0;
            let close = body_close(stmt)->0;
            &&& ascii("CREATE TABLE").len() == 12
            &&& starts_ci(s, ascii("CREATE TABLE"))
            &&& byte_index(after, 0, BACKTICK) == Some(tick)
            &&& byte_index(after, tick, OPEN_PAREN) == Some(open)
            &&& matching_paren(after, open) == Some(close)
            &&& body_open(stmt) is Some
            &&& body_close(stmt) is Some
            &&& name_end(stmt) is Some
            &&& 0 <= tick <= open < close < after.len()
            &&& tick < name_end(stmt)->0
            &&& after[close] == CLOSE_PAREN
        }),
{
    reveal_strlit("CREATE TABLE");
    let after = strip_comments(stmt).skip(12);
    let tick = byte_index(after, 0, BACKTICK)->0;
    lemma_index_where(after, 0, equal_to(BACKTICK));
    lemma_index_where(after, tick, equal_to(OPEN_PAREN));
    lemma_index_where(after.skip(tick), 1, equal_to(BACKTICK));
    let open = byte_index(after, tick, OPEN_PAREN)->0;
    lemma_paren_close_bounds(after, open + 1, 1);
}

/// A statement that is the same up to some place behind its name and its opening parenthesis, and has
/// a body there, is read by that body.
proof fn lemma_same_head(stmt: Seq<u8>, other: Seq<u8>, n: int, close: int)
    requires
        create_table(stmt) is Some,
        agree(strip_comments(stmt), other, 12 + n),
        name_end(stmt)->0 < n,
        body_open(stmt)->0 < n,
        12 + close < other.len(),
        matching_paren(other.skip(12), body_open(stmt)->0) == Some(close),
        definitions(split(other.skip(12).subrange(body_open(stmt)->0 + 1, close), COMMA)) is Some,
    ensures
        ({
            let defs = definitions(
                split(other.skip(12).subrange(body_open(stmt)->0 + 1, close), COMMA),
            )->0;
            create_table(other) == Some(
                SchemaModel {
                    name: create_table(stmt)->0.name,
                    columns: defs.columns,
                    primary_key: defs.primary_key,
                    unique_keys: defs.unique_keys,
                    raw_statement: other,
                },
            )
        }),
{
    reveal_strlit("CREATE TABLE");
    lemma_places(stmt);
    let word = ascii("CREATE TABLE");
    let s = strip_comments(stmt);
    let after = s.skip(12);
    let tick = byte_index(after, 0, BACKTICK)->0;
    let open = body_open(stmt)->0;
    // The keywords.
    assert forall|k: int| 0 <= k < 12 implies lowercase(#[trigger] s[k]) == lowercase(word[k]) by {
        assert(s.take(12)[k] == s[k]);
    }
    assert(other[0] == s[0]);
    assert(lowercase(s[0]) == lowercase(word[0]));
    assert(trim_start(other) == other);
    assert(strip_comments(other) == other);
    assert(other.take(12) =~= s.take(12));
    // The name and the parenthesis.
    let after_other = other.skip(12);
    assert(agree(after, after_other, n)) by {
        assert forall|k: int| 0 <= k < n implies #[trigger] after[k] == after_other[k] by {
            assert(s[12 + k] == other[12 + k]);
        }
    }
    lemma_byte_index_agrees(after, after_other, n, 0, BACKTICK);
    lemma_byte_index_agrees(after, after_other, n, tick, OPEN_PAREN);
    lemma_name_agrees(after, after_other, tick, n);
}

/// What stands behind the closing parenthesis does not matter: the engine, counters, the character
/// set and other options of a table change nothing about its name, columns and keys. A name that
/// reaches over that parenthesis would be cut with it; no other statement is left out.
pub proof fn table_options_do_not_matter(stmt: Seq<u8>, options: Seq<u8>)
    requires
        create_table(stmt) is Some,
        name_end(stmt)->0 <= body_close(stmt)->0,
    ensures
        ({
            let s = strip_comments(stmt);
            let n = ascii("CREATE TABLE").len() + body_close(stmt)->0 + 1;
            let other = s.take(n) + options;
            let schema = create_table(stmt)->0;
            create_table(other) == Some(SchemaModel { raw_statement: other, ..schema })
        }),
{
    lemma_places(stmt);
    let s = strip_comments(stmt);
    let after = s.skip(12);
    let open = body_open(stmt)->0;
    let close = body_close(stmt)->0;
    let other = s.take(12 + close + 1) + options;
    let after_other = other.skip(12);
    assert(agree(s, other, 12 + close + 1)) by {
        assert forall|k: int| 0 <= k < 12 + close + 1 implies #[trigger] s[k] == other[k] by {
        }
    }
    assert(agree(after, after_other, close + 1)) by {
        assert forall|k: int| 0 <= k < close + 1 implies #[trigger] after[k] == after_other[k] by {
            assert(s[12 + k] == other[12 + k]);
        }
    }
    lemma_paren_close_agrees(after, after_other, close + 1, open + 1, 1);
    assert(after_other.subrange(open + 1, close) =~= after.subrange(open + 1, close));
    lemma_same_head(stmt, other, close + 1, close);
}

/// The items of a statement, as they stand between its parentheses.
pub open spec fn body_items(stmt: Seq<u8>) -> Seq<Seq<u8>> {
    let after = strip_comments(stmt).skip(ascii("CREATE TABLE").len() as int);
    split(after.subrange(body_open(stmt)->0 + 1, body_close(stmt)->0), COMMA)
}

/// The statement with one more item, ahead of the `k`-th.
pub open spec fn with_item(stmt: Seq<u8>, k: int, item: Seq<u8>) -> Seq<u8> {
    let s = strip_comments(stmt);
    let n = ascii("CREATE TABLE").len() as int;
    let items = body_items(stmt);
    s.take(n + body_open(stmt)->0 + 1) + parts_text(
        items.take(k) + seq![item] + items.skip(k),
        COMMA,
    ) + s.skip(n + body_close(stmt)->0)
}

/// One more plain index, constraint or foreign key changes nothing: wherever among the items of a
/// `CREATE TABLE` statement it is put, the name, the columns and the keys stay as they are. The item
/// closes its quotes and parentheses, and holds no comma outside of them. The name of the table comes
/// in front of the parenthesis; one that holds a parenthesis would be changed with the body.
pub proof fn another_irrelevant_item_changes_nothing(stmt: Seq<u8>, k: int, item: Seq<u8>)
    requires
        create_table(stmt) is Some,
        name_end(stmt)->0 < body_open(stmt)->0,
        0 <= k <= body_items(stmt).len(),
        is_part(item),
        is_irrelevant(item),
    ensures
        create_table(with_item(stmt, k, item)) == Some(
            SchemaModel { raw_statement: with_item(stmt, k, item), ..create_table(stmt)->0 },
        ),
{
    lemma_places(stmt);
    let s = strip_comments(stmt);
    let after = s.skip(12);
    let open = body_open(stmt)->0;
    let close = body_close(stmt)->0;
    let items = body_items(stmt);
    let more = items.take(k) + seq![item] + items.skip(k);
    let body = parts_text(more, COMMA);
    let head = s.take(12 + open + 1);
    let tail = s.skip(12 + close);
    let other = with_item(stmt, k, item);
    lemma_inside_splits_into_parts(after, open, close);
    assert forall|j: int| 0 <= j < more.len() implies is_part(#[trigger] more[j]) by {
        if j < k {
            assert(more[j] == items[j]);
        } else if j > k {
            assert(more[j] == items[j - 1]);
        }
    }
    assert(agree(s, other, 12 + open + 1)) by {
        assert forall|j: int| 0 <= j < 12 + open + 1 implies #[trigger] s[j] == other[j] by {
        }
    }
    let after_other = other.skip(12);
    let end = open + 1 + body.len();
    assert(holds_at(after_other, open + 1, body)) by {
        assert forall|j: int| 0 <= j < body.len() implies after_other[open + 1 + j]
            == #[trigger] body[j] by {
            assert(after_other[open + 1 + j] == other[12 + open + 1 + j]);
        }
    }
    assert(after_other[end] == CLOSE_PAREN) by {
        assert(after_other[end] == other[12 + end]);
        assert(other[12 + end] == tail[0]);
        assert(tail[0] == s[12 + close]);
        assert(after[close] == s[12 + close]);
    }
    lemma_parts_text(after_other, open + 1, more);
    assert(matching_paren(after_other, open) == Some(end));
    assert(after_other.subrange(open + 1, end) =~= body) by {
        assert forall|j: int| 0 <= j < body.len() implies after_other.subrange(open + 1, end)[j]
            == body[j] by {
            assert(after_other[open + 1 + j] == body[j]);
        }
    }
    lemma_parts_text(body, 0, more);
    irrelevant_items_do_not_matter(items.take(k), item, items.skip(k));
    assert(items.take(k) + items.skip(k) =~= items);
    lemma_same_head(stmt, other, open + 1, end);
}

/// Plain indexes, constraints and foreign keys declare neither a column nor a primary or unique key.
pub proof fn plain_keys_are_irrelevant(item: Seq<u8>)
    requires
        ({
            let t = trim(item);
            ||| starts_ci(t, ascii("KEY"))
            ||| starts_ci(t, ascii("INDEX"))
            ||| starts_ci(t, ascii("CONSTRAINT"))
            ||| starts_ci(t, ascii("FOREIGN KEY"))
            ||| starts_ci(t, ascii("FULLTEXT KEY"))
            ||| starts_ci(t, ascii("SPATIAL KEY"))
            ||| starts_ci(t, ascii("CHECK"))
        }),
    ensures
        is_irrelevant(item),
{
    reveal_strlit("KEY");
    reveal_strlit("INDEX");
    reveal_strlit("CONSTRAINT");
    reveal_strlit("FOREIGN KEY");
    reveal_strlit("FULLTEXT KEY");
    reveal_strlit("SPATIAL KEY");
    reveal_strlit("CHECK");
    reveal_strlit("PRIMARY KEY");
    reveal_strlit("UNIQUE KEY");
    reveal_strlit("UNIQUE INDEX");
    let t = trim(item);
    lemma_first_letter(t, ascii("KEY"));
    lemma_first_letter(t, ascii("INDEX"));
    lemma_first_letter(t, ascii("CONSTRAINT"));
    lemma_first_letter(t, ascii("FOREIGN KEY"));
    lemma_first_letter(t, ascii("FULLTEXT KEY"));
    lemma_first_letter(t, ascii("SPATIAL KEY"));
    lemma_first_letter(t, ascii("CHECK"));
    lemma_first_letter(t, ascii("PRIMARY KEY"));
    lemma_first_letter(t, ascii("UNIQUE KEY"));
    lemma_first_letter(t, ascii("UNIQUE INDEX"));
}

/// A text that starts with a word has its first letter.
proof fn lemma_first_letter(t: Seq<u8>, word: Seq<u8>)
    requires
        word.len() > 0,
    ensures
        starts_ci(t, word) ==> t.len() > 0 && lowercase(t[0]) == lowercase(word[0]),
{
    if starts_ci(t, word) {
        assert(lowercase(t.take(word.len() as int)[0]) == lowercase(word[0]));
    }
}

/// The name in front of the parenthesis is the same in both texts.
proof fn lemma_name_agrees(a: Seq<u8>, b: Seq<u8>, tick: int, n: int)
    requires
        0 <= tick < n,
        agree(a, b, n),
        byte_index(a.skip(tick), 1, BACKTICK) matches Some(end) && tick + end < n,
    ensures
        backtick(a.skip(tick)) is Some <==> backtick(b.skip(tick)) is Some,
        match (backtick(a.skip(tick)), backtick(b.skip(tick))) {
            (Some((x, _)), Some((y, _))) => x == y,
            _ => true,
        },
{
    let x = a.skip(tick);
    let y = b.skip(tick);
    assert(agree(x, y, n - tick)) by {
        assert forall|k: int| 0 <= k < n - tick implies #[trigger] x[k] == y[k] by {
            assert(a[tick + k] == b[tick + k]);
        }
    }
    lemma_byte_index_agrees(x, y, n - tick, 1, BACKTICK);
    lemma_index_where(x, 1, equal_to(BACKTICK));
    let end = byte_index(x, 1, BACKTICK)->0;
    assert(x.subrange(1, end) =~= y.subrange(1, end));
}

} // verus!
