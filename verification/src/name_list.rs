//! Lists of names between backticks: key columns and column lists.

use vstd::prelude::*;
use vstd::utf8::{decode_utf8, valid_utf8};

use crate::bytes::{
    equal_to, is_quote, is_space, lemma_index_where_is, trim, trim_end, trim_start, BACKTICK,
    CLOSE_PAREN, COMMA, OPEN_PAREN,
};
use crate::ddl::backtick;
use crate::lexical::{holds_at, is_blank, lemma_holds_parts, lemma_trim_front};
use crate::sqlstream::{
    lemma_paren_close_skip, lemma_split_skip, matching_paren, paren_close, quoted_end, split,
    split_from,
};

verus! {

/// Reading on from `i` is reading on from `j`, at any depth of parentheses.
pub open spec fn passes(data: Seq<u8>, i: int, j: int) -> bool {
    &&& forall|last: int, d: int|
        d >= 0 ==> #[trigger] split_from(data, COMMA, i, last, d) == split_from(
            data,
            COMMA,
            j,
            last,
            d,
        )
    &&& forall|d: int| d >= 1 ==> #[trigger] paren_close(data, i, d) == paren_close(data, j, d)
}

/// Reading on from `i` is reading on from `j`, inside parentheses.
pub open spec fn passes_inside(data: Seq<u8>, i: int, j: int) -> bool {
    &&& forall|last: int, d: int|
        d >= 1 ==> #[trigger] split_from(data, COMMA, i, last, d) == split_from(
            data,
            COMMA,
            j,
            last,
            d,
        )
    &&& forall|d: int| d >= 2 ==> #[trigger] paren_close(data, i, d) == paren_close(data, j, d)
}

/// Bytes that are no quotes, parentheses or commas are passed over.
pub proof fn lemma_plain_passes(data: Seq<u8>, i: int, j: int)
    requires
        0 <= i <= j <= data.len(),
        forall|k: int|
            i <= k < j ==> !is_quote(#[trigger] data[k]) && data[k] != OPEN_PAREN && data[k]
                != CLOSE_PAREN && data[k] != COMMA,
    ensures
        passes(data, i, j),
{
    assert forall|last: int, d: int| d >= 0 implies #[trigger] split_from(data, COMMA, i, last, d)
        == split_from(data, COMMA, j, last, d) by {
        lemma_split_skip(data, COMMA, i, j, last, d);
    }
    assert forall|d: int| d >= 1 implies #[trigger] paren_close(data, i, d) == paren_close(
        data,
        j,
        d,
    ) by {
        lemma_paren_close_skip(data, i, j, d);
    }
}

/// Inside parentheses commas are passed over too.
pub proof fn lemma_plain_passes_inside(data: Seq<u8>, i: int, j: int)
    requires
        0 <= i <= j <= data.len(),
        forall|k: int|
            i <= k < j ==> !is_quote(#[trigger] data[k]) && data[k] != OPEN_PAREN && data[k]
                != CLOSE_PAREN,
    ensures
        passes_inside(data, i, j),
    decreases j - i,
{
    if i < j {
        assert(!is_quote(data[i]));
        lemma_plain_passes_inside(data, i + 1, j);
        assert forall|last: int, d: int| d >= 1 implies #[trigger] split_from(
            data,
            COMMA,
            i,
            last,
            d,
        ) == split_from(data, COMMA, j, last, d) by {
            assert(split_from(data, COMMA, i, last, d) == split_from(data, COMMA, i + 1, last, d));
        }
        assert forall|d: int| d >= 2 implies #[trigger] paren_close(data, i, d) == paren_close(
            data,
            j,
            d,
        ) by {
            assert(paren_close(data, i, d) == paren_close(data, i + 1, d));
        }
    }
}

/// Parentheses whose inside is passed over are passed over.
pub proof fn lemma_parens_pass(data: Seq<u8>, open: int, close: int)
    requires
        0 <= open < close < data.len(),
        data[open] == OPEN_PAREN,
        data[close] == CLOSE_PAREN,
        passes_inside(data, open + 1, close),
    ensures
        passes(data, open, close + 1),
{
    assert forall|last: int, d: int| d >= 0 implies #[trigger] split_from(
        data,
        COMMA,
        open,
        last,
        d,
    ) == split_from(data, COMMA, close + 1, last, d) by {
        assert(split_from(data, COMMA, open, last, d) == split_from(
            data,
            COMMA,
            open + 1,
            last,
            d + 1,
        ));
        assert(split_from(data, COMMA, close, last, d + 1) == split_from(
            data,
            COMMA,
            close + 1,
            last,
            d,
        ));
    }
    assert forall|d: int| d >= 1 implies #[trigger] paren_close(data, open, d) == paren_close(
        data,
        close + 1,
        d,
    ) by {
        assert(paren_close(data, open, d) == paren_close(data, open + 1, d + 1));
        assert(paren_close(data, close, d + 1) == paren_close(data, close + 1, d));
    }
}

/// A name that can stand between backticks as it is.
pub open spec fn is_plain_name(name: Seq<u8>) -> bool {
    &&& valid_utf8(name)
    &&& forall|k: int| 0 <= k < name.len() ==> #[trigger] name[k] != BACKTICK
}

/// Between backticks, bytes that are no backtick do not end the span.
pub proof fn lemma_name_passes(data: Seq<u8>, i: int, j: int)
    requires
        0 <= i <= j <= data.len(),
        forall|k: int| i <= k < j ==> #[trigger] data[k] != BACKTICK,
    ensures
        quoted_end(data, BACKTICK, i) == quoted_end(data, BACKTICK, j),
    decreases j - i,
{
    if i < j {
        lemma_name_passes(data, i + 1, j);
    }
}

/// A name between backticks.
pub open spec fn quoted_name(name: Seq<u8>) -> Seq<u8> {
    seq![BACKTICK] + name + seq![BACKTICK]
}

/// A name between backticks is passed over.
pub proof fn lemma_name_is_passed(data: Seq<u8>, i: int, name: Seq<u8>)
    requires
        is_plain_name(name),
        holds_at(data, i, quoted_name(name)),
        i + name.len() + 2 < data.len() ==> data[i + name.len() + 2] != BACKTICK,
    ensures
        passes(data, i, i + name.len() + 2),
        passes_inside(data, i, i + name.len() + 2),
{
    let close = i + 1 + name.len();
    lemma_holds_parts(data, i, seq![BACKTICK] + name, seq![BACKTICK]);
    lemma_holds_parts(data, i, seq![BACKTICK], name);
    assert(data[i + 0] == seq![BACKTICK][0]);
    assert(data[close + 0] == seq![BACKTICK][0]);
    assert forall|k: int| i + 1 <= k < close implies #[trigger] data[k] != BACKTICK by {
        assert(data[i + 1 + (k - i - 1)] == name[k - i - 1]);
    }
    lemma_name_passes(data, i + 1, close);
    assert(quoted_end(data, BACKTICK, i + 1) == close + 1);
    assert forall|last: int, d: int| #[trigger] split_from(data, COMMA, i, last, d) == split_from(
        data,
        COMMA,
        close + 1,
        last,
        d,
    ) by {
    }
    assert forall|d: int| #[trigger] paren_close(data, i, d) == paren_close(data, close + 1, d) by {
    }
}

/// A name between backticks is read up to its end.
pub proof fn lemma_backtick(name: Seq<u8>, rest: Seq<u8>)
    requires
        is_plain_name(name),
    ensures
        backtick(quoted_name(name) + rest) == Some((decode_utf8(name), rest)),
{
    let t = quoted_name(name) + rest;
    let end = 1 + name.len() as int;
    assert forall|j: int| 1 <= j < end implies !equal_to(BACKTICK)(#[trigger] t[j]) by {
        assert(t[j] == name[j - 1]);
    }
    assert(t[end] == BACKTICK);
    lemma_index_where_is(t, 1, equal_to(BACKTICK), end);
    assert(t.subrange(1, end) =~= name);
    assert(t.skip(end + 1) =~= rest);
}

/// Names between backticks, with commas between them. Whitespace may stand in front of the first and
/// of each other one.
pub open spec fn names_text(lead: Seq<u8>, sep: Seq<u8>, names: Seq<Seq<u8>>) -> Seq<u8>
    decreases names.len(),
{
    if names.len() == 0 {
        Seq::empty()
    } else if names.len() == 1 {
        lead + quoted_name(names[0])
    } else {
        lead + quoted_name(names[0]) + seq![COMMA] + names_text(sep, sep, names.skip(1))
    }
}

/// All names can stand between backticks as they are.
pub open spec fn are_plain_names(names: Seq<Seq<u8>>) -> bool {
    forall|i: int| 0 <= i < names.len() ==> is_plain_name(#[trigger] names[i])
}

/// The parts that a list of names is split into.
pub open spec fn name_parts(lead: Seq<u8>, sep: Seq<u8>, names: Seq<Seq<u8>>) -> Seq<Seq<u8>> {
    Seq::new(
        names.len(),
        |k: int|
            (if k == 0 {
                lead
            } else {
                sep
            }) + quoted_name(names[k]),
    )
}

/// Whitespace is passed over.
pub proof fn lemma_blank_passes(data: Seq<u8>, i: int, s: Seq<u8>)
    requires
        is_blank(s),
        holds_at(data, i, s),
    ensures
        passes(data, i, i + s.len()),
        passes_inside(data, i, i + s.len()),
{
    assert forall|k: int| i <= k < i + s.len() implies !is_quote(#[trigger] data[k]) && data[k]
        != OPEN_PAREN && data[k] != CLOSE_PAREN && data[k] != COMMA by {
        assert(data[i + (k - i)] == s[k - i]);
        assert(is_space(s[k - i]));
    }
    lemma_plain_passes(data, i, i + s.len());
    lemma_plain_passes_inside(data, i, i + s.len());
}

/// One name with whitespace in front is passed over.
proof fn lemma_part_passes(data: Seq<u8>, i: int, lead: Seq<u8>, name: Seq<u8>)
    requires
        is_blank(lead),
        is_plain_name(name),
        holds_at(data, i, lead + quoted_name(name)),
        ({
            let n = i + lead.len() + name.len() + 2;
            n < data.len() ==> data[n] != BACKTICK
        }),
    ensures
        passes(data, i, i + lead.len() + name.len() + 2),
        passes_inside(data, i, i + lead.len() + name.len() + 2),
{
    lemma_holds_parts(data, i, lead, quoted_name(name));
    lemma_blank_passes(data, i, lead);
    lemma_name_is_passed(data, i + lead.len(), name);
}

/// A list of names is split into its names, and closes no parenthesis.
pub proof fn lemma_names_text(
    data: Seq<u8>,
    i: int,
    lead: Seq<u8>,
    sep: Seq<u8>,
    names: Seq<Seq<u8>>,
)
    requires
        is_blank(lead),
        is_blank(sep),
        names.len() > 0,
        are_plain_names(names),
        holds_at(data, i, names_text(lead, sep, names)),
        ({
            let n = i + names_text(lead, sep, names).len();
            n < data.len() ==> data[n] == CLOSE_PAREN
        }),
    ensures
        i + names_text(lead, sep, names).len() == data.len() ==> split_from(data, COMMA, i, i, 0)
            == name_parts(lead, sep, names),
        passes_inside(data, i, i + names_text(lead, sep, names).len()),
        paren_close(data, i, 1) == paren_close(data, i + names_text(lead, sep, names).len(), 1),
    decreases names.len(),
{
    let q = lead + quoted_name(names[0]);
    let comma = i + q.len();
    let parts = name_parts(lead, sep, names);
    assert(is_plain_name(names[0]));
    assert(q.len() == lead.len() + names[0].len() + 2);
    if names.len() == 1 {
        lemma_part_passes(data, i, lead, names[0]);
        if comma == data.len() {
            assert(data.skip(i) =~= q) by {
                assert forall|k: int| 0 <= k < q.len() implies data.skip(i)[k] == q[k] by {
                    assert(data[i + k] == q[k]);
                }
            }
            assert(parts =~= seq![q]);
            assert(split_from(data, COMMA, i, i, 0) == split_from(data, COMMA, comma, i, 0));
        }
        assert(paren_close(data, i, 1) == paren_close(data, comma, 1));
    } else {
        let rest = names.skip(1);
        lemma_holds_parts(data, i, q + seq![COMMA], names_text(sep, sep, rest));
        lemma_holds_parts(data, i, q, seq![COMMA]);
        assert(data[comma + 0] == seq![COMMA][0]);
        lemma_part_passes(data, i, lead, names[0]);
        lemma_plain_passes_inside(data, comma, comma + 1);
        assert forall|k: int| 0 <= k < rest.len() implies is_plain_name(#[trigger] rest[k]) by {
            assert(rest[k] == names[k + 1]);
        }
        lemma_names_text(data, comma + 1, sep, sep, rest);
        assert(data.subrange(i, comma) =~= q) by {
            assert forall|k: int| 0 <= k < q.len() implies data.subrange(i, comma)[k] == q[k] by {
                assert(data[i + k] == q[k]);
            }
        }
        let more = name_parts(sep, sep, rest);
        assert(parts =~= seq![q] + more) by {
            assert forall|k: int| 0 <= k < parts.len() implies parts[k] == (seq![q] + more)[k] by {
                if k > 0 {
                    assert(rest[k - 1] == names[k]);
                }
            }
        }
        assert(split_from(data, COMMA, i, i, 0) == split_from(data, COMMA, comma, i, 0));
        assert(paren_close(data, i, 1) == paren_close(data, comma, 1));
        assert(paren_close(data, comma, 1) == paren_close(data, comma + 1, 1));
    }
}

/// A list of names in parentheses.
pub open spec fn key_list(sep: Seq<u8>, names: Seq<Seq<u8>>) -> Seq<u8> {
    seq![OPEN_PAREN] + names_text(Seq::empty(), sep, names) + seq![CLOSE_PAREN]
}

/// A list of names in parentheses is passed over, its closing parenthesis is found, and what stands
/// between is split into the names.
pub proof fn lemma_key_list(data: Seq<u8>, i: int, sep: Seq<u8>, names: Seq<Seq<u8>>)
    requires
        is_blank(sep),
        names.len() > 0,
        are_plain_names(names),
        holds_at(data, i, key_list(sep, names)),
    ensures
        passes(data, i, i + key_list(sep, names).len()),
        matching_paren(data, i) == Some(i + key_list(sep, names).len() - 1),
        split(data.subrange(i + 1, i + key_list(sep, names).len() - 1), COMMA) == name_parts(
            Seq::empty(),
            sep,
            names,
        ),
{
    let t = names_text(Seq::empty(), sep, names);
    let close = i + 1 + t.len();
    lemma_holds_parts(data, i, seq![OPEN_PAREN] + t, seq![CLOSE_PAREN]);
    lemma_holds_parts(data, i, seq![OPEN_PAREN], t);
    assert(data[i + 0] == seq![OPEN_PAREN][0]);
    assert(data[close + 0] == seq![CLOSE_PAREN][0]);
    assert(is_blank(Seq::empty()));
    lemma_names_text(data, i + 1, Seq::empty(), sep, names);
    lemma_parens_pass(data, i, close);
    let inner = data.subrange(i + 1, close);
    assert(inner =~= t) by {
        assert forall|k: int| 0 <= k < t.len() implies inner[k] == t[k] by {
            assert(data[i + 1 + k] == t[k]);
        }
    }
    lemma_names_text(t, 0, Seq::empty(), sep, names);
}

/// The names that bytes spell.
pub open spec fn decoded(names: Seq<Seq<u8>>) -> Seq<Seq<char>> {
    names.map_values(|name: Seq<u8>| decode_utf8(name))
}

/// A part of a list of names is its name, past whitespace.
pub proof fn lemma_part_is_name(lead: Seq<u8>, name: Seq<u8>)
    requires
        is_blank(lead),
    ensures
        trim(lead + quoted_name(name)) == quoted_name(name),
{
    let q = quoted_name(name);
    lemma_trim_front(lead, q);
    assert(q[0] == BACKTICK && q.last() == BACKTICK);
    assert(trim_start(q) == q);
    assert(trim_end(q) == q);
}

} // verus!
