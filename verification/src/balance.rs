//! Balanced text: all quotes are closed, and parentheses outside quotes come in pairs. Groups of such
//! text are taken apart whole.

use vstd::prelude::*;

use crate::bytes::{is_quote, BACKSLASH, BACKTICK, CLOSE_PAREN, COMMA, OPEN_PAREN};
use crate::lexical::{holds_at, lemma_holds_parts, parts_text};
use crate::sqlstream::{
    lemma_next_open_skip, lemma_paren_close_bounds, lemma_quoted_end_bounds, matching_paren,
    next_group, next_open, paren_close, paren_groups, quoted_end, split, split_from,
};

verus! {

/// How many parentheses are open at `j` when `depth` are at `i`, reading on from `i`. There is no
/// answer where a quoted span reaches over `j`, where a parenthesis closes that is not open, or, for a
/// text that is to stay whole, where a comma stands outside all parentheses.
pub open spec fn depth_at(data: Seq<u8>, i: int, j: int, depth: int, whole: bool) -> Option<int>
    decreases data.len() - i,
{
    if i == j {
        Some(depth)
    } else if i < 0 || i > j || i >= data.len() {
        None
    } else if is_quote(data[i]) {
        proof {
            lemma_quoted_end_bounds(data, data[i], i + 1);
        }
        depth_at(data, quoted_end(data, data[i], i + 1), j, depth, whole)
    } else if data[i] == OPEN_PAREN {
        depth_at(data, i + 1, j, depth + 1, whole)
    } else if data[i] == CLOSE_PAREN {
        if depth <= 0 {
            None
        } else {
            depth_at(data, i + 1, j, depth - 1, whole)
        }
    } else if whole && depth == 0 && data[i] == COMMA {
        None
    } else {
        depth_at(data, i + 1, j, depth, whole)
    }
}

/// All quotes are closed, and parentheses outside quotes come in pairs.
pub open spec fn is_balanced(s: Seq<u8>) -> bool {
    depth_at(s.push(COMMA), 0, s.len() as int, 0, false) == Some(0int)
}

/// Balanced text without a comma outside quotes and parentheses.
pub open spec fn is_part(s: Seq<u8>) -> bool {
    depth_at(s.push(COMMA), 0, s.len() as int, 0, true) == Some(0int)
}

/// An answer is only given behind the start.
proof fn lemma_depth_order(data: Seq<u8>, i: int, j: int, depth: int, whole: bool)
    requires
        depth_at(data, i, j, depth, whole) is Some,
    ensures
        i <= j,
{
}

/// What two texts have in common: `n` bytes, from `p` on in the one and from `q` on in the other. In
/// both no quote follows, and in the first something does.
spec fn shared(x: Seq<u8>, p: int, y: Seq<u8>, q: int, n: int) -> bool {
    &&& 0 <= p
    &&& 0 <= q
    &&& 0 <= n
    &&& p + n < x.len()
    &&& q + n <= y.len()
    &&& forall|k: int| 0 <= k < n ==> #[trigger] x[p + k] == y[q + k]
    &&& !is_quote(x[p + n])
    &&& q + n < y.len() ==> !is_quote(y[q + n])
}

/// A quoted span that ends in what two texts share ends in both.
proof fn lemma_shared_quote(x: Seq<u8>, p: int, y: Seq<u8>, q: int, n: int, quote: u8, k: int)
    requires
        shared(x, p, y, q, n),
        is_quote(quote),
        0 <= k,
        quoted_end(x, quote, p + k) <= p + n,
    ensures
        quoted_end(y, quote, q + k) - q == quoted_end(x, quote, p + k) - p,
    decreases x.len() + 1 - p - k,
{
    if k < n {
        assert(x[p + k] == y[q + k]);
        if x[p + k] == BACKSLASH && quote != BACKTICK {
            lemma_shared_quote(x, p, y, q, n, quote, k + 2);
        } else if x[p + k] == quote {
            if k + 1 < n {
                assert(x[p + (k + 1)] == y[q + (k + 1)]);
                if x[p + k + 1] == quote {
                    lemma_shared_quote(x, p, y, q, n, quote, k + 2);
                }
            }
        } else {
            lemma_shared_quote(x, p, y, q, n, quote, k + 1);
        }
    } else {
        lemma_quoted_end_bounds(x, quote, p + k);
        if p + k < x.len() {
            lemma_quoted_end_bounds(x, quote, p + k + 1);
            lemma_quoted_end_bounds(x, quote, p + k + 2);
        }
    }
}

/// What two texts share is read alike in both.
proof fn lemma_shared(
    x: Seq<u8>,
    p: int,
    y: Seq<u8>,
    q: int,
    n: int,
    i: int,
    depth: int,
    whole: bool,
)
    requires
        shared(x, p, y, q, n),
        0 <= i,
        0 <= depth,
        depth_at(x, p + i, p + n, depth, whole) is Some,
    ensures
        ({
            let r = depth_at(x, p + i, p + n, depth, whole)->0;
            &&& 0 <= r
            &&& depth_at(y, q + i, q + n, depth, whole) == Some(r)
            &&& paren_close(y, q + i, depth + 1) == paren_close(y, q + n, r + 1)
            &&& whole ==> forall|last: int| #[trigger]
                split_from(y, COMMA, q + i, last, depth) == split_from(y, COMMA, q + n, last, r)
        }),
    decreases n - i,
{
    lemma_depth_order(x, p + i, p + n, depth, whole);
    if i < n {
        assert(x[p + i] == y[q + i]);
        let b = x[p + i];
        let next = if is_quote(b) {
            quoted_end(x, b, p + i + 1) - p
        } else {
            i + 1
        };
        let then = if b == OPEN_PAREN {
            depth + 1
        } else if b == CLOSE_PAREN {
            depth - 1
        } else {
            depth
        };
        if is_quote(b) {
            lemma_quoted_end_bounds(x, b, p + i + 1);
            lemma_depth_order(x, p + next, p + n, depth, whole);
            lemma_shared_quote(x, p, y, q, n, b, i + 1);
            lemma_quoted_end_bounds(y, b, q + i + 1);
        }
        let r = depth_at(x, p + i, p + n, depth, whole)->0;
        assert(depth_at(x, p + next, p + n, then, whole) == Some(r));
        lemma_shared(x, p, y, q, n, next, then, whole);
        assert(depth_at(y, q + i, q + n, depth, whole) == depth_at(y, q + next, q + n, then, whole));
        assert(paren_close(y, q + i, depth + 1) == paren_close(y, q + next, then + 1));
        if whole {
            assert forall|last: int| #[trigger] split_from(y, COMMA, q + i, last, depth)
                == split_from(y, COMMA, q + n, last, r) by {
                assert(split_from(y, COMMA, q + i, last, depth) == split_from(
                    y,
                    COMMA,
                    q + next,
                    last,
                    then,
                ));
            }
        }
    }
}

/// A balanced text, wherever it stands, is passed over.
pub proof fn lemma_balanced_passes(data: Seq<u8>, i: int, s: Seq<u8>)
    requires
        is_balanced(s),
        holds_at(data, i, s),
        i + s.len() < data.len() ==> !is_quote(data[i + s.len()]),
    ensures
        paren_close(data, i, 1) == paren_close(data, i + s.len(), 1),
{
    let x = s.push(COMMA);
    assert(shared(x, 0, data, i, s.len() as int)) by {
        assert forall|k: int| 0 <= k < s.len() implies #[trigger] x[0 + k] == data[i + k] by {
            assert(data[i + k] == s[k]);
        }
    }
    lemma_shared(x, 0, data, i, s.len() as int, 0, 0, false);
}

/// A part, wherever it stands, is passed over and not cut.
pub proof fn lemma_part_passes(data: Seq<u8>, i: int, s: Seq<u8>)
    requires
        is_part(s),
        holds_at(data, i, s),
        i + s.len() < data.len() ==> !is_quote(data[i + s.len()]),
    ensures
        paren_close(data, i, 1) == paren_close(data, i + s.len(), 1),
        forall|last: int| #[trigger]
            split_from(data, COMMA, i, last, 0) == split_from(data, COMMA, i + s.len(), last, 0),
{
    let x = s.push(COMMA);
    assert(shared(x, 0, data, i, s.len() as int)) by {
        assert forall|k: int| 0 <= k < s.len() implies #[trigger] x[0 + k] == data[i + k] by {
            assert(data[i + k] == s[k]);
        }
    }
    lemma_shared(x, 0, data, i, s.len() as int, 0, 0, true);
}

/// Text between groups: no quotes and no parentheses.
pub open spec fn is_filler(s: Seq<u8>) -> bool {
    forall|k: int|
        0 <= k < s.len() ==> !is_quote(#[trigger] s[k]) && s[k] != OPEN_PAREN && s[k] != CLOSE_PAREN
}

/// Groups in parentheses, each with text behind it.
pub open spec fn groups_text(groups: Seq<Seq<u8>>, fillers: Seq<Seq<u8>>) -> Seq<u8>
    decreases groups.len(),
{
    if groups.len() == 0 {
        Seq::empty()
    } else {
        seq![OPEN_PAREN] + groups[0] + seq![CLOSE_PAREN] + (fillers[0] + groups_text(
            groups.skip(1),
            fillers.skip(1),
        ))
    }
}

/// Every group is balanced, and there is text without quotes and parentheses behind each.
pub open spec fn are_groups(groups: Seq<Seq<u8>>, fillers: Seq<Seq<u8>>) -> bool {
    &&& groups.len() == fillers.len()
    &&& forall|k: int| 0 <= k < groups.len() ==> is_balanced(#[trigger] groups[k])
    &&& forall|k: int| 0 <= k < fillers.len() ==> is_filler(#[trigger] fillers[k])
}

/// The next group is the first one that stands there, whole and without its parentheses, however many
/// groups are nested in it; the search goes on with what stands behind it. What stands before the
/// start of the search does not matter.
pub proof fn next_group_is_the_first(
    data: Seq<u8>,
    start: int,
    lead: Seq<u8>,
    groups: Seq<Seq<u8>>,
    fillers: Seq<Seq<u8>>,
)
    requires
        0 <= start <= data.len(),
        is_filler(lead),
        are_groups(groups, fillers),
        data.skip(start) == lead + groups_text(groups, fillers),
    ensures
        groups.len() == 0 ==> next_group(data, start) == Some(None::<(int, int)>),
        groups.len() > 0 ==> {
            let open = start + lead.len();
            let close = open + 1 + groups[0].len();
            &&& next_group(data, start) == Some(Some((open, close)))
            &&& close < data.len()
            &&& data.subrange(open + 1, close) == groups[0]
            &&& data.skip(close + 1) == fillers[0] + groups_text(groups.skip(1), fillers.skip(1))
        },
{
    let t = groups_text(groups, fillers);
    assert(data.skip(start).len() == data.len() - start);
    assert(holds_at(data, start, lead + t)) by {
        assert forall|k: int| 0 <= k < (lead + t).len() implies data[start + k] == #[trigger] (lead
            + t)[k] by {
            assert(data.skip(start)[k] == data[start + k]);
        }
    }
    lemma_holds_parts(data, start, lead, t);
    let open = start + lead.len();
    assert forall|k: int| start <= k < open implies !is_quote(#[trigger] data[k]) && data[k]
        != OPEN_PAREN by {
        assert(data[start + (k - start)] == lead[k - start]);
    }
    lemma_next_open_skip(data, start, open);
    if groups.len() > 0 {
        let g = groups[0];
        let rest = fillers[0] + groups_text(groups.skip(1), fillers.skip(1));
        let close = open + 1 + g.len();
        assert(is_balanced(g));
        lemma_holds_parts(data, open, seq![OPEN_PAREN] + g + seq![CLOSE_PAREN], rest);
        lemma_holds_parts(data, open, seq![OPEN_PAREN] + g, seq![CLOSE_PAREN]);
        lemma_holds_parts(data, open, seq![OPEN_PAREN], g);
        assert(data[open + 0] == seq![OPEN_PAREN][0]);
        assert(data[close + 0] == seq![CLOSE_PAREN][0]);
        lemma_balanced_passes(data, open + 1, g);
        assert(matching_paren(data, open) == Some(close));
        assert(next_open(data, start) == Some(open));
        assert(data.subrange(open + 1, close) =~= g) by {
            assert forall|k: int| 0 <= k < g.len() implies data.subrange(open + 1, close)[k]
                == g[k] by {
                assert(data[open + 1 + k] == g[k]);
            }
        }
        assert(data.skip(close + 1) =~= rest) by {
            assert forall|k: int| 0 <= k < rest.len() implies data.skip(close + 1)[k] == rest[k] by {
                assert(data[close + 1 + k] == rest[k]);
            }
        }
    } else {
        assert(open == data.len());
    }
}

/// All groups are taken out, whole and in order, and nothing else is.
pub proof fn groups_are_taken_out(
    data: Seq<u8>,
    start: int,
    lead: Seq<u8>,
    groups: Seq<Seq<u8>>,
    fillers: Seq<Seq<u8>>,
)
    requires
        0 <= start <= data.len(),
        is_filler(lead),
        are_groups(groups, fillers),
        data.skip(start) == lead + groups_text(groups, fillers),
    ensures
        paren_groups(data, start) == Some(groups),
    decreases groups.len(),
{
    next_group_is_the_first(data, start, lead, groups, fillers);
    if groups.len() > 0 {
        let close = start + lead.len() + 1 + groups[0].len();
        let more = groups.skip(1);
        let behind = fillers.skip(1);
        assert(is_filler(fillers[0]));
        assert forall|k: int| 0 <= k < more.len() implies is_balanced(#[trigger] more[k]) by {
            assert(more[k] == groups[k + 1]);
        }
        assert forall|k: int| 0 <= k < behind.len() implies is_filler(#[trigger] behind[k]) by {
            assert(behind[k] == fillers[k + 1]);
        }
        groups_are_taken_out(data, close + 1, fillers[0], more, behind);
        assert(groups =~= seq![groups[0]] + more);
    } else {
        assert(groups =~= Seq::empty());
    }
}

/// All of them are parts.
pub open spec fn are_parts(parts: Seq<Seq<u8>>) -> bool {
    forall|k: int| 0 <= k < parts.len() ==> is_part(#[trigger] parts[k])
}

/// Parts with commas between them are split into these parts, and close no parenthesis.
pub proof fn lemma_parts_text(data: Seq<u8>, i: int, parts: Seq<Seq<u8>>)
    requires
        parts.len() > 0,
        are_parts(parts),
        holds_at(data, i, parts_text(parts, COMMA)),
        ({
            let n = i + parts_text(parts, COMMA).len();
            n < data.len() ==> data[n] == CLOSE_PAREN
        }),
    ensures
        i + parts_text(parts, COMMA).len() == data.len() ==> split_from(data, COMMA, i, i, 0)
            == parts,
        paren_close(data, i, 1) == paren_close(data, i + parts_text(parts, COMMA).len(), 1),
    decreases parts.len(),
{
    let p = parts[0];
    let comma = i + p.len();
    assert(is_part(p));
    if parts.len() == 1 {
        lemma_part_passes(data, i, p);
        if comma == data.len() {
            assert(data.skip(i) =~= p) by {
                assert forall|k: int| 0 <= k < p.len() implies data.skip(i)[k] == p[k] by {
                    assert(data[i + k] == p[k]);
                }
            }
            assert(parts =~= seq![p]);
            assert(split_from(data, COMMA, i, i, 0) == split_from(data, COMMA, comma, i, 0));
        }
    } else {
        let rest = parts.skip(1);
        lemma_holds_parts(data, i, p + seq![COMMA], parts_text(rest, COMMA));
        lemma_holds_parts(data, i, p, seq![COMMA]);
        assert(data[comma + 0] == seq![COMMA][0]);
        lemma_part_passes(data, i, p);
        assert forall|k: int| 0 <= k < rest.len() implies is_part(#[trigger] rest[k]) by {
            assert(rest[k] == parts[k + 1]);
        }
        lemma_parts_text(data, comma + 1, rest);
        assert(data.subrange(i, comma) =~= p) by {
            assert forall|k: int| 0 <= k < p.len() implies data.subrange(i, comma)[k] == p[k] by {
                assert(data[i + k] == p[k]);
            }
        }
        assert(parts =~= seq![p] + rest);
        assert(split_from(data, COMMA, i, i, 0) == split_from(data, COMMA, comma, i, 0));
        assert(paren_close(data, comma, 1) == paren_close(data, comma + 1, 1));
    }
}

/// Reading on from where reading has come to.
proof fn lemma_depth_concat(
    data: Seq<u8>,
    i: int,
    j: int,
    k: int,
    depth: int,
    middle: int,
    whole: bool,
)
    requires
        j <= k,
        depth_at(data, i, j, depth, whole) == Some(middle),
    ensures
        depth_at(data, i, k, depth, whole) == depth_at(data, j, k, middle, whole),
    decreases data.len() - i,
{
    lemma_depth_order(data, i, j, depth, whole);
    if i < j {
        if is_quote(data[i]) {
            let e = quoted_end(data, data[i], i + 1);
            lemma_quoted_end_bounds(data, data[i], i + 1);
            lemma_depth_concat(data, e, j, k, depth, middle, whole);
        } else if data[i] == OPEN_PAREN {
            lemma_depth_concat(data, i + 1, j, k, depth + 1, middle, whole);
        } else if data[i] == CLOSE_PAREN {
            lemma_depth_concat(data, i + 1, j, k, depth - 1, middle, whole);
        } else {
            lemma_depth_concat(data, i + 1, j, k, depth, middle, whole);
        }
    }
}

/// What stands between a parenthesis and the one that closes it is balanced.
proof fn lemma_inside_is_balanced(data: Seq<u8>, i: int, close: int, depth: int)
    requires
        0 <= i,
        0 <= depth,
        paren_close(data, i, depth + 1) == Some(close),
    ensures
        i <= close < data.len(),
        data[close] == CLOSE_PAREN,
        depth_at(data, i, close, depth, false) == Some(0int),
    decreases data.len() - i,
{
    lemma_paren_close_bounds(data, i, depth + 1);
    if i == close {
        if depth > 0 {
            lemma_paren_close_bounds(data, i + 1, depth);
        }
    } else if is_quote(data[i]) {
        let e = quoted_end(data, data[i], i + 1);
        lemma_quoted_end_bounds(data, data[i], i + 1);
        lemma_inside_is_balanced(data, e, close, depth);
    } else if data[i] == OPEN_PAREN {
        lemma_inside_is_balanced(data, i + 1, close, depth + 1);
    } else if data[i] == CLOSE_PAREN {
        lemma_inside_is_balanced(data, i + 1, close, depth - 1);
    } else {
        lemma_inside_is_balanced(data, i + 1, close, depth);
    }
}

/// A stretch that is read whole is a part.
proof fn lemma_stretch_is_part(a: Seq<u8>, last: int, i: int)
    requires
        0 <= last <= i < a.len(),
        !is_quote(a[i]),
        depth_at(a, last, i, 0, true) == Some(0int),
    ensures
        is_part(a.subrange(last, i)),
{
    let p = a.subrange(last, i);
    let y = p.push(COMMA);
    let n = i - last;
    assert(shared(a, last, y, 0, n)) by {
        assert forall|k: int| 0 <= k < n implies #[trigger] a[last + k] == y[0 + k] by {
            assert(y[k] == p[k]);
        }
    }
    lemma_shared(a, last, y, 0, n, 0, 0, true);
}

/// Splitting a balanced text gives parts.
proof fn lemma_split_gives_parts(inner: Seq<u8>, i: int, last: int, depth: int)
    requires
        0 <= last <= i <= inner.len(),
        0 <= depth,
        depth_at(inner.push(COMMA), last, i, 0, true) == Some(depth),
        depth_at(inner.push(COMMA), i, inner.len() as int, depth, false) == Some(0int),
    ensures
        are_parts(split_from(inner, COMMA, i, last, depth)),
    decreases inner.len() - i,
{
    let a = inner.push(COMMA);
    let n = inner.len() as int;
    if i == n {
        lemma_stretch_is_part(a, last, n);
        assert(inner.skip(last) =~= a.subrange(last, n));
    } else {
        assert(a[i] == inner[i]);
        if is_quote(inner[i]) {
            let e = quoted_end(a, a[i], i + 1);
            lemma_quoted_end_bounds(a, a[i], i + 1);
            lemma_depth_order(a, e, n, depth, false);
            assert(shared(a, 0, inner, 0, n)) by {
                assert forall|k: int| 0 <= k < n implies #[trigger] a[0 + k] == inner[0 + k] by {
                }
            }
            lemma_shared_quote(a, 0, inner, 0, n, a[i], i + 1);
            assert(depth_at(a, e, e, depth, true) == Some(depth));
            assert(depth_at(a, i, e, depth, true) == Some(depth));
            lemma_depth_concat(a, last, i, e, 0, depth, true);
            lemma_split_gives_parts(inner, e, last, depth);
        } else if inner[i] == OPEN_PAREN {
            assert(depth_at(a, i + 1, i + 1, depth + 1, true) == Some(depth + 1));
            assert(depth_at(a, i, i + 1, depth, true) == Some(depth + 1));
            lemma_depth_concat(a, last, i, i + 1, 0, depth, true);
            lemma_split_gives_parts(inner, i + 1, last, depth + 1);
        } else if inner[i] == CLOSE_PAREN {
            assert(depth_at(a, i + 1, i + 1, depth - 1, true) == Some(depth - 1));
            assert(depth_at(a, i, i + 1, depth, true) == Some(depth - 1));
            lemma_depth_concat(a, last, i, i + 1, 0, depth, true);
            lemma_split_gives_parts(inner, i + 1, last, depth - 1);
        } else if inner[i] == COMMA && depth == 0 {
            lemma_stretch_is_part(a, last, i);
            let p = inner.subrange(last, i);
            assert(p =~= a.subrange(last, i));
            lemma_split_gives_parts(inner, i + 1, i + 1, 0);
            let more = split_from(inner, COMMA, i + 1, i + 1, 0);
            let parts = seq![p] + more;
            assert forall|k: int| 0 <= k < parts.len() implies is_part(#[trigger] parts[k]) by {
                if k > 0 {
                    assert(parts[k] == more[k - 1]);
                }
            }
        } else {
            assert(depth_at(a, i + 1, i + 1, depth, true) == Some(depth));
            assert(depth_at(a, i, i + 1, depth, true) == Some(depth));
            lemma_depth_concat(a, last, i, i + 1, 0, depth, true);
            lemma_split_gives_parts(inner, i + 1, last, depth);
        }
    }
}

/// What stands between a parenthesis and the one that closes it is split into parts.
pub proof fn lemma_inside_splits_into_parts(data: Seq<u8>, open: int, close: int)
    requires
        0 <= open,
        matching_paren(data, open) == Some(close),
    ensures
        open < close < data.len(),
        are_parts(split(data.subrange(open + 1, close), COMMA)),
{
    lemma_inside_is_balanced(data, open + 1, close, 0);
    let inner = data.subrange(open + 1, close);
    let a = inner.push(COMMA);
    let n = inner.len() as int;
    assert(shared(data, open + 1, a, 0, n)) by {
        assert forall|k: int| 0 <= k < n implies #[trigger] data[open + 1 + k] == a[0 + k] by {
            assert(a[k] == inner[k]);
        }
    }
    lemma_shared(data, open + 1, a, 0, n, 0, 0, false);
    assert(depth_at(a, 0, 0, 0, true) == Some(0int));
    lemma_split_gives_parts(inner, 0, 0, 0);
}

} // verus!
