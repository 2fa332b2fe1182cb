//! The texts of SQL statements and their parts.

use vstd::prelude::*;
use vstd::string::StringExecFns;

use crate::text::{decimal, is_decimal, strs};

verus! {

/// `String::push` appends one character.
pub assume_specification[ String::push ](s: &mut String, c: char)
    ensures
        final(s)@ == old(s)@.push(c),
;

/// A name with each backtick in it doubled.
pub open spec fn doubled(name: Seq<char>) -> Seq<char>
    decreases name.len(),
{
    if name.len() == 0 {
        Seq::empty()
    } else if name.last() == '`' {
        doubled(name.drop_last()).push('`').push('`')
    } else {
        doubled(name.drop_last()).push(name.last())
    }
}

/// A name as an identifier in backticks.
pub open spec fn quoted(name: Seq<char>) -> Seq<char> {
    seq!['`'] + doubled(name) + seq!['`']
}

/// Appends a name as an identifier in backticks.
fn push_quoted(out: &mut String, name: &str)
    ensures
        final(out)@ == old(out)@ + quoted(name@),
{
    let ghost before = out@;
    out.push('`');
    let ghost head = out@;
    assert(head =~= before + seq!['`']);
    assert(head + doubled(Seq::empty()) =~= head);
    assert(name@.take(0) =~= Seq::empty());
    for c in it: name.chars()
        invariant
            it.seq() == name@,
            out@ == head + doubled(name@.take(it.index())),
    {
        proof {
            assert(name@.take(it.index() + 1).drop_last() =~= name@.take(it.index()));
            assert(name@.take(it.index() + 1).last() == c);
        }
        let ghost so_far = doubled(name@.take(it.index()));
        if c == '`' {
            out.push('`');
        }
        out.push(c);
        assert(out@ =~= head + doubled(name@.take(it.index() + 1)));
    }
    assert(name@.take(name@.len() as int) =~= name@);
    out.push('`');
    assert(out@ =~= before + quoted(name@));
}

/// A name as an identifier in backticks.
pub fn quote_ident(name: &str) -> (r: String)
    ensures
        r@ == quoted(name@),
{
    let mut out = String::new();
    push_quoted(&mut out, name);
    assert(out@ =~= quoted(name@));
    out
}

/// The parts one after the other, with a separator between them.
pub open spec fn joined(parts: Seq<Seq<char>>, sep: Seq<char>) -> Seq<char>
    decreases parts.len(),
{
    if parts.len() == 0 {
        Seq::empty()
    } else if parts.len() == 1 {
        parts[0]
    } else {
        joined(parts.drop_last(), sep) + sep + parts.last()
    }
}

/// The same part `n` times.
pub open spec fn repeated(part: Seq<char>, n: nat) -> Seq<Seq<char>> {
    Seq::new(n, |i: int| part)
}

/// The names as identifiers.
pub open spec fn all_quoted(names: Seq<Seq<char>>) -> Seq<Seq<char>> {
    names.map_values(|name: Seq<char>| quoted(name))
}

/// The names as a list of identifiers.
pub open spec fn name_list(names: Seq<Seq<char>>) -> Seq<char> {
    joined(all_quoted(names), ","@)
}

/// `n` placeholders, with commas between them.
pub open spec fn marks(n: nat) -> Seq<char> {
    joined(repeated("?"@, n), ","@)
}

/// A tuple of `n` placeholders.
pub open spec fn tuple_marks(n: nat) -> Seq<char> {
    "("@ + marks(n) + ")"@
}

/// `n` copies of a part, with commas between them.
pub fn repeat_part(part: &str, n: usize) -> (r: String)
    ensures
        r@ == joined(repeated(part@, n as nat), ","@),
{
    let mut out = String::new();
    let mut i: usize = 0;
    assert(repeated(part@, 0) =~= Seq::empty());
    while i < n
        invariant
            i <= n,
            out@ == joined(repeated(part@, i as nat), ","@),
        decreases n - i,
    {
        proof {
            let more = repeated(part@, (i + 1) as nat);
            assert(more.drop_last() =~= repeated(part@, i as nat));
            assert(more.last() == part@);
        }
        if i > 0 {
            out.append(",");
        }
        out.append(part);
        i = i + 1;
    }
    out
}

/// The names as a list of identifiers.
pub fn quote_names(names: &[&str]) -> (r: String)
    ensures
        r@ == name_list(strs(names@)),
{
    let ghost all = all_quoted(strs(names@));
    let mut out = String::new();
    let mut i: usize = 0;
    assert(all.take(0) =~= Seq::empty());
    while i < names.len()
        invariant
            i <= names@.len(),
            all == all_quoted(strs(names@)),
            out@ == joined(all.take(i as int), ","@),
        decreases names@.len() - i,
    {
        proof {
            assert(all.take(i + 1).drop_last() =~= all.take(i as int));
            assert(all.take(i + 1).last() == quoted(names@[i as int]@));
        }
        if i > 0 {
            out.append(",");
        }
        push_quoted(&mut out, names[i]);
        i = i + 1;
    }
    assert(all.take(i as int) =~= all);
    out
}

/// A tuple of `n` placeholders.
pub fn tuple_of_marks(n: usize) -> (r: String)
    ensures
        r@ == tuple_marks(n as nat),
{
    let mut out = String::new();
    out.append("(");
    out.append(repeat_part("?", n).as_str());
    out.append(")");
    assert(out@ =~= tuple_marks(n as nat));
    out
}

/// The digit for a number below ten.
pub open spec fn digit(n: nat) -> char {
    ('0' as u32 + n) as char
}

/// A number in decimal, without leading zeros.
pub open spec fn decimal_text(n: nat) -> Seq<char>
    decreases n,
{
    if n < 10 {
        seq![digit(n)]
    } else {
        decimal_text(n / 10).push(digit(n % 10))
    }
}

/// Appends a number in decimal.
pub fn push_decimal(out: &mut String, n: u64)
    ensures
        final(out)@ == old(out)@ + decimal_text(n as nat),
    decreases n,
{
    let ghost before = out@;
    if n >= 10 {
        push_decimal(out, n / 10);
    }
    let d = (n % 10) as u32;
    let c = match d {
        0 => '0',
        1 => '1',
        2 => '2',
        3 => '3',
        4 => '4',
        5 => '5',
        6 => '6',
        7 => '7',
        8 => '8',
        _ => '9',
    };
    assert(c == digit((n % 10) as nat));
    out.push(c);
    assert(out@ =~= before + decimal_text(n as nat));
}

/// The decimal text of a number reads back as the number.
pub proof fn decimal_text_reads_back(n: nat)
    ensures
        is_decimal(decimal_text(n)),
        decimal(decimal_text(n)) == n,
    decreases n,
{
    let d = n % 10;
    assert(digit(d) as nat == '0' as nat + d);
    if n >= 10 {
        decimal_text_reads_back(n / 10);
        assert(decimal_text(n).drop_last() =~= decimal_text(n / 10));
    } else {
        assert(decimal_text(n).drop_last() =~= Seq::<char>::empty());
        assert(decimal(Seq::<char>::empty()) == 0);
    }
}

/// The name that the text between the backticks of an identifier stands for: each pair of backticks
/// is one.
pub open spec fn undoubled(s: Seq<char>) -> Seq<char>
    decreases s.len(),
{
    if s.len() == 0 {
        Seq::empty()
    } else if s.last() == '`' && s.len() >= 2 {
        undoubled(s.drop_last().drop_last()).push('`')
    } else {
        undoubled(s.drop_last()).push(s.last())
    }
}

/// A quoted identifier denotes the name that it was made from, whatever characters that holds.
pub proof fn quoted_identifier_reads_back(name: Seq<char>)
    ensures
        quoted(name).len() >= 2,
        quoted(name)[0] == '`',
        quoted(name).last() == '`',
        undoubled(quoted(name).subrange(1, quoted(name).len() - 1)) == name,
    decreases name.len(),
{
    assert(quoted(name).subrange(1, quoted(name).len() - 1) =~= doubled(name));
    if name.len() > 0 {
        let rest = name.drop_last();
        quoted_identifier_reads_back(rest);
        assert(quoted(rest).subrange(1, quoted(rest).len() - 1) =~= doubled(rest));
        if name.last() == '`' {
            assert(doubled(name).drop_last().drop_last() =~= doubled(rest));
        } else {
            assert(doubled(name).drop_last() =~= doubled(rest));
        }
        assert(rest.push(name.last()) =~= name);
    }
}

/// How often a character occurs.
pub open spec fn occurrences(s: Seq<char>, c: char) -> nat
    decreases s.len(),
{
    if s.len() == 0 {
        0
    } else {
        occurrences(s.drop_last(), c) + (if s.last() == c {
            1nat
        } else {
            0nat
        })
    }
}

/// A character occurs in two texts together as often as in each.
proof fn lemma_occurrences_concat(a: Seq<char>, b: Seq<char>, c: char)
    ensures
        occurrences(a + b, c) == occurrences(a, c) + occurrences(b, c),
    decreases b.len(),
{
    if b.len() > 0 {
        assert((a + b).drop_last() =~= a + b.drop_last());
        lemma_occurrences_concat(a, b.drop_last(), c);
    } else {
        assert(a + b =~= a);
    }
}

/// How often a placeholder occurs in copies of a part with commas between them.
proof fn lemma_repeated_marks(part: Seq<char>, n: nat)
    ensures
        occurrences(joined(repeated(part, n), ","@), '?') == n * occurrences(part, '?'),
    decreases n,
{
    let k = occurrences(part, '?') as int;
    let all = repeated(part, n);
    if n == 0 {
        assert(n * k == 0) by (nonlinear_arith)
            requires
                n == 0,
        ;
    } else if n == 1 {
        assert(n * k == k) by (nonlinear_arith)
            requires
                n == 1,
        ;
    } else {
        let less = (n - 1) as nat;
        lemma_repeated_marks(part, less);
        assert(all.drop_last() =~= repeated(part, less));
        reveal_strlit(",");
        let head = joined(repeated(part, less), ","@);
        lemma_occurrences_concat(head, ","@, '?');
        lemma_occurrences_concat(head + ","@, part, '?');
        assert(","@.drop_last() =~= Seq::empty());
        assert(occurrences(","@, '?') == 0) by {
            assert(","@.last() == ',');
            assert(occurrences(","@.drop_last(), '?') == 0);
        }
        assert(n * k == less * k + k) by (nonlinear_arith)
            requires
                n == less + 1,
        ;
    }
}

/// A list of `n` tuples of placeholders for rows of `width` cells holds one placeholder per cell.
pub proof fn value_list_has_one_placeholder_per_cell(width: nat, n: nat)
    ensures
        occurrences(joined(repeated(tuple_marks(width), n), ","@), '?') == n * width,
{
    reveal_strlit("?");
    reveal_strlit("(");
    reveal_strlit(")");
    assert(occurrences("?"@, '?') == 1) by {
        assert("?"@.drop_last() =~= Seq::empty());
        assert(occurrences("?"@.drop_last(), '?') == 0);
    }
    assert(occurrences("("@, '?') == 0) by {
        assert("("@.drop_last() =~= Seq::empty());
        assert(occurrences("("@.drop_last(), '?') == 0);
    }
    assert(occurrences(")"@, '?') == 0) by {
        assert(")"@.drop_last() =~= Seq::empty());
        assert(occurrences(")"@.drop_last(), '?') == 0);
    }
    lemma_repeated_marks("?"@, width);
    lemma_occurrences_concat("("@, marks(width), '?');
    lemma_occurrences_concat("("@ + marks(width), ")"@, '?');
    lemma_repeated_marks(tuple_marks(width), n);
}

} // verus!
