//! The order of strings, and sorting by it.

use vstd::prelude::*;
use vstd::seq_lib::group_to_multiset_ensures;
use vstd::utf8::{encode_utf8, encode_utf8_decode_utf8};

use crate::text::texts;

verus! {

/// `a` comes before `b` in the lexicographic order of bytes.
pub open spec fn bytes_before(a: Seq<u8>, b: Seq<u8>) -> bool
    decreases a.len(),
{
    if b.len() == 0 {
        false
    } else if a.len() == 0 {
        true
    } else if a[0] != b[0] {
        a[0] < b[0]
    } else {
        bytes_before(a.skip(1), b.skip(1))
    }
}

/// `a` comes before `b` in the order of strings, which is that of their UTF-8 bytes.
pub open spec fn before(a: Seq<char>, b: Seq<char>) -> bool {
    bytes_before(encode_utf8(a), encode_utf8(b))
}

/// Nothing comes before itself, and of two things that differ exactly one comes before the other.
proof fn lemma_bytes_trichotomy(a: Seq<u8>, b: Seq<u8>)
    ensures
        a == b ==> !bytes_before(a, b),
        a != b ==> bytes_before(a, b) != bytes_before(b, a),
    decreases a.len(),
{
    if a.len() > 0 && b.len() > 0 && a[0] == b[0] {
        lemma_bytes_trichotomy(a.skip(1), b.skip(1));
        if a.skip(1) == b.skip(1) {
            assert(a =~= seq![a[0]] + a.skip(1));
            assert(b =~= seq![b[0]] + b.skip(1));
        }
    } else if a.len() == 0 && b.len() == 0 {
        assert(a =~= b);
    }
}

/// What comes before something that comes before a third comes before the third.
proof fn lemma_bytes_transitive(a: Seq<u8>, b: Seq<u8>, c: Seq<u8>)
    requires
        bytes_before(a, b),
        bytes_before(b, c),
    ensures
        bytes_before(a, c),
    decreases a.len(),
{
    if a.len() > 0 && b.len() > 0 && c.len() > 0 && a[0] == b[0] && b[0] == c[0] {
        lemma_bytes_transitive(a.skip(1), b.skip(1), c.skip(1));
    }
}

/// The order of strings is total: of two that differ exactly one comes before the other.
pub proof fn before_is_total(a: Seq<char>, b: Seq<char>)
    ensures
        a == b ==> !before(a, b),
        a != b ==> before(a, b) != before(b, a),
{
    encode_utf8_decode_utf8(a);
    encode_utf8_decode_utf8(b);
    lemma_bytes_trichotomy(encode_utf8(a), encode_utf8(b));
}

/// The order of strings is transitive.
pub proof fn before_is_transitive(a: Seq<char>, b: Seq<char>, c: Seq<char>)
    requires
        before(a, b),
        before(b, c),
    ensures
        before(a, c),
{
    lemma_bytes_transitive(encode_utf8(a), encode_utf8(b), encode_utf8(c));
}

/// The first byte in which two texts differ decides which comes first, and a text comes before one that
/// goes on from it.
pub proof fn the_first_difference_decides(head: Seq<u8>, a: Seq<u8>, b: Seq<u8>)
    requires
        b.len() > 0,
    ensures
        a.len() > 0 && a[0] < b[0] ==> bytes_before(head + a, head + b) && !bytes_before(
            head + b,
            head + a,
        ),
        a.len() == 0 ==> bytes_before(head + a, head + b) && !bytes_before(head + b, head + a),
    decreases head.len(),
{
    if head.len() > 0 {
        the_first_difference_decides(head.skip(1), a, b);
        assert((head + a).skip(1) =~= head.skip(1) + a);
        assert((head + b).skip(1) =~= head.skip(1) + b);
        assert((head + a)[0] == head[0]);
        assert((head + b)[0] == head[0]);
    } else {
        assert(head + a =~= a);
        assert(head + b =~= b);
    }
}

/// The order of strings is that of their UTF-8 bytes.
pub proof fn strings_are_ordered_by_their_bytes(a: Seq<char>, b: Seq<char>)
    ensures
        before(a, b) <==> bytes_before(encode_utf8(a), encode_utf8(b)),
{
}

/// No string in the list comes before one that stands ahead of it.
pub open spec fn sorted(list: Seq<Seq<char>>) -> bool {
    forall|i: int, j: int| 0 <= i < j < list.len() ==> !before(#[trigger] list[j], #[trigger] list[i])
}

/// Whether `a` comes before `b`.
pub fn comes_before(a: &str, b: &str) -> (r: bool)
    ensures
        r == before(a@, b@),
{
    let x = a.as_bytes();
    let y = b.as_bytes();
    let mut i: usize = 0;
    assert(x@.skip(0) =~= x@);
    assert(y@.skip(0) =~= y@);
    while i < x.len() && i < y.len()
        invariant
            i <= x@.len(),
            i <= y@.len(),
            bytes_before(x@.skip(i as int), y@.skip(i as int)) == before(a@, b@),
        decreases x@.len() - i,
    {
        if x[i] != y[i] {
            return x[i] < y[i];
        }
        assert(x@.skip(i as int).skip(1) =~= x@.skip(i + 1));
        assert(y@.skip(i as int).skip(1) =~= y@.skip(i + 1));
        i = i + 1;
    }
    i < y.len()
}

/// Puts `s` into a sorted list, ahead of the first string that does not come before it.
fn insert_sorted(list: &mut Vec<String>, s: String)
    requires
        sorted(texts(old(list)@)),
    ensures
        sorted(texts(final(list)@)),
        texts(final(list)@).to_multiset() == texts(old(list)@).to_multiset().insert(s@),
{
    let ghost all = texts(list@);
    let len = list.len();
    let mut i: usize = 0;
    while i < len && comes_before(list[i].as_str(), s.as_str())
        invariant
            i <= len,
            len == list@.len(),
            all == texts(list@),
            forall|j: int| 0 <= j < i ==> before(#[trigger] all[j], s@),
        decreases len - i,
    {
        assert(all[i as int] == list@[i as int]@);
        i = i + 1;
    }
    let ghost name = s@;
    list.insert(i, s);
    proof {
        let out = texts(list@);
        assert(out =~= all.insert(i as int, name));
        broadcast use group_to_multiset_ensures;

        assert(out.to_multiset() =~= all.to_multiset().insert(name));
        assert forall|a: int, b: int| 0 <= a < b < out.len() implies !before(
            #[trigger] out[b],
            #[trigger] out[a],
        ) by {
            let at = |k: int| if k < i { k } else { k - 1 };
            if b == i {
                assert(out[a] == all[a]);
                before_is_total(all[a], name);
            } else if a == i {
                // The first string that does not come before `name` bounds all behind it.
                if before(out[b], name) {
                    assert(out[b] == all[b - 1]);
                    assert(!before(all[i as int], name));
                    before_is_total(all[i as int], name);
                    if all[i as int] != name {
                        before_is_transitive(all[b - 1], name, all[i as int]);
                    }
                }
            } else {
                assert(out[a] == all[at(a)]);
                assert(out[b] == all[at(b)]);
            }
        }
    }
}

/// Sorts strings.
pub fn sort_strings(list: Vec<String>) -> (r: Vec<String>)
    ensures
        sorted(texts(r@)),
        texts(r@).to_multiset() == texts(list@).to_multiset(),
{
    let ghost all = texts(list@);
    let mut out: Vec<String> = Vec::new();
    let mut rest = list;
    proof {
        assert(texts(out@) =~= Seq::empty());
        broadcast use group_to_multiset_ensures;

        assert(texts(out@).to_multiset().add(texts(rest@).to_multiset()) =~= all.to_multiset());
    }
    while rest.len() > 0
        invariant
            sorted(texts(out@)),
            texts(out@).to_multiset().add(texts(rest@).to_multiset()) == all.to_multiset(),
        decreases rest@.len(),
    {
        let ghost before_out = texts(out@).to_multiset();
        let ghost before_rest = texts(rest@);
        let s = rest.pop().unwrap();
        proof {
            broadcast use group_to_multiset_ensures;

            assert(before_rest =~= texts(rest@).push(s@));
        }
        insert_sorted(&mut out, s);
        assert(texts(out@).to_multiset().add(texts(rest@).to_multiset()) =~= before_out.add(
            before_rest.to_multiset(),
        ));
    }
    proof {
        broadcast use group_to_multiset_ensures;

        assert(texts(rest@) =~= Seq::empty());
        assert(texts(out@).to_multiset() =~= all.to_multiset());
    }
    out
}

} // verus!
