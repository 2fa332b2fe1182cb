//! A map from table names to values.

use vstd::pervasive::cloned;
use vstd::prelude::*;

use crate::text::str_eq;

verus! {

/// The map that a list of entries stands for.
pub closed spec fn map_of<V>(entries: Seq<(String, V)>) -> Map<Seq<char>, V>
    decreases entries.len(),
{
    if entries.len() == 0 {
        Map::empty()
    } else {
        map_of(entries.drop_last()).insert(entries.last().0@, entries.last().1)
    }
}

/// No name occurs twice.
pub closed spec fn distinct_names<V>(entries: Seq<(String, V)>) -> bool {
    forall|i: int, j: int| 0 <= i < j < entries.len() ==> #[trigger] entries[i].0@ != #[trigger] entries[j].0@
}

/// A map from names to values. The names keep the order in which they first came in.
#[derive(Debug)]
pub struct TableMap<V> {
    entries: Vec<(String, V)>,
}

impl<V> View for TableMap<V> {
    type V = Map<Seq<char>, V>;

    closed spec fn view(&self) -> Map<Seq<char>, V> {
        map_of(self.entries@)
    }
}

/// What the map holds under the names of its entries.
proof fn lemma_map_of<V>(entries: Seq<(String, V)>)
    requires
        distinct_names(entries),
    ensures
        forall|i: int|
            0 <= i < entries.len() ==> map_of(entries).contains_key(#[trigger] entries[i].0@)
                && map_of(entries)[entries[i].0@] == entries[i].1,
        forall|name: Seq<char>| #[trigger]
            map_of(entries).contains_key(name) ==> exists|i: int|
                0 <= i < entries.len() && #[trigger] entries[i].0@ == name,
        map_of(entries).dom().finite(),
        map_of(entries).dom().len() == entries.len(),
    decreases entries.len(),
{
    if entries.len() > 0 {
        let rest = entries.drop_last();
        lemma_map_of(rest);
        assert forall|i: int| 0 <= i < entries.len() implies map_of(entries).contains_key(
            #[trigger] entries[i].0@,
        ) && map_of(entries)[entries[i].0@] == entries[i].1 by {
            if i < rest.len() {
                assert(rest[i] == entries[i]);
            }
        }
        assert forall|name: Seq<char>| #[trigger] map_of(entries).contains_key(name) implies exists|
            i: int,
        | 0 <= i < entries.len() && #[trigger] entries[i].0@ == name by {
            if name != entries.last().0@ {
                let i = choose|i: int| 0 <= i < rest.len() && #[trigger] rest[i].0@ == name;
                assert(entries[i].0@ == name);
            } else {
                assert(entries[entries.len() - 1].0@ == name);
            }
        }
        assert(!map_of(rest).contains_key(entries.last().0@)) by {
            if map_of(rest).contains_key(entries.last().0@) {
                let i = choose|i: int|
                    0 <= i < rest.len() && #[trigger] rest[i].0@ == entries.last().0@;
                assert(entries[i].0@ == entries[entries.len() - 1].0@);
            }
        }
    }
}

/// Entries with the same names and the same values stand for the same map.
proof fn lemma_map_is<V>(entries: Seq<(String, V)>, m: Map<Seq<char>, V>)
    requires
        distinct_names(entries),
        forall|i: int|
            0 <= i < entries.len() ==> m.contains_key(#[trigger] entries[i].0@)
                && m[entries[i].0@] == entries[i].1,
        forall|name: Seq<char>| #[trigger]
            m.contains_key(name) ==> exists|i: int|
                0 <= i < entries.len() && #[trigger] entries[i].0@ == name,
    ensures
        map_of(entries) == m,
{
    lemma_map_of(entries);
    assert forall|name: Seq<char>| #[trigger] m.contains_key(name) == map_of(
        entries,
    ).contains_key(name) by {
        if m.contains_key(name) {
            let i = choose|i: int| 0 <= i < entries.len() && #[trigger] entries[i].0@ == name;
        }
        if map_of(entries).contains_key(name) {
            let i = choose|i: int| 0 <= i < entries.len() && #[trigger] entries[i].0@ == name;
        }
    }
    assert forall|name: Seq<char>| #[trigger] m.contains_key(name) implies m[name] == map_of(
        entries,
    )[name] by {
        let i = choose|i: int| 0 <= i < entries.len() && #[trigger] entries[i].0@ == name;
    }
    assert(map_of(entries) =~= m);
}

impl<V> TableMap<V> {
    #[verifier::type_invariant]
    spec fn distinct(self) -> bool {
        distinct_names(self.entries@)
    }

    /// The names, in the order in which they first came in.
    pub closed spec fn names(self) -> Seq<Seq<char>> {
        self.entries@.map_values(|e: (String, V)| e.0@)
    }

    /// A map without entries.
    pub fn new() -> (r: Self)
        ensures
            r@ == Map::<Seq<char>, V>::empty(),
            r.names() == Seq::<Seq<char>>::empty(),
    {
        let r = TableMap { entries: Vec::new() };
        assert(r.names() =~= Seq::<Seq<char>>::empty());
        r
    }

    /// The place of the entry with the given name.
    fn index_of(&self, name: &str) -> (r: Option<usize>)
        ensures
            match r {
                Some(i) => i < self.entries@.len() && self.entries@[i as int].0@ == name@,
                None => forall|i: int|
                    0 <= i < self.entries@.len() ==> #[trigger] self.entries@[i].0@ != name@,
            },
    {
        let mut i: usize = 0;
        while i < self.entries.len()
            invariant
                i <= self.entries@.len(),
                forall|j: int| 0 <= j < i ==> #[trigger] self.entries@[j].0@ != name@,
            decreases self.entries@.len() - i,
        {
            if str_eq(self.entries[i].0.as_str(), name) {
                return Some(i);
            }
            i = i + 1;
        }
        None
    }

    /// The value under a name.
    pub fn get(&self, name: &str) -> (r: Option<&V>)
        ensures
            match r {
                Some(v) => self@.contains_key(name@) && self@[name@] == *v,
                None => !self@.contains_key(name@),
            },
    {
        proof {
            use_type_invariant(self);
            lemma_map_of(self.entries@);
        }
        match self.index_of(name) {
            Some(i) => Some(&self.entries[i].1),
            None => None,
        }
    }

    /// Whether there is a value under a name.
    pub fn contains(&self, name: &str) -> (r: bool)
        ensures
            r == self@.contains_key(name@),
    {
        self.get(name).is_some()
    }

    /// The number of names. Each name of the map occurs once in `names`, and no other name does.
    pub fn len(&self) -> (r: usize)
        ensures
            r == self.names().len(),
            r == self@.dom().len(),
            self@.dom().finite(),
            self.names().no_duplicates(),
            forall|name: Seq<char>| #[trigger]
                self@.contains_key(name) <==> self.names().contains(name),
    {
        proof {
            use_type_invariant(self);
            lemma_map_of(self.entries@);
            assert forall|name: Seq<char>| #[trigger]
                self@.contains_key(name) <==> self.names().contains(name) by {
                if self@.contains_key(name) {
                    let i = choose|i: int|
                        0 <= i < self.entries@.len() && #[trigger] self.entries@[i].0@ == name;
                    assert(self.names()[i] == name);
                }
                if self.names().contains(name) {
                    let i = choose|i: int| 0 <= i < self.names().len() && self.names()[i] == name;
                    assert(self.entries@[i].0@ == name);
                }
            }
            assert forall|i: int, j: int| 0 <= i < j < self.names().len() implies self.names()[i]
                != self.names()[j] by {
                assert(self.entries@[i].0@ != self.entries@[j].0@);
            }
        }
        self.entries.len()
    }

    /// The `i`-th name and its value.
    pub fn entry(&self, i: usize) -> (r: (&str, &V))
        requires
            i < self.names().len(),
        ensures
            r.0@ == self.names()[i as int],
            self@.contains_key(r.0@),
            self@[r.0@] == *r.1,
    {
        proof {
            use_type_invariant(self);
            lemma_map_of(self.entries@);
        }
        let e = &self.entries[i];
        (e.0.as_str(), &e.1)
    }

    /// Puts a value under a name, in place of the one that was there.
    pub fn insert(&mut self, name: String, value: V)
        ensures
            final(self)@ == old(self)@.insert(name@, value),
            final(self).names() == (if old(self)@.contains_key(name@) {
                old(self).names()
            } else {
                old(self).names().push(name@)
            }),
    {
        proof {
            use_type_invariant(&*self);
            lemma_map_of(self.entries@);
        }
        let found = self.index_of(name.as_str());
        let ghost before = self.entries@;
        let mut entries: Vec<(String, V)> = Vec::new();
        std::mem::swap(&mut self.entries, &mut entries);
        match found {
            Some(i) => {
                proof {
                    lemma_entries_update(before, i as int, name, value);
                }
                entries.set(i, (name, value));
            },
            None => {
                assert(before.push((name, value)).drop_last() =~= before);
                entries.push((name, value));
            },
        }
        self.entries = entries;
        assert(self.names() =~= (if old(self)@.contains_key(name@) {
            old(self).names()
        } else {
            old(self).names().push(name@)
        }));
    }

    /// Takes the value under a name out of the map.
    pub fn remove(&mut self, name: &str) -> (r: Option<V>)
        ensures
            match r {
                Some(v) => old(self)@.contains_key(name@) && v == old(self)@[name@],
                None => !old(self)@.contains_key(name@),
            },
            final(self)@ == old(self)@.remove(name@),
            match r {
                Some(_) => exists|i: int|
                    0 <= i < old(self).names().len() && #[trigger] old(self).names()[i] == name@
                        && final(self).names() == old(self).names().remove(i),
                None => final(self).names() == old(self).names(),
            },
    {
        proof {
            use_type_invariant(&*self);
            lemma_map_of(self.entries@);
        }
        match self.index_of(name) {
            Some(i) => {
                proof {
                    lemma_entries_remove(self.entries@, i as int);
                }
                let mut entries: Vec<(String, V)> = Vec::new();
                std::mem::swap(&mut self.entries, &mut entries);
                let e = entries.remove(i);
                self.entries = entries;
                proof {
                    assert(old(self).names()[i as int] == name@);
                    assert(self.names() =~= old(self).names().remove(i as int));
                }
                Some(e.1)
            },
            None => {
                assert(self@.remove(name@) =~= self@);
                None
            },
        }
    }
}

impl<V: Clone> Clone for TableMap<V> {
    /// A map with the same names, each with a clone of its value.
    fn clone(&self) -> (r: Self)
        ensures
            r.names() == self.names(),
            r@.dom() == self@.dom(),
            forall|name: Seq<char>| #[trigger]
                r@.contains_key(name) ==> cloned::<V>(self@[name], r@[name]),
    {
        proof {
            use_type_invariant(self);
            lemma_map_of(self.entries@);
        }
        let mut entries: Vec<(String, V)> = Vec::new();
        let mut i: usize = 0;
        while i < self.entries.len()
            invariant
                i <= self.entries@.len(),
                entries@.len() == i,
                forall|j: int|
                    0 <= j < i ==> (#[trigger] entries@[j]).0@ == self.entries@[j].0@ && cloned::<V>(
                        self.entries@[j].1,
                        entries@[j].1,
                    ),
            decreases self.entries@.len() - i,
        {
            let e = &self.entries[i];
            entries.push((e.0.clone(), e.1.clone()));
            i = i + 1;
        }
        let ghost copy = entries@;
        proof {
            assert forall|a: int, b: int| 0 <= a < b < copy.len() implies #[trigger] copy[a].0@
                != #[trigger] copy[b].0@ by {
                assert(self.entries@[a].0@ != self.entries@[b].0@);
            }
            lemma_map_of(copy);
            assert forall|name: Seq<char>| #[trigger] map_of(copy).contains_key(name) <==> map_of(
                self.entries@,
            ).contains_key(name) by {
                if map_of(copy).contains_key(name) {
                    let j = choose|j: int| 0 <= j < copy.len() && #[trigger] copy[j].0@ == name;
                    assert(self.entries@[j].0@ == name);
                }
                if map_of(self.entries@).contains_key(name) {
                    let j = choose|j: int|
                        0 <= j < self.entries@.len() && #[trigger] self.entries@[j].0@ == name;
                    assert(copy[j].0@ == name);
                }
            }
            assert(map_of(copy).dom() =~= map_of(self.entries@).dom());
            assert forall|name: Seq<char>| #[trigger] map_of(copy).contains_key(name) implies cloned::<
                V,
            >(map_of(self.entries@)[name], map_of(copy)[name]) by {
                let j = choose|j: int| 0 <= j < copy.len() && #[trigger] copy[j].0@ == name;
                assert(self.entries@[j].0@ == name);
            }
        }
        let r = TableMap { entries };
        assert(r.names() =~= self.names());
        r
    }
}

/// An entry replaced by one of the same name.
proof fn lemma_entries_update<V>(before: Seq<(String, V)>, i: int, name: String, value: V)
    requires
        distinct_names(before),
        0 <= i < before.len(),
        before[i].0@ == name@,
    ensures
        distinct_names(before.update(i, (name, value))),
        map_of(before.update(i, (name, value))) == map_of(before).insert(name@, value),
{
    let after = before.update(i, (name, value));
    let m = map_of(before).insert(name@, value);
    lemma_map_of(before);
    assert forall|a: int, b: int| 0 <= a < b < after.len() implies #[trigger] after[a].0@
        != #[trigger] after[b].0@ by {
        assert(before[a].0@ != before[b].0@);
    }
    assert forall|j: int| 0 <= j < after.len() implies m.contains_key(#[trigger] after[j].0@)
        && m[after[j].0@] == after[j].1 by {
        if j != i {
            assert(before[j].0@ != before[i].0@);
        }
    }
    assert forall|n: Seq<char>| #[trigger] m.contains_key(n) implies exists|j: int|
        0 <= j < after.len() && #[trigger] after[j].0@ == n by {
        if n != name@ {
            let j = choose|j: int| 0 <= j < before.len() && #[trigger] before[j].0@ == n;
            assert(after[j].0@ == n);
        } else {
            assert(after[i].0@ == n);
        }
    }
    lemma_map_is(after, m);
}

/// An entry taken out.
proof fn lemma_entries_remove<V>(before: Seq<(String, V)>, i: int)
    requires
        distinct_names(before),
        0 <= i < before.len(),
    ensures
        distinct_names(before.remove(i)),
        map_of(before.remove(i)) == map_of(before).remove(before[i].0@),
{
    let after = before.remove(i);
    let m = map_of(before).remove(before[i].0@);
    lemma_map_of(before);
    let from = |j: int| if j < i { j } else { j + 1 };
    assert forall|a: int, b: int| 0 <= a < b < after.len() implies #[trigger] after[a].0@
        != #[trigger] after[b].0@ by {
        assert(before[from(a)].0@ != before[from(b)].0@);
    }
    assert forall|j: int| 0 <= j < after.len() implies m.contains_key(#[trigger] after[j].0@)
        && m[after[j].0@] == after[j].1 by {
        assert(after[j] == before[from(j)]);
        if from(j) < i {
            assert(before[from(j)].0@ != before[i].0@);
        } else {
            assert(before[i].0@ != before[from(j)].0@);
        }
    }
    assert forall|n: Seq<char>| #[trigger] m.contains_key(n) implies exists|j: int|
        0 <= j < after.len() && #[trigger] after[j].0@ == n by {
        let j = choose|j: int| 0 <= j < before.len() && #[trigger] before[j].0@ == n;
        let k = if j < i { j } else { j - 1 };
        assert(after[k].0@ == n);
    }
    lemma_map_is(after, m);
}

} // verus!
