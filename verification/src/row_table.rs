//! A hash table of rows: gives each distinct row a number.

use vstd::prelude::*;

use crate::rows::{row_eq, rows, RowModel};
use crate::values::{cell, cells, Cell};

verus! {

/// The prime modulus of row hashes.
const MODULUS: u64 = 4294967291;

/// The multiplier of row hashes.
const MULTIPLIER: u64 = 1000003;

/// What stands for a NULL in a row hash.
const NULL_MARK: u64 = 256;

/// What ends the bytes of a cell in a row hash.
const END_MARK: u64 = 257;

/// One step of a row hash.
spec fn mixed(h: u64, x: u64) -> u64 {
    ((h * MULTIPLIER + x) % MODULUS as int) as u64
}

/// The hash of bytes that follow what hashed to `h`.
spec fn bytes_hash(h: u64, b: Seq<u8>) -> u64
    decreases b.len(),
{
    if b.len() == 0 {
        h
    } else {
        mixed(bytes_hash(h, b.drop_last()), b.last() as u64)
    }
}

/// The hash of a row.
spec fn hash_of(row: RowModel) -> u64
    decreases row.len(),
{
    if row.len() == 0 {
        0
    } else {
        let h = hash_of(row.drop_last());
        match row.last() {
            None => mixed(h, NULL_MARK),
            Some(b) => mixed(bytes_hash(h, b), END_MARK),
        }
    }
}

/// One step of a row hash.
fn mix(h: u64, x: u64) -> (r: u64)
    requires
        h < MODULUS,
        x <= END_MARK,
    ensures
        r == mixed(h, x),
        r < MODULUS,
{
    assert(h * MULTIPLIER < 0x1_0000_0000_0000_0000 - END_MARK) by (nonlinear_arith)
        requires
            h < MODULUS,
            MODULUS == 4294967291,
            MULTIPLIER == 1000003,
            END_MARK == 257,
    ;
    (h * MULTIPLIER + x) % MODULUS
}

/// The hash of bytes that follow what hashed to `h`.
fn hash_bytes(h: u64, b: &[u8]) -> (r: u64)
    requires
        h < MODULUS,
    ensures
        r == bytes_hash(h, b@),
        r < MODULUS,
{
    let mut r = h;
    let mut i: usize = 0;
    assert(b@.take(0) =~= Seq::<u8>::empty());
    while i < b.len()
        invariant
            i <= b@.len(),
            r == bytes_hash(h, b@.take(i as int)),
            r < MODULUS,
        decreases b@.len() - i,
    {
        assert(b@.take(i + 1).drop_last() =~= b@.take(i as int));
        r = mix(r, b[i] as u64);
        i = i + 1;
    }
    assert(b@.take(i as int) =~= b@);
    r
}

/// The hash of a row.
fn hash_row(row: &[Cell]) -> (r: u64)
    ensures
        r == hash_of(cells(row@)),
{
    let ghost all = cells(row@);
    let mut r: u64 = 0;
    let mut i: usize = 0;
    assert(all.take(0) =~= Seq::empty());
    while i < row.len()
        invariant
            i <= row@.len(),
            all == cells(row@),
            r == hash_of(all.take(i as int)),
            r < MODULUS,
        decreases row@.len() - i,
    {
        assert(all.take(i + 1).drop_last() =~= all.take(i as int));
        assert(all.take(i + 1).last() == cell(row@[i as int]));
        r = match &row[i] {
            None => mix(r, NULL_MARK),
            Some(b) => {
                let h = hash_bytes(r, b.as_slice());
                mix(h, END_MARK)
            },
        };
        i = i + 1;
    }
    assert(all.take(i as int) =~= all);
    r
}

/// The number of the bucket, out of `n`, that a row belongs to.
#[verifier::opaque]
spec fn slot(row: RowModel, n: int) -> int {
    hash_of(row) as int % n
}

/// A row belongs to one of the buckets.
proof fn lemma_slot(row: RowModel, n: int)
    requires
        0 < n,
    ensures
        0 <= slot(row, n) < n,
{
    reveal(slot);
    assert(0 <= hash_of(row) as int % n < n) by (nonlinear_arith)
        requires
            0 < n,
    ;
}

/// The number of the bucket, out of `n`, that a row belongs to.
fn find_slot(row: &[Cell], n: usize) -> (r: usize)
    requires
        0 < n,
    ensures
        r == slot(cells(row@), n as int),
        r < n,
{
    reveal(slot);
    (hash_row(row) % (n as u64)) as usize
}

/// Distinct rows, each found by its content. Their numbers count up from zero in the order in
/// which they were added.
pub struct RowTable {
    entries: Vec<Vec<Cell>>,
    buckets: Vec<Vec<usize>>,
}

impl View for RowTable {
    type V = Seq<RowModel>;

    closed spec fn view(&self) -> Seq<RowModel> {
        rows(self.entries@)
    }
}

impl RowTable {
    /// The bucket of a row.
    spec fn bucket(self, row: RowModel) -> int {
        slot(row, self.buckets@.len() as int)
    }

    /// No row occurs twice, and each is in the bucket of its hash.
    pub closed spec fn wf(self) -> bool {
        &&& 0 < self.buckets@.len()
        &&& self@.no_duplicates()
        &&& forall|b: int, j: int|
            0 <= b < self.buckets@.len() && 0 <= j < self.buckets@[b]@.len()
                ==> #[trigger] self.buckets@[b]@[j] < self.entries@.len()
        &&& forall|i: int|
            0 <= i < self.entries@.len() ==> self.buckets@[self.bucket(
                #[trigger] self@[i],
            )]@.contains(i as usize)
    }

    /// No row occurs twice.
    pub proof fn lemma_distinct(self)
        requires
            self.wf(),
        ensures
            self@.no_duplicates(),
    {
    }

    /// A table without rows, with room for `n` of them.
    pub fn new(n: usize) -> (r: Self)
        ensures
            r.wf(),
            r@ == Seq::<RowModel>::empty(),
    {
        let mut buckets: Vec<Vec<usize>> = Vec::new();
        buckets.push(Vec::new());
        let mut i: usize = 0;
        while i < n
            invariant
                i <= n,
                0 < buckets@.len(),
                forall|b: int| 0 <= b < buckets@.len() ==> (#[trigger] buckets@[b])@.len() == 0,
            decreases n - i,
        {
            buckets.push(Vec::new());
            i = i + 1;
        }
        let r = RowTable { entries: Vec::new(), buckets };
        assert(r@ =~= Seq::<RowModel>::empty());
        r
    }

    /// The number of rows.
    pub fn len(&self) -> (r: usize)
        ensures
            r == self@.len(),
    {
        self.entries.len()
    }

    /// The `i`-th row.
    pub fn row(&self, i: usize) -> (r: &Vec<Cell>)
        requires
            i < self@.len(),
        ensures
            cells(r@) == self@[i as int],
    {
        &self.entries[i]
    }

    /// The number of a row.
    pub fn find(&self, row: &[Cell]) -> (r: Option<usize>)
        requires
            self.wf(),
        ensures
            match r {
                Some(i) => i < self@.len() && self@[i as int] == cells(row@),
                None => !self@.contains(cells(row@)),
            },
    {
        let n = self.entries.len();
        let b = find_slot(row, self.buckets.len());
        let bucket = &self.buckets[b];
        let mut j: usize = 0;
        while j < bucket.len()
            invariant
                self.wf(),
                n == self.entries@.len(),
                j <= bucket@.len(),
                b < self.buckets@.len(),
                b == self.bucket(cells(row@)),
                *bucket == self.buckets@[b as int],
                forall|k: int| 0 <= k < j ==> self@[#[trigger] bucket@[k] as int] != cells(row@),
            decreases bucket@.len() - j,
        {
            assert(self.buckets@[b as int]@[j as int] < self.entries@.len());
            if row_eq(self.entries[bucket[j]].as_slice(), row) {
                return Some(bucket[j]);
            }
            j = j + 1;
        }
        proof {
            if self@.contains(cells(row@)) {
                let i = choose|i: int| 0 <= i < self@.len() && self@[i] == cells(row@);
                assert(self.buckets@[self.bucket(self@[i])]@.contains(i as usize));
                let k = choose|k: int| 0 <= k < bucket@.len() && bucket@[k] == i as usize;
                assert(self@[bucket@[k] as int] == cells(row@));
            }
        }
        None
    }

    /// Adds a row that is not in the table yet.
    pub fn add(&mut self, row: Vec<Cell>)
        requires
            old(self).wf(),
            !old(self)@.contains(cells(row@)),
        ensures
            final(self).wf(),
            final(self)@ == old(self)@.push(cells(row@)),
    {
        let ghost before = *self;
        let b = find_slot(row.as_slice(), self.buckets.len());
        let n = self.entries.len();
        self.buckets[b].push(n);
        self.entries.push(row);
        proof {
            assert(self@ =~= before@.push(cells(row@)));
            assert forall|i: int| 0 <= i < self.entries@.len() implies self.buckets@[self.bucket(
                #[trigger] self@[i],
            )]@.contains(i as usize) by {
                if i < n {
                    assert(self@[i] == before@[i]);
                    let c = before.bucket(before@[i]);
                    lemma_slot(before@[i], before.buckets@.len() as int);
                    assert(before.buckets@[c]@.contains(i as usize));
                    let k = choose|k: int|
                        0 <= k < before.buckets@[c]@.len() && before.buckets@[c]@[k] == i as usize;
                    assert(self.buckets@[c]@[k] == i as usize);
                } else {
                    let k = self.buckets@[b as int]@.len() - 1;
                    assert(self.buckets@[b as int]@[k] == n);
                }
            }
            assert forall|c: int, j: int|
                0 <= c < self.buckets@.len() && 0 <= j < self.buckets@[c]@.len() implies #[trigger] self.buckets@[c]@[j]
                < self.entries@.len() by {
                if c != b || j < before.buckets@[c]@.len() {
                    assert(self.buckets@[c]@[j] == before.buckets@[c]@[j]);
                }
            }
        }
    }
}

} // verus!
