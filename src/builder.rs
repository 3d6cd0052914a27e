use vstd::prelude::*;
use crate::hash::{Digest, EMPTY_DIGEST};
use crate::table::{Table, TableError, MAX_CAPACITY};

verus! {

/// The entries that inserting `s` in order yields when no digest repeats.
pub open spec fn map_of(s: Seq<(Digest, u64)>) -> Map<u64, u64>
    decreases s.len(),
{
    if s.len() == 0 {
        Map::empty()
    } else {
        map_of(s.drop_last()).insert(s.last().0.0, s.last().1)
    }
}

pub open spec fn has_duplicate(s: Seq<(Digest, u64)>) -> bool {
    exists|j: int, k: int| 0 <= j < k < s.len() && (#[trigger] s[j]).0.0 == (#[trigger] s[k]).0.0
}

pub open spec fn has_reserved(s: Seq<(Digest, u64)>) -> bool {
    exists|j: int| 0 <= j < s.len() && (#[trigger] s[j]).0.0 == EMPTY_DIGEST
}

pub proof fn lemma_map_of_keys(s: Seq<(Digest, u64)>, h: u64)
    requires
        map_of(s).contains_key(h),
    ensures
        exists|j: int| 0 <= j < s.len() && (#[trigger] s[j]).0.0 == h,
    decreases s.len(),
{
    if s.last().0.0 != h {
        lemma_map_of_keys(s.drop_last(), h);
        let j = choose|j: int| 0 <= j < s.len() - 1 && (#[trigger] s.drop_last()[j]).0.0 == h;
        assert(s[j] == s.drop_last()[j]);
    }
}

pub open spec fn capacity_fits(expected: usize, r: int) -> bool {
    &&& 1 <= r <= MAX_CAPACITY
    &&& expected * 10 <= r * 9 || r * 2 > MAX_CAPACITY
    &&& r == 1 || (r / 2) * 9 < expected * 10
}

pub proof fn lemma_extend(s: Seq<(Digest, u64)>, i: int)
    requires
        0 <= i < s.len(),
        !has_duplicate(s.subrange(0, i)),
        !has_reserved(s.subrange(0, i)),
        !map_of(s.subrange(0, i)).contains_key(s[i].0.0),
        s[i].0.0 != EMPTY_DIGEST,
    ensures
        !has_duplicate(s.subrange(0, i + 1)),
        !has_reserved(s.subrange(0, i + 1)),
        map_of(s.subrange(0, i + 1)) == map_of(s.subrange(0, i)).insert(s[i].0.0, s[i].1),
{
    let pre = s.subrange(0, i);
    let nxt = s.subrange(0, i + 1);
    assert(nxt.drop_last() =~= pre);
    if has_duplicate(nxt) {
        let (j, k) = choose|j: int, k: int|
            0 <= j < k < nxt.len() && (#[trigger] nxt[j]).0.0 == (#[trigger] nxt[k]).0.0;
        assert(pre[j] == nxt[j]);
        if k < i {
            assert(pre[k] == nxt[k]);
        } else {
            lemma_map_of_contains(pre, j);
        }
    }
    if has_reserved(nxt) {
        let j = choose|j: int| 0 <= j < nxt.len() && (#[trigger] nxt[j]).0.0 == EMPTY_DIGEST;
        if j < i {
            assert(pre[j] == nxt[j]);
        }
    }
}

pub proof fn lemma_refused(s: Seq<(Digest, u64)>, i: int)
    requires
        0 <= i < s.len(),
    ensures
        map_of(s.subrange(0, i)).contains_key(s[i].0.0) ==> has_duplicate(s),
        s[i].0.0 == EMPTY_DIGEST ==> has_reserved(s),
{
    let pre = s.subrange(0, i);
    if map_of(pre).contains_key(s[i].0.0) {
        lemma_map_of_keys(pre, s[i].0.0);
        let j = choose|j: int| 0 <= j < pre.len() && (#[trigger] pre[j]).0.0 == s[i].0.0;
        assert(s[j] == pre[j]);
        assert(s[j].0.0 == s[i].0.0);
    }
    if s[i].0.0 == EMPTY_DIGEST {
        assert(s[i].0.0 == EMPTY_DIGEST);
    }
}

/// Smallest power of two (at least one, at most `MAX_CAPACITY`) that holds
/// `expected` entries under the 0.9 load-factor ceiling.
pub fn initial_capacity(expected: usize) -> (r: usize)
    ensures
        capacity_fits(expected, r as int),
{
    let want: usize = if expected > MAX_CAPACITY {
        MAX_CAPACITY
    } else {
        expected
    };
    let mut cap: usize = 1;
    while cap * 9 < want * 10 && cap <= MAX_CAPACITY / 2
        invariant
            1 <= cap <= MAX_CAPACITY,
            want <= MAX_CAPACITY,
            want <= expected,
            cap == 1 || (cap / 2) * 9 < want * 10,
        decreases MAX_CAPACITY - cap,
    {
        cap = cap * 2;
    }
    cap
}

/// Builds a table from the pairs scanned out of an archive, sized up front
/// from the expected number of entries.
pub struct Builder {
    pub table: Table,
}

impl Builder {
    pub open spec fn wf(&self) -> bool {
        self.table.wf()
    }

    pub open spec fn view(&self) -> Map<u64, u64> {
        self.table@
    }

    pub fn new(expected: usize) -> (r: Builder)
        ensures
            r.wf(),
            r@ == Map::<u64, u64>::empty(),
            r.table.count == 0,
            capacity_fits(expected, r.table.slots@.len() as int),
    {
        Builder { table: Table::new(initial_capacity(expected)) }
    }

    /// Adds one scanned pair: `Table::insert` on the table under construction.
    pub fn push(&mut self, digest: Digest, offset: u64) -> (r: Result<(), TableError>)
        requires
            old(self).wf(),
        ensures
            final(self).wf(),
            r == Err::<(), TableError>(TableError::ReservedDigest) <==> digest.0 == EMPTY_DIGEST,
            r == Err::<(), TableError>(TableError::DuplicateDigest) <==> digest.0 != EMPTY_DIGEST
                && old(self)@.contains_key(digest.0),
            r == Err::<(), TableError>(TableError::CapacityExceeded) <==> digest.0 != EMPTY_DIGEST
                && !old(self)@.contains_key(digest.0) && old(self).table.needs_growth()
                && old(self).table.slots@.len() * 2 > MAX_CAPACITY,
            r is Ok <==> digest.0 != EMPTY_DIGEST && !old(self)@.contains_key(digest.0) && !(
            old(self).table.needs_growth() && old(self).table.slots@.len() * 2 > MAX_CAPACITY),
            r is Ok ==> final(self)@ == old(self)@.insert(digest.0, offset) && final(self).table.count
                == old(self).table.count + 1,
            r is Err ==> final(self).table == old(self).table,
    {
        self.table.insert(digest, offset)
    }

    /// The finished table.
    pub fn finish(self) -> (r: Table)
        requires
            self.wf(),
        ensures
            r.wf(),
            r@ == self@,
    {
        self.table
    }
}

/// Builds a table from `entries` in order, stopping at the first refused pair.
pub fn build(expected: usize, entries: &Vec<(Digest, u64)>) -> (r: Result<Table, TableError>)
    ensures
        match r {
            Ok(t) => t.wf() && t@ == map_of(entries@) && !has_duplicate(entries@) && !has_reserved(
                entries@,
            ),
            Err(TableError::DuplicateDigest) => has_duplicate(entries@),
            Err(TableError::ReservedDigest) => has_reserved(entries@),
            Err(TableError::CapacityExceeded) => entries@.len() * 20 > MAX_CAPACITY * 9,
        },
{
    let mut b = Builder::new(expected);
    let mut i: usize = 0;
    while i < entries.len()
        invariant
            b.wf(),
            i <= entries@.len(),
            b@ == map_of(entries@.subrange(0, i as int)),
            b.table.count == i,
            !has_duplicate(entries@.subrange(0, i as int)),
            !has_reserved(entries@.subrange(0, i as int)),
        decreases entries@.len() - i,
    {
        let (d, off) = entries[i];
        let r = b.push(d, off);
        proof {
            assert(entries@[i as int] == (d, off));
        }
        if r.is_err() {
            proof {
                lemma_refused(entries@, i as int);
            }
            return Err(r.unwrap_err());
        }
        proof {
            lemma_extend(entries@, i as int);
        }
        i = i + 1;
    }
    proof {
        assert(entries@.subrange(0, entries@.len() as int) =~= entries@);
    }
    Ok(b.finish())
}

pub proof fn lemma_map_of_contains(s: Seq<(Digest, u64)>, j: int)
    requires
        0 <= j < s.len(),
    ensures
        map_of(s).contains_key(s[j].0.0),
    decreases s.len(),
{
    if j < s.len() - 1 {
        lemma_map_of_contains(s.drop_last(), j);
        assert(s.drop_last()[j] == s[j]);
    }
}

} // verus!
