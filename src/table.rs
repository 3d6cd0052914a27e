use vstd::prelude::*;
use vstd::arithmetic::div_mod::lemma_mod_pos_bound;
use crate::hash::{spec_bucket, spec_distance, spec_walk, Digest, EMPTY_DIGEST};
use crate::key_value_pair::KeyValuePair;

verus! {

/// Largest number of positions a table may have.
pub const MAX_CAPACITY: usize = 0x800_0000;

/// Why an insertion was refused.
#[derive(Debug, Clone, Copy, PartialEq, Eq, Structural)]
pub enum TableError {
    /// The digest is already present; the first writer wins.
    DuplicateDigest,
    /// The digest is the value reserved for empty slots.
    ReservedDigest,
    /// Growing the table would pass `MAX_CAPACITY`.
    CapacityExceeded,
}

/// The slot value that marks an empty position.
pub open spec fn empty_slot() -> KeyValuePair {
    KeyValuePair { hash: Digest(EMPTY_DIGEST), value: 0 }
}

pub open spec fn occupied(kv: KeyValuePair) -> bool {
    kv.hash.0 != EMPTY_DIGEST
}

pub open spec fn next_pos(p: int, n: int) -> int {
    if p + 1 < n {
        p + 1
    } else {
        0
    }
}

pub open spec fn prev_pos(p: int, n: int) -> int {
    if p > 0 {
        p - 1
    } else {
        n - 1
    }
}

/// Position reached after `k` probes forward from `b`.
pub open spec fn probe_pos(b: int, k: int, n: int) -> int {
    if b + k < n {
        b + k
    } else {
        b + k - n
    }
}

/// Displacement of the entry at position `i`.
pub open spec fn disp(s: Seq<KeyValuePair>, i: int) -> int {
    spec_distance(s[i].hash.0, i, s.len() as int)
}

pub open spec fn count_occupied(s: Seq<KeyValuePair>) -> nat
    decreases s.len(),
{
    if s.len() == 0 {
        0
    } else {
        count_occupied(s.drop_last()) + if occupied(s.last()) {
            1nat
        } else {
            0nat
        }
    }
}

/// Robin Hood order between neighbours: an entry that sits past its ideal
/// position follows an occupied position displaced by at least one less.
pub open spec fn robin_hood(s: Seq<KeyValuePair>) -> bool {
    forall|i: int|
        0 <= i < s.len() && occupied(#[trigger] s[i]) && disp(s, i) > 0 ==> occupied(
            s[prev_pos(i, s.len() as int)],
        ) && disp(s, prev_pos(i, s.len() as int)) + 1 >= disp(s, i)
}

pub open spec fn unique_digests(s: Seq<KeyValuePair>) -> bool {
    forall|i: int, j: int|
        0 <= i < s.len() && 0 <= j < s.len() && i != j && occupied(#[trigger] s[i]) && occupied(
            #[trigger] s[j],
        ) ==> s[i].hash.0 != s[j].hash.0
}

/// The occupied slots are exactly the entries of `m`.
pub open spec fn slots_agree(s: Seq<KeyValuePair>, m: Map<u64, u64>) -> bool {
    &&& forall|i: int|
        0 <= i < s.len() && occupied(#[trigger] s[i]) ==> m.contains_key(s[i].hash.0) && m[s[i].hash.0]
            == s[i].value
    &&& forall|h: u64|
        #[trigger] m.contains_key(h) ==> exists|i: int|
            0 <= i < s.len() && occupied(#[trigger] s[i]) && s[i].hash.0 == h
}

/// A fixed-capacity open-addressing table of slots with Robin Hood placement.
pub struct Table {
    pub slots: Vec<KeyValuePair>,
    pub count: usize,
    pub entries: Ghost<Map<u64, u64>>,
}

pub proof fn lemma_bucket_range(h: u64, n: int)
    requires
        n > 0,
    ensures
        0 <= spec_bucket(h, n) < n,
{
    reveal(spec_bucket);
    lemma_mod_pos_bound(h as int, n);
}

pub proof fn lemma_count_update(s: Seq<KeyValuePair>, i: int, kv: KeyValuePair)
    requires
        0 <= i < s.len(),
    ensures
        count_occupied(s.update(i, kv)) + (if occupied(s[i]) {
            1int
        } else {
            0int
        }) == count_occupied(s) + (if occupied(kv) {
            1int
        } else {
            0int
        }),
    decreases s.len(),
{
    let t = s.update(i, kv);
    if i == s.len() - 1 {
        assert(t.drop_last() =~= s.drop_last());
    } else {
        assert(t.drop_last() =~= s.drop_last().update(i, kv));
        lemma_count_update(s.drop_last(), i, kv);
    }
}

pub proof fn lemma_count_bound(s: Seq<KeyValuePair>)
    ensures
        count_occupied(s) <= s.len(),
    decreases s.len(),
{
    if s.len() > 0 {
        lemma_count_bound(s.drop_last());
    }
}

pub proof fn lemma_exists_empty(s: Seq<KeyValuePair>) -> (e: int)
    requires
        count_occupied(s) < s.len(),
    ensures
        0 <= e < s.len(),
        !occupied(s[e]),
    decreases s.len(),
{
    if occupied(s.last()) {
        let e = lemma_exists_empty(s.drop_last());
        assert(s[e] == s.drop_last()[e]);
        e
    } else {
        lemma_count_bound(s.drop_last());
        (s.len() - 1) as int
    }
}

pub proof fn lemma_count_empty(s: Seq<KeyValuePair>)
    requires
        forall|i: int| 0 <= i < s.len() ==> !occupied(#[trigger] s[i]),
    ensures
        count_occupied(s) == 0,
    decreases s.len(),
{
    if s.len() > 0 {
        assert forall|i: int| 0 <= i < s.drop_last().len() implies !occupied(
            #[trigger] s.drop_last()[i],
        ) by {
            assert(s.drop_last()[i] == s[i]);
        }
        lemma_count_empty(s.drop_last());
    }
}

/// Along the probe path of an occupied entry, every position is occupied and
/// displaced at least as far as the number of probes taken to reach it.
pub proof fn lemma_probe_path(s: Seq<KeyValuePair>, i: int, k: int)
    requires
        s.len() > 0,
        robin_hood(s),
        0 <= i < s.len(),
        occupied(s[i]),
        0 <= k <= disp(s, i),
    ensures
        0 <= probe_pos(spec_bucket(s[i].hash.0, s.len() as int), k, s.len() as int) < s.len(),
        occupied(s[probe_pos(spec_bucket(s[i].hash.0, s.len() as int), k, s.len() as int)]),
        disp(s, probe_pos(spec_bucket(s[i].hash.0, s.len() as int), k, s.len() as int)) >= k,
    decreases disp(s, i) - k,
{
    let n = s.len() as int;
    let b = spec_bucket(s[i].hash.0, n);
    lemma_bucket_range(s[i].hash.0, n);
    if k < disp(s, i) {
        lemma_probe_path(s, i, k + 1);
        let q = probe_pos(b, k + 1, n);
        lemma_bucket_range(s[q].hash.0, n);
        assert(prev_pos(q, n) == probe_pos(b, k, n));
    }
}

/// Where a probe from the ideal bucket of `h` stops, `h` is not stored.
pub proof fn lemma_absent(s: Seq<KeyValuePair>, h: u64, k: int)
    requires
        s.len() > 0,
        robin_hood(s),
        0 <= k <= s.len(),
        forall|j: int|
            0 <= j < k ==> (#[trigger] s[probe_pos(spec_bucket(h, s.len() as int), j, s.len() as int)]).hash.0
                != h,
        k == s.len() || !occupied(s[probe_pos(spec_bucket(h, s.len() as int), k, s.len() as int)])
            || disp(s, probe_pos(spec_bucket(h, s.len() as int), k, s.len() as int)) < k,
    ensures
        forall|i: int| 0 <= i < s.len() && occupied(#[trigger] s[i]) ==> s[i].hash.0 != h,
{
    let n = s.len() as int;
    let b = spec_bucket(h, n);
    lemma_bucket_range(h, n);
    assert forall|i: int| 0 <= i < s.len() && occupied(#[trigger] s[i]) implies s[i].hash.0 != h by {
        if s[i].hash.0 == h {
            let d = disp(s, i);
            assert(probe_pos(b, d, n) == i);
            if d < k {
                assert(s[probe_pos(b, d, n)].hash.0 != h);
            } else {
                lemma_probe_path(s, i, k);
            }
        }
    }
}

/// State of an insertion walk: `cand` is carried at position `p` of `s`,
/// and `s` together with `cand` holds exactly the entries of `m`.
#[verifier::opaque]
pub open spec fn carrying(
    s: Seq<KeyValuePair>,
    m: Map<u64, u64>,
    cand: KeyValuePair,
    p: int,
    e: int,
    c: int,
) -> bool {
    let n = s.len() as int;
    &&& 0 < n <= MAX_CAPACITY
    &&& 0 <= p < n
    &&& 0 <= e < n
    &&& !occupied(s[e])
    &&& occupied(cand)
    &&& count_occupied(s) == c
    &&& c + 1 < n
    &&& robin_hood(s)
    &&& unique_digests(s)
    &&& (spec_distance(cand.hash.0, p, n) > 0 ==> occupied(s[prev_pos(p, n)]) && disp(s, prev_pos(p, n))
        + 1 >= spec_distance(cand.hash.0, p, n))
    &&& forall|i: int| 0 <= i < n && occupied(#[trigger] s[i]) ==> s[i].hash.0 != cand.hash.0
    &&& forall|i: int|
        0 <= i < n && occupied(#[trigger] s[i]) ==> m.contains_key(s[i].hash.0) && m[s[i].hash.0]
            == s[i].value
    &&& forall|k: u64|
        #[trigger] m.contains_key(k) ==> k == cand.hash.0 || exists|i: int|
            0 <= i < n && occupied(#[trigger] s[i]) && s[i].hash.0 == k
    &&& m.contains_key(cand.hash.0)
    &&& m[cand.hash.0] == cand.value
}

pub proof fn lemma_walk_start(s: Seq<KeyValuePair>, m0: Map<u64, u64>, cand: KeyValuePair, e: int)
    requires
        0 < s.len() <= MAX_CAPACITY,
        count_occupied(s) + 1 < s.len(),
        robin_hood(s),
        unique_digests(s),
        slots_agree(s, m0),
        occupied(cand),
        !m0.contains_key(cand.hash.0),
        0 <= e < s.len(),
        !occupied(s[e]),
    ensures
        carrying(
            s,
            m0.insert(cand.hash.0, cand.value),
            cand,
            spec_bucket(cand.hash.0, s.len() as int),
            e,
            count_occupied(s) as int,
        ),
{
    reveal(carrying);
    lemma_bucket_range(cand.hash.0, s.len() as int);
}

pub proof fn lemma_walk_empty(
    s: Seq<KeyValuePair>,
    m: Map<u64, u64>,
    cand: KeyValuePair,
    p: int,
    e: int,
    c: int,
)
    requires
        carrying(s, m, cand, p, e, c),
        !occupied(s[p]),
    ensures
        count_occupied(s.update(p, cand)) == c + 1,
        robin_hood(s.update(p, cand)),
        unique_digests(s.update(p, cand)),
        slots_agree(s.update(p, cand), m),
{
    reveal(carrying);
    let n = s.len() as int;
    let t = s.update(p, cand);
    lemma_count_update(s, p, cand);
    assert forall|i: int|
        0 <= i < n && occupied(#[trigger] t[i]) && disp(t, i) > 0 implies occupied(t[prev_pos(i, n)])
        && disp(t, prev_pos(i, n)) + 1 >= disp(t, i) by {
        lemma_bucket_range(t[i].hash.0, n);
        if i != p {
            assert(t[i] == s[i]);
        }
    }
    assert forall|k: u64| #[trigger] m.contains_key(k) implies exists|i: int|
        0 <= i < n && occupied(#[trigger] t[i]) && t[i].hash.0 == k by {
        if k == cand.hash.0 {
            assert(occupied(t[p]));
        } else {
            let i = choose|i: int| 0 <= i < n && occupied(#[trigger] s[i]) && s[i].hash.0 == k;
            assert(occupied(t[i]));
        }
    }
}

/// Putting `cand` in place of a resident displaced less keeps the Robin
/// Hood order, and the resident fits one position further on.
pub proof fn lemma_swap_order(s: Seq<KeyValuePair>, cand: KeyValuePair, p: int)
    requires
        0 < s.len(),
        0 <= p < s.len(),
        robin_hood(s),
        occupied(cand),
        occupied(s[p]),
        disp(s, p) < spec_distance(cand.hash.0, p, s.len() as int),
        spec_distance(cand.hash.0, p, s.len() as int) > 0 ==> occupied(s[prev_pos(p, s.len() as int)])
            && disp(s, prev_pos(p, s.len() as int)) + 1 >= spec_distance(
            cand.hash.0,
            p,
            s.len() as int,
        ),
    ensures
        robin_hood(s.update(p, cand)),
        spec_distance(s[p].hash.0, next_pos(p, s.len() as int), s.len() as int) > 0 ==> occupied(
            s.update(p, cand)[prev_pos(next_pos(p, s.len() as int), s.len() as int)],
        ) && disp(s.update(p, cand), prev_pos(next_pos(p, s.len() as int), s.len() as int)) + 1
            >= spec_distance(s[p].hash.0, next_pos(p, s.len() as int), s.len() as int),
{
    let n = s.len() as int;
    let t = s.update(p, cand);
    lemma_bucket_range(cand.hash.0, n);
    lemma_bucket_range(s[p].hash.0, n);
    assert(disp(t, p) == spec_distance(cand.hash.0, p, n));
    assert forall|i: int|
        0 <= i < n && occupied(#[trigger] t[i]) && disp(t, i) > 0 implies occupied(t[prev_pos(i, n)])
        && disp(t, prev_pos(i, n)) + 1 >= disp(t, i) by {
        lemma_bucket_range(t[i].hash.0, n);
        if i != p {
            assert(t[i] == s[i]);
            assert(disp(t, i) == disp(s, i));
            if prev_pos(i, n) == p {
                assert(occupied(s[i]) && disp(s, i) > 0);
            } else {
                assert(t[prev_pos(i, n)] == s[prev_pos(i, n)]);
            }
        }
    }
}

#[verifier::rlimit(50)]
pub proof fn lemma_walk_swap(
    s: Seq<KeyValuePair>,
    m: Map<u64, u64>,
    cand: KeyValuePair,
    p: int,
    e: int,
    c: int,
)
    requires
        carrying(s, m, cand, p, e, c),
        occupied(s[p]),
        disp(s, p) < spec_distance(cand.hash.0, p, s.len() as int),
    ensures
        carrying(s.update(p, cand), m, s[p], next_pos(p, s.len() as int), e, c),
        spec_walk(next_pos(p, s.len() as int), e, s.len() as int) < spec_walk(p, e, s.len() as int),
{
    reveal(carrying);
    let n = s.len() as int;
    let t = s.update(p, cand);
    let res = s[p];
    lemma_count_update(s, p, cand);
    lemma_swap_order(s, cand, p);
    assert forall|k: u64| #[trigger] m.contains_key(k) implies k == res.hash.0 || exists|i: int|
        0 <= i < n && occupied(#[trigger] t[i]) && t[i].hash.0 == k by {
        if k == cand.hash.0 {
            assert(occupied(t[p]));
        } else if k != res.hash.0 {
            let i = choose|i: int| 0 <= i < n && occupied(#[trigger] s[i]) && s[i].hash.0 == k;
            assert(occupied(t[i]));
        }
    }
    assert forall|i: int| 0 <= i < n && occupied(#[trigger] t[i]) implies t[i].hash.0 != res.hash.0 by {
        if i != p {
            assert(t[i] == s[i]);
        }
    }
    assert(p != e);
}

pub proof fn lemma_walk_skip(
    s: Seq<KeyValuePair>,
    m: Map<u64, u64>,
    cand: KeyValuePair,
    p: int,
    e: int,
    c: int,
)
    requires
        carrying(s, m, cand, p, e, c),
        occupied(s[p]),
        disp(s, p) >= spec_distance(cand.hash.0, p, s.len() as int),
    ensures
        carrying(s, m, cand, next_pos(p, s.len() as int), e, c),
        spec_walk(next_pos(p, s.len() as int), e, s.len() as int) < spec_walk(p, e, s.len() as int),
{
    reveal(carrying);
    let n = s.len() as int;
    lemma_bucket_range(cand.hash.0, n);
    lemma_bucket_range(s[p].hash.0, n);
    assert(p != e);
}

/// State of the backward shift after a removal: position `hole` is empty,
/// the Robin Hood order holds everywhere but possibly just after the hole,
/// and `hd` bounds the displacement the next entry may move back into.
#[verifier::opaque]
pub open spec fn shifting(s: Seq<KeyValuePair>, m: Map<u64, u64>, hole: int, hd: int, e: int, c: int) -> bool {
    let n = s.len() as int;
    &&& 1 < n <= MAX_CAPACITY
    &&& 0 <= hole < n
    &&& 0 <= e < n
    &&& e != hole
    &&& !occupied(s[e])
    &&& !occupied(s[hole])
    &&& count_occupied(s) == c
    &&& c < n
    &&& forall|i: int|
        0 <= i < n && i != next_pos(hole, n) && occupied(#[trigger] s[i]) && disp(s, i) > 0 ==> occupied(
            s[prev_pos(i, n)],
        ) && disp(s, prev_pos(i, n)) + 1 >= disp(s, i)
    &&& (hd > 0 ==> occupied(s[prev_pos(hole, n)]) && disp(s, prev_pos(hole, n)) + 1 >= hd)
    &&& (occupied(s[next_pos(hole, n)]) && disp(s, next_pos(hole, n)) > 0 ==> disp(
        s,
        next_pos(hole, n),
    ) <= hd + 1)
    &&& unique_digests(s)
    &&& slots_agree(s, m)
}

pub proof fn lemma_hole_start(s: Seq<KeyValuePair>, m0: Map<u64, u64>, p: int, e: int)
    requires
        0 < s.len() <= MAX_CAPACITY,
        count_occupied(s) < s.len(),
        robin_hood(s),
        unique_digests(s),
        slots_agree(s, m0),
        0 <= p < s.len(),
        occupied(s[p]),
        0 <= e < s.len(),
        !occupied(s[e]),
    ensures
        count_occupied(s) >= 1,
        shifting(
            s.update(p, empty_slot()),
            m0.remove(s[p].hash.0),
            p,
            disp(s, p),
            e,
            count_occupied(s) - 1,
        ),
{
    reveal(shifting);
    let n = s.len() as int;
    let t = s.update(p, empty_slot());
    let h = s[p].hash.0;
    let m = m0.remove(h);
    lemma_count_update(s, p, empty_slot());
    lemma_bucket_range(h, n);
    assert(e != p);
    assert forall|i: int|
        0 <= i < n && i != next_pos(p, n) && occupied(#[trigger] t[i]) && disp(t, i) > 0 implies occupied(
        t[prev_pos(i, n)],
    ) && disp(t, prev_pos(i, n)) + 1 >= disp(t, i) by {
        lemma_bucket_range(t[i].hash.0, n);
        assert(t[i] == s[i]);
        assert(t[prev_pos(i, n)] == s[prev_pos(i, n)]);
    }
    let q = next_pos(p, n);
    lemma_bucket_range(s[q].hash.0, n);
    let r = prev_pos(p, n);
    lemma_bucket_range(s[r].hash.0, n);
    assert forall|k: u64| #[trigger] m.contains_key(k) implies exists|i: int|
        0 <= i < n && occupied(#[trigger] t[i]) && t[i].hash.0 == k by {
        let i = choose|i: int| 0 <= i < n && occupied(#[trigger] s[i]) && s[i].hash.0 == k;
        assert(i != p);
        assert(t[i] == s[i]);
    }
    assert forall|i: int| 0 <= i < n && occupied(#[trigger] t[i]) implies m.contains_key(t[i].hash.0)
        && m[t[i].hash.0] == t[i].value by {
        assert(t[i] == s[i]);
        assert(i != p);
    }
}

pub proof fn lemma_hole_done(s: Seq<KeyValuePair>, m: Map<u64, u64>, hole: int, hd: int, e: int, c: int)
    requires
        shifting(s, m, hole, hd, e, c),
        !occupied(s[next_pos(hole, s.len() as int)]) || disp(s, next_pos(hole, s.len() as int)) == 0,
    ensures
        0 < s.len() <= MAX_CAPACITY,
        robin_hood(s),
        unique_digests(s),
        slots_agree(s, m),
        count_occupied(s) == c,
        c < s.len(),
{
    reveal(shifting);
}

/// Moving the entry after the hole back into it keeps the Robin Hood order
/// everywhere but just after the new hole.
#[verifier::rlimit(50)]
pub proof fn lemma_shift_order(s: Seq<KeyValuePair>, hole: int, hd: int)
    requires
        1 < s.len(),
        0 <= hole < s.len(),
        !occupied(s[hole]),
        forall|i: int|
            0 <= i < s.len() && i != next_pos(hole, s.len() as int) && occupied(#[trigger] s[i]) && disp(s, i)
                > 0 ==> occupied(s[prev_pos(i, s.len() as int)]) && disp(s, prev_pos(i, s.len() as int)) + 1
                >= disp(s, i),
        hd > 0 ==> occupied(s[prev_pos(hole, s.len() as int)]) && disp(s, prev_pos(hole, s.len() as int)) + 1
            >= hd,
        disp(s, next_pos(hole, s.len() as int)) <= hd + 1,
        occupied(s[next_pos(hole, s.len() as int)]),
        disp(s, next_pos(hole, s.len() as int)) > 0,
    ensures
        ({
            let n = s.len() as int;
            let q = next_pos(hole, n);
            let t = s.update(hole, s[q]).update(q, empty_slot());
            &&& forall|i: int|
                0 <= i < n && i != next_pos(q, n) && occupied(#[trigger] t[i]) && disp(t, i) > 0 ==> occupied(
                    t[prev_pos(i, n)],
                ) && disp(t, prev_pos(i, n)) + 1 >= disp(t, i)
            &&& (disp(s, q) > 0 ==> occupied(t[prev_pos(q, n)]) && disp(t, prev_pos(q, n)) + 1 >= disp(s, q))
            &&& (occupied(t[next_pos(q, n)]) && disp(t, next_pos(q, n)) > 0 ==> disp(t, next_pos(q, n))
                <= disp(s, q) + 1)
        }),
{
    let n = s.len() as int;
    let q = next_pos(hole, n);
    let kv = s[q];
    let t = s.update(hole, kv).update(q, empty_slot());
    lemma_bucket_range(kv.hash.0, n);
    assert(q != hole);
    assert(t[hole] == kv);
    assert(disp(t, hole) == disp(s, q) - 1);
    let pq = prev_pos(hole, n);
    lemma_bucket_range(s[pq].hash.0, n);
    let nq = next_pos(q, n);
    lemma_bucket_range(s[nq].hash.0, n);
    assert forall|i: int|
        0 <= i < n && i != next_pos(q, n) && occupied(#[trigger] t[i]) && disp(t, i) > 0 implies occupied(
        t[prev_pos(i, n)],
    ) && disp(t, prev_pos(i, n)) + 1 >= disp(t, i) by {
        lemma_bucket_range(t[i].hash.0, n);
        if i != hole {
            assert(t[i] == s[i]);
            assert(i != q);
            if prev_pos(i, n) != hole && prev_pos(i, n) != q {
                assert(t[prev_pos(i, n)] == s[prev_pos(i, n)]);
            }
        }
    }
    if occupied(t[next_pos(q, n)]) && disp(t, next_pos(q, n)) > 0 {
        if next_pos(q, n) != hole {
            assert(t[next_pos(q, n)] == s[next_pos(q, n)]);
        }
    }
}

#[verifier::rlimit(50)]
pub proof fn lemma_hole_shift(s: Seq<KeyValuePair>, m: Map<u64, u64>, hole: int, hd: int, e: int, c: int)
    requires
        shifting(s, m, hole, hd, e, c),
        occupied(s[next_pos(hole, s.len() as int)]),
        disp(s, next_pos(hole, s.len() as int)) > 0,
    ensures
        shifting(
            s.update(hole, s[next_pos(hole, s.len() as int)]).update(
                next_pos(hole, s.len() as int),
                empty_slot(),
            ),
            m,
            next_pos(hole, s.len() as int),
            disp(s, next_pos(hole, s.len() as int)),
            e,
            c,
        ),
        spec_walk(next_pos(hole, s.len() as int), e, s.len() as int) < spec_walk(hole, e, s.len() as int),
{
    reveal(shifting);
    let n = s.len() as int;
    let q = next_pos(hole, n);
    let kv = s[q];
    let t1 = s.update(hole, kv);
    let t = t1.update(q, empty_slot());
    lemma_count_update(s, hole, kv);
    lemma_count_update(t1, q, empty_slot());
    lemma_bucket_range(kv.hash.0, n);
    assert(q != hole);
    assert(q != e);
    assert(t[hole] == kv);
    assert(disp(t, hole) == disp(s, q) - 1);
    lemma_shift_order(s, hole, hd);
    assert forall|i: int, j: int|
        0 <= i < n && 0 <= j < n && i != j && occupied(#[trigger] t[i]) && occupied(#[trigger] t[j])
            implies t[i].hash.0 != t[j].hash.0 by {
        let si = if i == hole { q } else { i };
        let sj = if j == hole { q } else { j };
        assert(t[i] == s[si]);
        assert(t[j] == s[sj]);
    }
    assert forall|k: u64| #[trigger] m.contains_key(k) implies exists|i: int|
        0 <= i < n && occupied(#[trigger] t[i]) && t[i].hash.0 == k by {
        let i = choose|i: int| 0 <= i < n && occupied(#[trigger] s[i]) && s[i].hash.0 == k;
        if i == q {
            assert(occupied(t[hole]));
        } else {
            assert(t[i] == s[i]);
        }
    }
    assert forall|i: int| 0 <= i < n && occupied(#[trigger] t[i]) implies m.contains_key(t[i].hash.0)
        && m[t[i].hash.0] == t[i].value by {
        let si = if i == hole { q } else { i };
        assert(t[i] == s[si]);
    }
}

impl Table {
    pub open spec fn view(&self) -> Map<u64, u64> {
        self.entries@
    }

    pub open spec fn wf(&self) -> bool {
        let s = self.slots@;
        &&& 0 < s.len() <= MAX_CAPACITY
        &&& self.count == count_occupied(s)
        &&& self.count < s.len()
        &&& robin_hood(s)
        &&& unique_digests(s)
        &&& slots_agree(s, self.entries@)
    }

    /// An empty table with `capacity` positions (at least one).
    pub fn new(capacity: usize) -> (r: Table)
        requires
            capacity <= MAX_CAPACITY,
        ensures
            r.wf(),
            r@ == Map::<u64, u64>::empty(),
            r.count == 0,
            r.slots@.len() == if capacity == 0 {
                1
            } else {
                capacity
            },
    {
        let n: usize = if capacity == 0 {
            1
        } else {
            capacity
        };
        let mut slots: Vec<KeyValuePair> = Vec::with_capacity(n);
        while slots.len() < n
            invariant
                slots@.len() <= n,
                forall|i: int| 0 <= i < slots@.len() ==> #[trigger] slots@[i] == empty_slot(),
            decreases n - slots@.len(),
        {
            slots.push(KeyValuePair { hash: Digest(EMPTY_DIGEST), value: 0 });
        }
        proof {
            lemma_count_empty(slots@);
        }
        Table { slots, count: 0, entries: Ghost(Map::empty()) }
    }

    /// Number of positions.
    pub fn capacity(&self) -> (r: usize)
        ensures
            r == self.slots@.len(),
    {
        self.slots.len()
    }

    /// Number of occupied positions.
    pub fn len(&self) -> (r: usize)
        ensures
            r == self.count,
    {
        self.count
    }

    /// Position of digest `h`, found by the Robin Hood probe with early stop.
    pub fn find(&self, h: u64) -> (r: Option<usize>)
        requires
            self.wf(),
        ensures
            match r {
                Some(p) => p < self.slots@.len() && occupied(self.slots@[p as int])
                    && self.slots@[p as int].hash.0 == h,
                None => !self@.contains_key(h),
            },
    {
        let n = self.slots.len();
        let ghost s = self.slots@;
        let b = Digest(h).bucket(n as u64) as usize;
        let mut k: usize = 0;
        let mut p: usize = b;
        proof {
            lemma_bucket_range(h, n as int);
        }
        while k < n
            invariant
                n == s.len(),
                s == self.slots@,
                self.wf(),
                b == spec_bucket(h, n as int),
                b < n,
                k <= n,
                k < n ==> p == probe_pos(b as int, k as int, n as int) && p < n,
                forall|j: int|
                    0 <= j < k ==> (#[trigger] s[probe_pos(b as int, j, n as int)]).hash.0 != h,
            decreases n - k,
        {
            let kv = self.slots[p];
            if kv.hash.0 == EMPTY_DIGEST {
                proof {
                    lemma_absent(s, h, k as int);
                }
                return None;
            }
            if kv.hash.0 == h {
                return Some(p);
            }
            if (kv.distance(p as u64, n as u64) as usize) < k {
                proof {
                    lemma_absent(s, h, k as int);
                }
                return None;
            }
            k = k + 1;
            p = if p + 1 < n {
                p + 1
            } else {
                0
            };
        }
        proof {
            lemma_absent(s, h, k as int);
        }
        None
    }

    /// Offset stored under digest `h`, if any.
    pub fn lookup(&self, h: u64) -> (r: Option<u64>)
        requires
            self.wf(),
        ensures
            r == if self@.contains_key(h) {
                Some(self@[h])
            } else {
                None::<u64>
            },
    {
        match self.find(h) {
            Some(p) => Some(self.slots[p].value),
            None => None,
        }
    }

    /// Robin Hood placement of a new entry: walk forward from its ideal
    /// position, taking the place of any resident displaced less than the
    /// entry carried, which is then carried on in its stead.
    fn place(&mut self, h: u64, v: u64)
        requires
            old(self).wf(),
            h != EMPTY_DIGEST,
            !old(self)@.contains_key(h),
            old(self).count + 1 < old(self).slots@.len(),
        ensures
            final(self).wf(),
            final(self)@ == old(self)@.insert(h, v),
            final(self).count == old(self).count + 1,
            final(self).slots@.len() == old(self).slots@.len(),
    {
        let n = self.slots.len();
        let ghost m = self.entries@.insert(h, v);
        let ghost c0 = self.count;
        let ghost e = lemma_exists_empty(self.slots@);
        let mut cand = KeyValuePair { hash: Digest(h), value: v };
        let mut p = cand.bucket(n as u64) as usize;
        proof {
            lemma_walk_start(self.slots@, self.entries@, cand, e);
        }
        loop
            invariant
                self.slots@.len() == n,
                self.count == c0,
                c0 == old(self).count,
                n == old(self).slots@.len(),
                m == old(self)@.insert(h, v),
                p < n,
                carrying(self.slots@, m, cand, p as int, e, c0 as int),
            decreases spec_walk(p as int, e, n as int),
        {
            let ghost s = self.slots@;
            proof {
                reveal(carrying);
            }
            let dc = cand.distance(p as u64, n as u64);
            let res = self.slots[p];
            if res.hash.0 == EMPTY_DIGEST {
                self.slots[p] = cand;
                proof {
                    lemma_walk_empty(s, m, cand, p as int, e, c0 as int);
                }
                self.count = self.count + 1;
                self.entries = Ghost(m);
                return ;
            }
            let dr = res.distance(p as u64, n as u64);
            if dr < dc {
                self.slots[p] = cand;
                proof {
                    lemma_walk_swap(s, m, cand, p as int, e, c0 as int);
                }
                cand = res;
            } else {
                proof {
                    lemma_walk_skip(s, m, cand, p as int, e, c0 as int);
                }
            }
            p = if p + 1 < n {
                p + 1
            } else {
                0
            };
        }
    }

    /// The same entries in a table of `new_capacity` positions.
    fn grow(&self, new_capacity: usize) -> (r: Table)
        requires
            self.wf(),
            self.slots@.len() < new_capacity <= MAX_CAPACITY,
        ensures
            r.wf(),
            r@ == self@,
            r.count == self.count,
            r.slots@.len() == new_capacity,
    {
        let n = self.slots.len();
        let ghost s = self.slots@;
        let mut t = Table::new(new_capacity);
        let mut i: usize = 0;
        while i < n
            invariant
                self.wf(),
                s == self.slots@,
                n == s.len(),
                n < new_capacity <= MAX_CAPACITY,
                i <= n,
                t.wf(),
                t.slots@.len() == new_capacity,
                t.count == count_occupied(s.subrange(0, i as int)),
                forall|j: int|
                    0 <= j < i && occupied(#[trigger] s[j]) ==> t@.contains_key(s[j].hash.0)
                        && t@[s[j].hash.0] == s[j].value,
                forall|k: u64|
                    #[trigger] t@.contains_key(k) ==> exists|j: int|
                        0 <= j < i && occupied(#[trigger] s[j]) && s[j].hash.0 == k && t@[k]
                            == s[j].value,
            decreases n - i,
        {
            let kv = self.slots[i];
            proof {
                assert(s.subrange(0, i as int + 1).drop_last() =~= s.subrange(0, i as int));
                lemma_count_bound(s.subrange(0, i as int));
            }
            if kv.hash.0 != EMPTY_DIGEST {
                let ghost t0 = t@;
                proof {
                    if t@.contains_key(kv.hash.0) {
                        let j = choose|j: int|
                            0 <= j < i && occupied(#[trigger] s[j]) && s[j].hash.0 == kv.hash.0
                                && t@[kv.hash.0] == s[j].value;
                        assert(false);
                    }
                }
                t.place(kv.hash.0, kv.value);
                proof {
                    assert forall|k: u64| #[trigger] t@.contains_key(k) implies exists|j: int|
                        0 <= j < i + 1 && occupied(#[trigger] s[j]) && s[j].hash.0 == k && t@[k]
                            == s[j].value by {
                        if k != kv.hash.0 {
                            assert(t0.contains_key(k));
                            let j = choose|j: int|
                                0 <= j < i && occupied(#[trigger] s[j]) && s[j].hash.0 == k && t0[k]
                                    == s[j].value;
                        } else {
                            assert(occupied(s[i as int]));
                        }
                    }
                    assert forall|j: int|
                        0 <= j < i + 1 && occupied(#[trigger] s[j]) implies t@.contains_key(s[j].hash.0)
                        && t@[s[j].hash.0] == s[j].value by {
                        if j < i {
                            assert(s[j].hash.0 != kv.hash.0);
                        }
                    }
                }
            }
            i = i + 1;
        }
        proof {
            assert(s.subrange(0, n as int) =~= s);
            assert forall|k: u64| t@.contains_key(k) <==> self@.contains_key(k) by {
                if self@.contains_key(k) {
                    let j = choose|j: int| 0 <= j < n && occupied(#[trigger] s[j]) && s[j].hash.0 == k;
                }
            }
            assert forall|k: u64| t@.contains_key(k) implies t@[k] == self@[k] by {
                let j = choose|j: int|
                    0 <= j < n && occupied(#[trigger] s[j]) && s[j].hash.0 == k && t@[k] == s[j].value;
            }
            assert(t@ =~= self@);
        }
        t
    }

    /// True when holding one more entry would pass the 0.9 load-factor ceiling.
    pub open spec fn needs_growth(&self) -> bool {
        (self.count + 1) * 10 > self.slots@.len() * 9
    }

    /// Inserts `offset` under `digest`. A digest already present is refused
    /// (first writer wins); crossing the load-factor ceiling first doubles the
    /// capacity and reinserts every entry.
    pub fn insert(&mut self, digest: Digest, offset: u64) -> (r: Result<(), TableError>)
        requires
            old(self).wf(),
        ensures
            final(self).wf(),
            r == Err::<(), TableError>(TableError::ReservedDigest) <==> digest.0 == EMPTY_DIGEST,
            r == Err::<(), TableError>(TableError::DuplicateDigest) <==> digest.0 != EMPTY_DIGEST
                && old(self)@.contains_key(digest.0),
            r == Err::<(), TableError>(TableError::CapacityExceeded) <==> digest.0 != EMPTY_DIGEST
                && !old(self)@.contains_key(digest.0) && old(self).needs_growth()
                && old(self).slots@.len() * 2 > MAX_CAPACITY,
            r is Ok <==> digest.0 != EMPTY_DIGEST && !old(self)@.contains_key(digest.0) && !(
            old(self).needs_growth() && old(self).slots@.len() * 2 > MAX_CAPACITY),
            r is Ok ==> final(self)@ == old(self)@.insert(digest.0, offset) && final(self).count
                == old(self).count + 1 && final(self).count * 10 <= final(self).slots@.len() * 9
                && final(self).slots@.len() == if old(self).needs_growth() {
                old(self).slots@.len() * 2
            } else {
                old(self).slots@.len()
            },
            r is Err ==> *final(self) == *old(self),
    {
        let h = digest.0;
        if h == EMPTY_DIGEST {
            return Err(TableError::ReservedDigest);
        }
        if self.find(h).is_some() {
            return Err(TableError::DuplicateDigest);
        }
        let n = self.slots.len();
        if (self.count + 1) * 10 > n * 9 {
            if n > MAX_CAPACITY / 2 {
                return Err(TableError::CapacityExceeded);
            }
            let grown = self.grow(n * 2);
            *self = grown;
        }
        self.place(h, offset);
        Ok(())
    }

    /// Removes the entry under digest `h` and returns its offset. The slots
    /// after it that sit past their ideal position are shifted back by one,
    /// up to the first empty or ideally placed slot.
    pub fn remove(&mut self, h: u64) -> (r: Option<u64>)
        requires
            old(self).wf(),
        ensures
            final(self).wf(),
            r == if old(self)@.contains_key(h) {
                Some(old(self)@[h])
            } else {
                None::<u64>
            },
            final(self)@ == old(self)@.remove(h),
            final(self).slots@.len() == old(self).slots@.len(),
            final(self).count == if old(self)@.contains_key(h) {
                old(self).count - 1
            } else {
                old(self).count as int
            },
    {
        let n = self.slots.len();
        let p = match self.find(h) {
            Some(p) => p,
            None => {
                proof {
                    assert(self@.remove(h) =~= self@);
                }
                return None;
            },
        };
        let v = self.slots[p].value;
        let ghost s0 = self.slots@;
        let ghost m = self.entries@.remove(h);
        let ghost c = (self.count - 1) as int;
        let ghost e = lemma_exists_empty(s0);
        proof {
            lemma_hole_start(s0, self.entries@, p as int, e);
        }
        self.slots[p] = KeyValuePair { hash: Digest(EMPTY_DIGEST), value: 0 };
        self.count = self.count - 1;
        self.entries = Ghost(m);
        let mut hole = p;
        let ghost mut hd = disp(s0, p as int);
        loop
            invariant
                self.slots@.len() == n,
                n == old(self).slots@.len(),
                self.count == c,
                c == old(self).count - 1,
                m == old(self)@.remove(h),
                self.entries@ == m,
                v == old(self)@[h],
                old(self)@.contains_key(h),
                hole < n,
                0 <= e < n,
                shifting(self.slots@, m, hole as int, hd, e, c),
            decreases spec_walk(hole as int, e, n as int),
        {
            let ghost s = self.slots@;
            let q = if hole + 1 < n {
                hole + 1
            } else {
                0
            };
            let kv = self.slots[q];
            if kv.hash.0 == EMPTY_DIGEST {
                proof {
                    lemma_hole_done(s, m, hole as int, hd, e, c);
                }
                return Some(v);
            }
            let dq = kv.distance(q as u64, n as u64);
            if dq == 0 {
                proof {
                    lemma_hole_done(s, m, hole as int, hd, e, c);
                }
                return Some(v);
            }
            self.slots[hole] = kv;
            self.slots[q] = KeyValuePair { hash: Digest(EMPTY_DIGEST), value: 0 };
            proof {
                lemma_hole_shift(s, m, hole as int, hd, e, c);
                assert(q as int == next_pos(hole as int, n as int));
                assert(spec_walk(q as int, e, n as int) < spec_walk(hole as int, e, n as int));
                hd = dq as int;
            }
            hole = q;
        }
    }

    /// Largest displacement of any occupied slot (0 when empty).
    pub fn max_displacement(&self) -> (r: usize)
        requires
            self.wf(),
        ensures
            forall|i: int|
                0 <= i < self.slots@.len() && occupied(#[trigger] self.slots@[i]) ==> disp(self.slots@, i) <= r,
            r == 0 || exists|i: int|
                0 <= i < self.slots@.len() && occupied(#[trigger] self.slots@[i]) && disp(self.slots@, i) == r,
    {
        let n = self.slots.len();
        let mut best: usize = 0;
        let mut i: usize = 0;
        while i < n
            invariant
                n == self.slots@.len(),
                0 < n <= MAX_CAPACITY,
                i <= n,
                forall|j: int| 0 <= j < i && occupied(#[trigger] self.slots@[j]) ==> disp(self.slots@, j) <= best,
                best == 0 || exists|j: int|
                    0 <= j < n && occupied(#[trigger] self.slots@[j]) && disp(self.slots@, j) == best,
            decreases n - i,
        {
            let kv = self.slots[i];
            if kv.hash.0 != EMPTY_DIGEST {
                let d = kv.distance(i as u64, n as u64) as usize;
                if d > best {
                    best = d;
                }
            }
            i = i + 1;
        }
        best
    }
}

} // verus!
