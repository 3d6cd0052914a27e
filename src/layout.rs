use vstd::prelude::*;
use vstd::bytes::{
    spec_u16_from_le_bytes, spec_u16_to_le_bytes, spec_u64_from_le_bytes, spec_u64_to_le_bytes,
    u16_from_le_bytes, u16_to_le_bytes, u64_from_le_bytes, u64_to_le_bytes,
};
use vstd::slice::slice_subrange;
use crate::hash::{spec_bucket, Digest, EMPTY_DIGEST};
use crate::key_value_pair::KeyValuePair;
use crate::table::{
    count_occupied, disp, lemma_bucket_range, lemma_count_bound, occupied, prev_pos, probe_pos,
    robin_hood, slots_agree, unique_digests, Table, MAX_CAPACITY,
};

verus! {

/// Format identifier at the start of every persisted table ("CARINDEX").
pub const MAGIC: u64 = 0x5845_444e_4952_4143;

/// Layout version; raised on every breaking change of the format.
pub const VERSION: u16 = 1;

/// Bytes before the slot array: magic, version, capacity, occupied count.
pub const HEADER_LEN: usize = 26;

/// Bytes per slot: digest then offset, both little-endian.
pub const SLOT_LEN: usize = 16;

/// Why persisted bytes were refused.
#[derive(Debug, Clone, Copy, PartialEq, Eq, Structural)]
pub enum LayoutError {
    /// Wrong magic or version, or slots that do not form a valid table.
    IndexCorrupt,
    /// The byte length does not match the declared capacity.
    IndexTruncated,
}

pub open spec fn encode_slots(s: Seq<KeyValuePair>) -> Seq<u8>
    decreases s.len(),
{
    if s.len() == 0 {
        Seq::empty()
    } else {
        encode_slots(s.drop_last()) + spec_u64_to_le_bytes(s.last().hash.0) + spec_u64_to_le_bytes(
            s.last().value,
        )
    }
}

/// The persisted bytes of a table with slots `s` and `count` occupied slots.
pub open spec fn layout_of(s: Seq<KeyValuePair>, count: u64) -> Seq<u8> {
    spec_u64_to_le_bytes(MAGIC) + spec_u16_to_le_bytes(VERSION) + spec_u64_to_le_bytes(
        s.len() as u64,
    ) + spec_u64_to_le_bytes(count) + encode_slots(s)
}

pub open spec fn u64_at(b: Seq<u8>, at: int) -> u64 {
    spec_u64_from_le_bytes(b.subrange(at, at + 8))
}

pub open spec fn magic_of(b: Seq<u8>) -> u64 {
    u64_at(b, 0)
}

pub open spec fn version_of(b: Seq<u8>) -> u16 {
    spec_u16_from_le_bytes(b.subrange(8, 10))
}

pub open spec fn capacity_of(b: Seq<u8>) -> u64 {
    u64_at(b, 10)
}

pub open spec fn count_of(b: Seq<u8>) -> u64 {
    u64_at(b, 18)
}

/// The slot array that bytes `b` declare.
pub open spec fn decoded_slots(b: Seq<u8>) -> Seq<KeyValuePair> {
    Seq::new(
        capacity_of(b) as nat,
        |i: int|
            KeyValuePair {
                hash: Digest(u64_at(b, HEADER_LEN + SLOT_LEN * i)),
                value: u64_at(b, HEADER_LEN + SLOT_LEN * i + 8),
            },
    )
}

/// Slots and count that form a valid table.
pub open spec fn slots_valid(s: Seq<KeyValuePair>, count: u64) -> bool {
    &&& count == count_occupied(s)
    &&& count < s.len()
    &&& robin_hood(s)
    &&& unique_digests(s)
}

/// Why bytes `b` are refused, if they are.
pub open spec fn parse_error(b: Seq<u8>) -> Option<LayoutError> {
    if b.len() < HEADER_LEN {
        Some(LayoutError::IndexTruncated)
    } else if magic_of(b) != MAGIC || version_of(b) != VERSION {
        Some(LayoutError::IndexCorrupt)
    } else if capacity_of(b) == 0 || capacity_of(b) > MAX_CAPACITY {
        Some(LayoutError::IndexCorrupt)
    } else if b.len() != HEADER_LEN + SLOT_LEN * capacity_of(b) {
        Some(LayoutError::IndexTruncated)
    } else if !slots_valid(decoded_slots(b), count_of(b)) {
        Some(LayoutError::IndexCorrupt)
    } else {
        None
    }
}

/// The entries held by the occupied slots of `s`.
pub open spec fn entries_of(s: Seq<KeyValuePair>) -> Map<u64, u64> {
    Map::new(
        |h: u64| exists|i: int| 0 <= i < s.len() && occupied(#[trigger] s[i]) && s[i].hash.0 == h,
        |h: u64|
            s[choose|i: int| 0 <= i < s.len() && occupied(#[trigger] s[i]) && s[i].hash.0 == h].value,
    )
}

pub proof fn lemma_entries_of(s: Seq<KeyValuePair>, m: Map<u64, u64>)
    requires
        unique_digests(s),
        slots_agree(s, m),
    ensures
        m == entries_of(s),
{
    assert forall|h: u64| #[trigger] m.contains_key(h) implies entries_of(s).contains_key(h) && m[h]
        == entries_of(s)[h] by {
        let i = choose|i: int| 0 <= i < s.len() && occupied(#[trigger] s[i]) && s[i].hash.0 == h;
        let j = choose|j: int| 0 <= j < s.len() && occupied(#[trigger] s[j]) && s[j].hash.0 == h;
        assert(i == j);
    }
    assert(m =~= entries_of(s));
}

pub proof fn lemma_entries_agree(s: Seq<KeyValuePair>)
    requires
        unique_digests(s),
    ensures
        slots_agree(s, entries_of(s)),
{
    let m = entries_of(s);
    assert forall|i: int| 0 <= i < s.len() && occupied(#[trigger] s[i]) implies m.contains_key(s[i].hash.0)
        && m[s[i].hash.0] == s[i].value by {
        let h = s[i].hash.0;
        let j = choose|j: int| 0 <= j < s.len() && occupied(#[trigger] s[j]) && s[j].hash.0 == h;
        assert(i == j);
    }
}

pub proof fn lemma_encode_slots(s: Seq<KeyValuePair>, i: int)
    requires
        0 <= i < s.len(),
    ensures
        encode_slots(s).len() == SLOT_LEN * s.len(),
        encode_slots(s).subrange(SLOT_LEN * i, SLOT_LEN * i + 8) == spec_u64_to_le_bytes(s[i].hash.0),
        encode_slots(s).subrange(SLOT_LEN * i + 8, SLOT_LEN * i + 16) == spec_u64_to_le_bytes(
            s[i].value,
        ),
    decreases s.len(),
{
    vstd::bytes::lemma_auto_spec_u64_to_from_le_bytes();
    lemma_encode_len(s);
    let p = s.drop_last();
    lemma_encode_len(p);
    let a = encode_slots(p);
    let x = spec_u64_to_le_bytes(s.last().hash.0);
    let y = spec_u64_to_le_bytes(s.last().value);
    if i < s.len() - 1 {
        lemma_encode_slots(p, i);
        assert(encode_slots(s).subrange(SLOT_LEN * i, SLOT_LEN * i + 8) =~= a.subrange(
            SLOT_LEN * i,
            SLOT_LEN * i + 8,
        ));
        assert(encode_slots(s).subrange(SLOT_LEN * i + 8, SLOT_LEN * i + 16) =~= a.subrange(
            SLOT_LEN * i + 8,
            SLOT_LEN * i + 16,
        ));
    } else {
        assert(encode_slots(s).subrange(SLOT_LEN * i, SLOT_LEN * i + 8) =~= x);
        assert(encode_slots(s).subrange(SLOT_LEN * i + 8, SLOT_LEN * i + 16) =~= y);
    }
}

pub proof fn lemma_encode_len(s: Seq<KeyValuePair>)
    ensures
        encode_slots(s).len() == SLOT_LEN * s.len(),
    decreases s.len(),
{
    vstd::bytes::lemma_auto_spec_u64_to_from_le_bytes();
    if s.len() > 0 {
        lemma_encode_len(s.drop_last());
    }
}

/// Persisting a valid table and loading the bytes back gives the same slots,
/// count and entries: every stored digest still looks up to its offset.
pub proof fn lemma_round_trip(t: Table)
    requires
        t.wf(),
    ensures
        parse_error(layout_of(t.slots@, t.count as u64)) is None,
        decoded_slots(layout_of(t.slots@, t.count as u64)) == t.slots@,
        count_of(layout_of(t.slots@, t.count as u64)) == t.count,
        entries_of(decoded_slots(layout_of(t.slots@, t.count as u64))) == t@,
{
    let s = t.slots@;
    let b = layout_of(s, t.count as u64);
    vstd::bytes::lemma_auto_spec_u64_to_from_le_bytes();
    vstd::bytes::lemma_auto_spec_u16_to_from_le_bytes();
    lemma_encode_len(s);
    let hm = spec_u64_to_le_bytes(MAGIC);
    let hv = spec_u16_to_le_bytes(VERSION);
    let hc = spec_u64_to_le_bytes(s.len() as u64);
    let hn = spec_u64_to_le_bytes(t.count as u64);
    let body = encode_slots(s);
    assert(b.subrange(0, 8) =~= hm);
    assert(b.subrange(8, 10) =~= hv);
    assert(b.subrange(10, 18) =~= hc);
    assert(b.subrange(18, 26) =~= hn);
    assert(b.subrange(26, b.len() as int) =~= body);
    assert forall|i: int| 0 <= i < s.len() implies #[trigger] decoded_slots(b)[i] == s[i] by {
        lemma_encode_slots(s, i);
        assert(b.subrange(HEADER_LEN + SLOT_LEN * i, HEADER_LEN + SLOT_LEN * i + 8) =~= body.subrange(
            SLOT_LEN * i,
            SLOT_LEN * i + 8,
        ));
        assert(b.subrange(HEADER_LEN + SLOT_LEN * i + 8, HEADER_LEN + SLOT_LEN * i + 16)
            =~= body.subrange(SLOT_LEN * i + 8, SLOT_LEN * i + 16));
    }
    assert(decoded_slots(b) =~= s);
    lemma_entries_of(s, t@);
}

/// Bytes whose magic differs from `MAGIC` are refused as corrupt, whatever
/// else they hold.
pub proof fn lemma_bad_magic_rejected(b: Seq<u8>)
    requires
        b.len() >= HEADER_LEN,
        magic_of(b) != MAGIC,
    ensures
        parse_error(b) == Some(LayoutError::IndexCorrupt),
{
}

fn append_u64(out: &mut Vec<u8>, x: u64)
    ensures
        final(out)@ == old(out)@ + spec_u64_to_le_bytes(x),
{
    let mut b = u64_to_le_bytes(x);
    out.append(&mut b);
}

fn read_u64(b: &[u8], at: usize) -> (r: u64)
    requires
        at + 8 <= b@.len(),
    ensures
        r == u64_at(b@, at as int),
{
    let len = b.len();
    assert(at + 8 <= len);
    u64_from_le_bytes(slice_subrange(b, at, at + 8))
}

impl Table {
    /// The persisted layout: header, then every slot in position order.
    pub fn serialize(&self) -> (r: Vec<u8>)
        requires
            self.wf(),
        ensures
            r@ == layout_of(self.slots@, self.count as u64),
    {
        let s = &self.slots;
        let mut out: Vec<u8> = Vec::new();
        append_u64(&mut out, MAGIC);
        let mut v = u16_to_le_bytes(VERSION);
        out.append(&mut v);
        append_u64(&mut out, s.len() as u64);
        append_u64(&mut out, self.count as u64);
        let ghost head = out@;
        let mut i: usize = 0;
        while i < s.len()
            invariant
                i <= s@.len(),
                s@ == self.slots@,
                out@ == head + encode_slots(s@.subrange(0, i as int)),
            decreases s@.len() - i,
        {
            let kv = s[i];
            append_u64(&mut out, kv.hash.0);
            append_u64(&mut out, kv.value);
            proof {
                assert(s@.subrange(0, i as int + 1).drop_last() =~= s@.subrange(0, i as int));
            }
            i = i + 1;
        }
        proof {
            assert(s@.subrange(0, s@.len() as int) =~= s@);
        }
        out
    }

    /// Loads a persisted layout. The slots are taken as stored, without
    /// rehashing, after checking that they form a valid table.
    pub fn deserialize(b: &[u8]) -> (r: Result<Table, LayoutError>)
        ensures
            match r {
                Ok(t) => parse_error(b@) is None && t.wf() && t.slots@ == decoded_slots(b@) && t.count
                    == count_of(b@) && t@ == entries_of(t.slots@),
                Err(e) => parse_error(b@) == Some(e),
            },
    {
        if b.len() < HEADER_LEN {
            return Err(LayoutError::IndexTruncated);
        }
        let magic = read_u64(b, 0);
        let version = u16_from_le_bytes(slice_subrange(b, 8, 10));
        if magic != MAGIC || version != VERSION {
            return Err(LayoutError::IndexCorrupt);
        }
        let cap64 = read_u64(b, 10);
        let count64 = read_u64(b, 18);
        if cap64 == 0 || cap64 > MAX_CAPACITY as u64 {
            return Err(LayoutError::IndexCorrupt);
        }
        let cap = cap64 as usize;
        if b.len() != HEADER_LEN + SLOT_LEN * cap {
            return Err(LayoutError::IndexTruncated);
        }
        let ghost d = decoded_slots(b@);
        let mut slots: Vec<KeyValuePair> = Vec::with_capacity(cap);
        let mut i: usize = 0;
        while i < cap
            invariant
                cap == capacity_of(b@),
                0 < cap <= MAX_CAPACITY,
                b@.len() == HEADER_LEN + SLOT_LEN * cap,
                d == decoded_slots(b@),
                i <= cap,
                slots@ == d.subrange(0, i as int),
            decreases cap - i,
        {
            let at = HEADER_LEN + SLOT_LEN * i;
            let kv = KeyValuePair { hash: Digest(read_u64(b, at)), value: read_u64(b, at + 8) };
            slots.push(kv);
            proof {
                assert(slots@ =~= d.subrange(0, i as int + 1));
            }
            i = i + 1;
        }
        proof {
            assert(slots@ =~= d);
        }
        let mut count: usize = 0;
        let mut i: usize = 0;
        while i < cap
            invariant
                slots@ == d,
                d.len() == cap,
                i <= cap,
                count == count_occupied(d.subrange(0, i as int)),
            decreases cap - i,
        {
            proof {
                assert(d.subrange(0, i as int + 1).drop_last() =~= d.subrange(0, i as int));
                lemma_count_bound(d.subrange(0, i as int));
            }
            if slots[i].hash.0 != EMPTY_DIGEST {
                count = count + 1;
            }
            i = i + 1;
        }
        proof {
            assert(d.subrange(0, cap as int) =~= d);
        }
        if count as u64 != count64 || count >= cap {
            return Err(LayoutError::IndexCorrupt);
        }
        if !check_order(&slots) || !check_unique(&slots) {
            return Err(LayoutError::IndexCorrupt);
        }
        proof {
            lemma_entries_agree(d);
        }
        Ok(Table { slots, count, entries: Ghost(entries_of(d)) })
    }
}

/// Whether the slots are in Robin Hood order.
fn check_order(slots: &Vec<KeyValuePair>) -> (r: bool)
    requires
        0 < slots@.len() <= MAX_CAPACITY,
    ensures
        r == robin_hood(slots@),
{
    let n = slots.len();
    let ghost s = slots@;
    let mut i: usize = 0;
    while i < n
        invariant
            s == slots@,
            n == s.len(),
            0 < n <= MAX_CAPACITY,
            i <= n,
            forall|j: int|
                0 <= j < i && occupied(#[trigger] s[j]) && disp(s, j) > 0 ==> occupied(
                    s[prev_pos(j, n as int)],
                ) && disp(s, prev_pos(j, n as int)) + 1 >= disp(s, j),
        decreases n - i,
    {
        let kv = slots[i];
        if kv.hash.0 != EMPTY_DIGEST {
            let di = kv.distance(i as u64, n as u64);
            if di > 0 {
                let p = if i > 0 {
                    i - 1
                } else {
                    n - 1
                };
                let prev = slots[p];
                if prev.hash.0 == EMPTY_DIGEST {
                    return false;
                }
                let dp = prev.distance(p as u64, n as u64);
                if dp + 1 < di {
                    return false;
                }
            }
        }
        i = i + 1;
    }
    true
}

/// Whether no digest occurs twice: for each entry, no position on its
/// probe path before it holds the same digest.
fn check_unique(slots: &Vec<KeyValuePair>) -> (r: bool)
    requires
        0 < slots@.len() <= MAX_CAPACITY,
    ensures
        r == unique_digests(slots@),
{
    let n = slots.len();
    let ghost s = slots@;
    let mut i: usize = 0;
    while i < n
        invariant
            s == slots@,
            n == s.len(),
            0 < n <= MAX_CAPACITY,
            i <= n,
            forall|j: int, k: int|
                #![trigger s[j], probe_pos(spec_bucket(s[j].hash.0, n as int), k, n as int)]
                0 <= j < i && occupied(s[j]) && 0 <= k < disp(s, j) ==> s[probe_pos(
                    spec_bucket(s[j].hash.0, n as int),
                    k,
                    n as int,
                )].hash.0 != s[j].hash.0,
        decreases n - i,
    {
        let kv = slots[i];
        if kv.hash.0 != EMPTY_DIGEST {
            let di = kv.distance(i as u64, n as u64) as usize;
            let b = kv.bucket(n as u64) as usize;
            let mut k: usize = 0;
            let mut p: usize = b;
            proof {
                lemma_bucket_range(kv.hash.0, n as int);
            }
            while k < di
                invariant
                    s == slots@,
                    n == s.len(),
                    i < n,
                    kv == s[i as int],
                    occupied(kv),
                    di == disp(s, i as int),
                    b == spec_bucket(kv.hash.0, n as int),
                    b < n,
                    di < n,
                    k <= di,
                    p == probe_pos(b as int, k as int, n as int),
                    p < n,
                    forall|k2: int|
                        0 <= k2 < k ==> s[probe_pos(b as int, k2, n as int)].hash.0 != kv.hash.0,
                decreases di - k,
            {
                if slots[p].hash.0 == kv.hash.0 {
                    proof {
                        assert(p != i);
                        assert(occupied(s[p as int]));
                    }
                    return false;
                }
                k = k + 1;
                p = if p + 1 < n {
                    p + 1
                } else {
                    0
                };
            }
        }
        i = i + 1;
    }
    proof {
        assert forall|x: int, y: int|
            0 <= x < n && 0 <= y < n && x != y && occupied(#[trigger] s[x]) && occupied(#[trigger] s[y])
                implies s[x].hash.0 != s[y].hash.0 by {
            if s[x].hash.0 == s[y].hash.0 {
                let bb = spec_bucket(s[x].hash.0, n as int);
                lemma_bucket_range(s[x].hash.0, n as int);
                assert(probe_pos(bb, disp(s, x), n as int) == x);
                assert(probe_pos(bb, disp(s, y), n as int) == y);
                if disp(s, x) < disp(s, y) {
                    assert(s[probe_pos(bb, disp(s, x), n as int)].hash.0 != s[y].hash.0);
                } else {
                    assert(s[probe_pos(bb, disp(s, y), n as int)].hash.0 != s[x].hash.0);
                }
            }
        }
    }
    true
}

} // verus!
