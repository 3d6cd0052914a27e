use car_index::auth::Error;
use car_index::builder::{build, initial_capacity, Builder};
use car_index::hash::{Digest, EMPTY_DIGEST};
use car_index::index::Index;
use car_index::key_value_pair::KeyValuePair;
use car_index::layout::{LayoutError, HEADER_LEN, SLOT_LEN};
use car_index::table::{Table, TableError};

fn mix(x: u64) -> u64 {
    let mut z = x.wrapping_add(0x9e37_79b9_7f4a_7c15);
    z = (z ^ (z >> 30)).wrapping_mul(0xbf58_476d_1ce4_e5b9);
    z = (z ^ (z >> 27)).wrapping_mul(0x94d0_49bb_1331_11eb);
    z ^ (z >> 31)
}

fn filled(n: u64) -> Table {
    let mut t = Table::new(1);
    for i in 0..n {
        t.insert(Digest::from(mix(i)), i * 100).unwrap();
    }
    t
}

#[test]
fn bucket_is_digest_mod_len() {
    let kv = KeyValuePair { hash: Digest(13), value: 7 };
    assert_eq!(kv.bucket(4), 1);
    assert_eq!(kv.bucket(13), 0);
    assert_eq!(kv.bucket(100), 13);
}

#[test]
fn distance_wraps_around() {
    let kv = KeyValuePair { hash: Digest(13), value: 7 };
    assert_eq!(kv.distance(1, 4), 0);
    assert_eq!(kv.distance(3, 4), 2);
    assert_eq!(kv.distance(0, 4), 3);
    let kv = KeyValuePair { hash: Digest(6), value: 0 };
    assert_eq!(kv.distance(1, 8), 3);
}

#[test]
fn sentinel_digest_is_reserved() {
    assert_eq!(Digest::from(EMPTY_DIGEST), Digest(EMPTY_DIGEST - 1));
    assert_eq!(Digest::from(42), Digest(42));
    let mut t = Table::new(8);
    assert_eq!(t.insert(Digest(EMPTY_DIGEST), 1), Err(TableError::ReservedDigest));
    assert_eq!(t.len(), 0);
    assert_eq!(t.lookup(EMPTY_DIGEST), None);
}

#[test]
fn concrete_robin_hood_placement() {
    let mut t = Table::new(4);
    t.insert(Digest(1), 10).unwrap();
    t.insert(Digest(5), 20).unwrap();
    t.insert(Digest(2), 30).unwrap();
    assert_eq!(t.capacity(), 4);
    assert_eq!(t.slots[0].hash, Digest(EMPTY_DIGEST));
    assert_eq!(t.slots[1], KeyValuePair { hash: Digest(1), value: 10 });
    assert_eq!(t.slots[1].distance(1, 4), 0);
    assert_eq!(t.slots[2], KeyValuePair { hash: Digest(5), value: 20 });
    assert_eq!(t.slots[2].distance(2, 4), 1);
    assert_eq!(t.slots[3], KeyValuePair { hash: Digest(2), value: 30 });
    assert_eq!(t.slots[3].distance(3, 4), 1);
    assert_eq!(t.lookup(5), Some(20));
    assert_eq!(t.find(5), Some(2));
    assert_eq!(t.max_displacement(), 1);
}

#[test]
fn swap_evicts_less_displaced_resident() {
    let mut t = Table::new(8);
    t.insert(Digest(3), 1).unwrap();
    t.insert(Digest(2), 2).unwrap();
    t.insert(Digest(10), 3).unwrap();
    // 10 has bucket 2 and takes position 3 from 3 (displacement 0), which moves to 4.
    assert_eq!(t.slots[2].hash, Digest(2));
    assert_eq!(t.slots[3].hash, Digest(10));
    assert_eq!(t.slots[4].hash, Digest(3));
    assert_eq!(t.lookup(3), Some(1));
    assert_eq!(t.lookup(10), Some(3));
}

#[test]
fn lookup_on_empty_table_is_none() {
    let t = Table::new(0);
    assert_eq!(t.capacity(), 1);
    assert_eq!(t.lookup(0), None);
    assert_eq!(t.lookup(99), None);
}

#[test]
fn lookup_finds_every_entry_and_nothing_else() {
    let t = filled(500);
    for i in 0..500 {
        assert_eq!(t.lookup(Digest::from(mix(i)).0), Some(i * 100));
    }
    for i in 500..1000 {
        assert_eq!(t.lookup(Digest::from(mix(i)).0), None);
    }
}

#[test]
fn duplicate_digest_is_refused() {
    let mut t = Table::new(8);
    t.insert(Digest(7), 1).unwrap();
    assert_eq!(t.insert(Digest(7), 2), Err(TableError::DuplicateDigest));
    assert_eq!(t.lookup(7), Some(1));
    assert_eq!(t.len(), 1);
}

#[test]
fn growth_keeps_every_entry() {
    let mut t = Table::new(4);
    t.insert(Digest(1), 1).unwrap();
    t.insert(Digest(2), 2).unwrap();
    t.insert(Digest(3), 3).unwrap();
    assert_eq!(t.capacity(), 4);
    t.insert(Digest(4), 4).unwrap();
    assert_eq!(t.capacity(), 8);
    for d in 1..5 {
        assert_eq!(t.lookup(d), Some(d));
    }
    let t = filled(1000);
    assert_eq!(t.len(), 1000);
    assert!(t.len() * 10 <= t.capacity() * 9);
    for i in 0..1000 {
        assert_eq!(t.lookup(Digest::from(mix(i)).0), Some(i * 100));
    }
}

#[test]
fn removal_keeps_remaining_entries() {
    let mut t = filled(300);
    for i in (0..300).step_by(3) {
        assert_eq!(t.remove(Digest::from(mix(i)).0), Some(i * 100));
    }
    assert_eq!(t.len(), 200);
    for i in 0..300 {
        let want = if i % 3 == 0 { None } else { Some(i * 100) };
        assert_eq!(t.lookup(Digest::from(mix(i)).0), want);
    }
    assert_eq!(t.remove(Digest::from(mix(0)).0), None);
    let bytes = t.serialize();
    assert!(Table::deserialize(&bytes).is_ok());
}

#[test]
fn removal_shifts_back_displaced_entries() {
    let mut t = Table::new(8);
    t.insert(Digest(1), 10).unwrap();
    t.insert(Digest(9), 90).unwrap();
    t.insert(Digest(17), 170).unwrap();
    assert_eq!(t.remove(1), Some(10));
    assert_eq!(t.slots[1].hash, Digest(9));
    assert_eq!(t.slots[2].hash, Digest(17));
    assert_eq!(t.slots[3].hash, Digest(EMPTY_DIGEST));
    assert_eq!(t.lookup(17), Some(170));
}

#[test]
fn round_trip_through_layout() {
    let t = filled(700);
    let bytes = t.serialize();
    assert_eq!(bytes.len(), HEADER_LEN + SLOT_LEN * t.capacity());
    let u = Table::deserialize(&bytes).unwrap();
    assert_eq!(u.capacity(), t.capacity());
    assert_eq!(u.len(), 700);
    for i in 0..700 {
        assert_eq!(u.lookup(Digest::from(mix(i)).0), Some(i * 100));
    }
    assert_eq!(u.serialize(), bytes);
}

#[test]
fn layout_header_fields() {
    let mut t = Table::new(4);
    t.insert(Digest(0x0102), 0x0304).unwrap();
    let b = t.serialize();
    assert_eq!(&b[0..8], b"CARINDEX");
    assert_eq!(&b[8..10], &[1, 0]);
    assert_eq!(&b[10..18], &4u64.to_le_bytes());
    assert_eq!(&b[18..26], &1u64.to_le_bytes());
    // digest 0x0102 has bucket 2
    assert_eq!(&b[26 + 32..26 + 40], &0x0102u64.to_le_bytes());
    assert_eq!(&b[26 + 40..26 + 48], &0x0304u64.to_le_bytes());
    assert_eq!(&b[26..34], &u64::MAX.to_le_bytes());
}

#[test]
fn corrupt_magic_is_rejected() {
    let bytes = filled(50).serialize();
    for k in 0..8 {
        let mut bad = bytes.clone();
        bad[k] ^= 0xff;
        assert_eq!(Table::deserialize(&bad).err(), Some(LayoutError::IndexCorrupt));
        assert_eq!(Index::open(&bad).err(), Some(LayoutError::IndexCorrupt));
    }
}

#[test]
fn corrupt_version_and_slots_are_rejected() {
    let bytes = filled(50).serialize();
    let mut bad = bytes.clone();
    bad[8] = 2;
    assert_eq!(Table::deserialize(&bad).err(), Some(LayoutError::IndexCorrupt));
    let mut bad = bytes.clone();
    bad[18] ^= 1;
    assert_eq!(Table::deserialize(&bad).err(), Some(LayoutError::IndexCorrupt));
    let mut bad = bytes.clone();
    bad[10..18].copy_from_slice(&0u64.to_le_bytes());
    assert_eq!(Table::deserialize(&bad).err(), Some(LayoutError::IndexCorrupt));
    // the same digest stored twice
    let mut t = Table::new(8);
    t.insert(Digest(1), 1).unwrap();
    t.insert(Digest(2), 2).unwrap();
    let mut bad = t.serialize();
    let first = bad[26 + 16..26 + 32].to_vec();
    bad[26 + 32..26 + 48].copy_from_slice(&first);
    assert_eq!(Table::deserialize(&bad).err(), Some(LayoutError::IndexCorrupt));
    // an entry past its bucket after an empty slot
    let mut t = Table::new(8);
    t.insert(Digest(1), 1).unwrap();
    let mut bad = t.serialize();
    let first = bad[26 + 16..26 + 32].to_vec();
    bad[26 + 48..26 + 64].copy_from_slice(&first);
    bad[26 + 16..26 + 24].copy_from_slice(&u64::MAX.to_le_bytes());
    assert_eq!(Table::deserialize(&bad).err(), Some(LayoutError::IndexCorrupt));
}

#[test]
fn truncated_layout_is_rejected() {
    let bytes = filled(50).serialize();
    assert_eq!(Table::deserialize(&bytes[..bytes.len() - 1]).err(), Some(LayoutError::IndexTruncated));
    assert_eq!(Table::deserialize(&bytes[..10]).err(), Some(LayoutError::IndexTruncated));
    assert_eq!(Table::deserialize(&[]).err(), Some(LayoutError::IndexTruncated));
    let mut longer = bytes.clone();
    longer.push(0);
    assert_eq!(Table::deserialize(&longer).err(), Some(LayoutError::IndexTruncated));
}

#[test]
fn initial_capacity_follows_load_factor() {
    assert_eq!(initial_capacity(0), 1);
    assert_eq!(initial_capacity(1), 2);
    assert_eq!(initial_capacity(9), 16);
    assert_eq!(initial_capacity(100), 128);
    assert_eq!(initial_capacity(115), 128);
    assert_eq!(initial_capacity(116), 256);
}

#[test]
fn builder_builds_without_resizing() {
    let mut b = Builder::new(100);
    for i in 0..100u64 {
        b.push(Digest::from(mix(i)), i).unwrap();
    }
    let t = b.finish();
    assert_eq!(t.capacity(), 128);
    assert_eq!(t.len(), 100);
    let mut b = Builder::new(0);
    for i in 0..10u64 {
        b.push(Digest(i), i).unwrap();
    }
    assert_eq!(b.finish().lookup(9), Some(9));
}

#[test]
fn build_reports_refused_pairs() {
    let entries: Vec<(Digest, u64)> = (0..20u64).map(|i| (Digest(i * 7), i)).collect();
    let t = build(20, &entries).unwrap();
    assert_eq!(t.lookup(21), Some(3));
    let empty = build(0, &Vec::new()).unwrap();
    assert_eq!(empty.len(), 0);
    let dup = vec![(Digest(1), 1), (Digest(2), 2), (Digest(1), 3)];
    assert_eq!(build(3, &dup).err(), Some(TableError::DuplicateDigest));
    let reserved = vec![(Digest(1), 1), (Digest(EMPTY_DIGEST), 2)];
    assert_eq!(build(2, &reserved).err(), Some(TableError::ReservedDigest));
}

#[test]
fn probe_length_stays_logarithmic() {
    for &n in &[1000u64, 10000, 50000] {
        let t = filled(n);
        let bound = 8 * (64 - n.leading_zeros()) as usize;
        assert!(t.max_displacement() <= bound, "n = {}: {}", n, t.max_displacement());
    }
}

#[test]
fn index_answers_from_persisted_bytes() {
    let entries: Vec<(Digest, u64)> = (0..64u64).map(|i| (Digest::from(mix(i)), 4096 * i)).collect();
    let t = build(64, &entries).unwrap();
    let ix = Index::open(&t.serialize()).unwrap();
    for (d, off) in &entries {
        assert_eq!(ix.get(*d), Some(*off));
    }
    assert_eq!(ix.get(Digest::from(mix(1000))), None);
    let ix = Index::from_table(t);
    assert_eq!(ix.get(entries[5].0), Some(4096 * 5));
}

#[test]
fn auth_error_messages() {
    assert_eq!(Error::MethodParam.message(), "Filecoin method does not exist");
    assert_eq!(Error::InvalidPermissions.message(), "Incorrect permissions to access method");
    assert_eq!(Error::NoAuthHeader.message(), "Missing authentication header");
    assert_eq!(Error::Other("boom".to_string()).message(), "boom");
}
