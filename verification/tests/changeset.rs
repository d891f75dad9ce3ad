//! End-to-end tests over the in-memory store: codec round trips, range
//! walks and point lookups, including the adversarial layouts.

use storage_changeset::cursor::MemCursor;
use storage_changeset::layout::{decode_storage, encode_storage, Change};
use storage_changeset::search::{
    do_search_2, find_in_storage_changeset_2, find_without_incarnation_in_storage_changeset_2,
};
use storage_changeset::walker::{walk, walk_collect};

const ADDRESS_LENGTH: usize = 20;

fn addr(last: u8) -> Vec<u8> {
    let mut a = vec![0xAAu8; ADDRESS_LENGTH];
    a[ADDRESS_LENGTH - 1] = last;
    a
}

fn slot(first: u8) -> Vec<u8> {
    let mut s = vec![0u8; 32];
    s[0] = first;
    s
}

fn logical_key(a: &[u8], inc: u64, s: &[u8]) -> Vec<u8> {
    let mut k = a.to_vec();
    k.extend_from_slice(&inc.to_be_bytes());
    k.extend_from_slice(s);
    k
}

fn change(a: &[u8], inc: u64, s: &[u8], value: &[u8]) -> Change {
    Change { key: logical_key(a, inc, s), value: value.to_vec() }
}

/// Encodes each block's changeset and appends the pairs in store order;
/// blocks must come in ascending order, each changeset sorted by key.
fn populate(blocks: &[(u64, Vec<Change>)]) -> MemCursor {
    let mut c = MemCursor::new();
    for (b, changes) in blocks {
        c.append_encoded_changeset(*b, changes, ADDRESS_LENGTH);
    }
    c
}

#[test]
fn codec_round_trip() {
    let a = addr(0x11);
    let k = logical_key(&a, 3, &slot(0x22));
    let v = vec![0xDEu8, 0xAD, 0xBE, 0xEF];
    let changes = vec![Change { key: k.clone(), value: v.clone() }];
    let pairs = encode_storage(5, &changes, ADDRESS_LENGTH);
    assert_eq!(pairs.len(), 1);
    let (sk, sv) = &pairs[0];
    let (block, k2, v2) = decode_storage(sk, sv);
    assert_eq!(block, 5);
    assert_eq!(k2, k);
    assert_eq!(v2, v);
}

#[test]
fn codec_round_trip_empty_value() {
    let a = addr(0x01);
    let k = logical_key(&a, 1, &slot(0x07));
    let changes = vec![Change { key: k.clone(), value: Vec::new() }];
    let pairs = encode_storage(9, &changes, ADDRESS_LENGTH);
    let (sk, sv) = &pairs[0];
    assert_eq!(sv.len(), 32);
    let (block, k2, v2) = decode_storage(sk, sv);
    assert_eq!(block, 9);
    assert_eq!(k2, k);
    assert_eq!(v2, Vec::<u8>::new());
}

#[test]
fn encode_layout_exact() {
    let a = addr(0x11);
    let s = slot(0x42);
    let v = vec![0x99u8, 0x88];
    let changes = vec![change(&a, 7, &s, &v)];
    let pairs = encode_storage(300, &changes, ADDRESS_LENGTH);
    let (sk, sv) = &pairs[0];
    assert_eq!(sk.len(), 8 + ADDRESS_LENGTH + 8);
    assert_eq!(&sk[..8], &300u64.to_be_bytes());
    assert_eq!(&sk[8..8 + ADDRESS_LENGTH], &a[..]);
    assert_eq!(&sk[8 + ADDRESS_LENGTH..], &7u64.to_be_bytes());
    assert_eq!(&sv[..32], &s[..]);
    assert_eq!(&sv[32..], &v[..]);
}

#[test]
fn walk_yields_exactly_the_range_inclusive() {
    let a = addr(0x10);
    let blocks = vec![
        (1u64, vec![change(&a, 1, &slot(1), &[1])]),
        (2u64, vec![change(&a, 1, &slot(2), &[2])]),
        (3u64, vec![change(&a, 1, &slot(3), &[3]), change(&a, 2, &slot(4), &[4])]),
        (4u64, vec![change(&a, 1, &slot(5), &[5])]),
    ];
    let mut c = populate(&blocks);
    let items = walk_collect(&mut c, ADDRESS_LENGTH, 2, 3).unwrap();
    assert_eq!(items.len(), 3);
    assert_eq!(items[0].0, 2);
    assert_eq!(items[0].1, logical_key(&a, 1, &slot(2)));
    assert_eq!(items[0].2, vec![2u8]);
    assert_eq!(items[1].0, 3);
    assert_eq!(items[1].1, logical_key(&a, 1, &slot(3)));
    assert_eq!(items[1].2, vec![3u8]);
    // the upper bound is inclusive: block 3's second entry is still in
    assert_eq!(items[2].0, 3);
    assert_eq!(items[2].1, logical_key(&a, 2, &slot(4)));
    assert_eq!(items[2].2, vec![4u8]);
}

#[test]
fn walk_on_empty_store_yields_nothing() {
    let mut c = MemCursor::new();
    let items = walk_collect(&mut c, ADDRESS_LENGTH, 0, 1000).unwrap();
    assert!(items.is_empty());
}

#[test]
fn walk_past_last_block_yields_nothing() {
    let a = addr(0x10);
    let blocks = vec![(1u64, vec![change(&a, 1, &slot(1), &[1])])];
    let mut c = populate(&blocks);
    let items = walk_collect(&mut c, ADDRESS_LENGTH, 2, 9).unwrap();
    assert!(items.is_empty());
}

#[test]
fn walk_is_pull_based_and_may_stop_early() {
    let a = addr(0x10);
    let blocks = vec![
        (1u64, vec![change(&a, 1, &slot(1), &[1])]),
        (2u64, vec![change(&a, 1, &slot(2), &[2])]),
        (3u64, vec![change(&a, 1, &slot(3), &[3])]),
    ];
    let mut c = populate(&blocks);
    let mut w = walk(&mut c, decode_storage, ADDRESS_LENGTH, 1, 3).unwrap();
    let first = w.next_entry(&mut c).unwrap().unwrap();
    assert_eq!(first.0, 1);
    assert_eq!(first.2, vec![1u8]);
    let second = w.next_entry(&mut c).unwrap().unwrap();
    assert_eq!(second.0, 2);
    // the consumer abandons the walk here; in this synchronous setting the
    // walker and cursor are plain values and dropping them releases all
}

#[test]
fn walk_exhausts_with_a_sentinel() {
    let a = addr(0x10);
    let blocks = vec![(6u64, vec![change(&a, 1, &slot(1), &[1])])];
    let mut c = populate(&blocks);
    let mut w = walk(&mut c, decode_storage, ADDRESS_LENGTH, 6, 6).unwrap();
    assert!(w.next_entry(&mut c).unwrap().is_some());
    assert!(w.next_entry(&mut c).unwrap().is_none());
    assert!(w.next_entry(&mut c).unwrap().is_none());
}

#[test]
fn find_with_known_incarnation() {
    let a = addr(0x20);
    let v1 = vec![0x01u8, 0x11];
    let v2 = vec![0x02u8, 0x22];
    let blocks = vec![
        (7u64, vec![change(&a, 2, &slot(1), &v1), change(&a, 2, &slot(2), &v2)]),
    ];
    let mut c = populate(&blocks);
    let blob1 = logical_key(&a, 2, &slot(1));
    assert_eq!(find_in_storage_changeset_2(&mut c, 7, ADDRESS_LENGTH, &blob1).unwrap(), Some(v1));
    let blob2 = logical_key(&a, 2, &slot(2));
    assert_eq!(find_in_storage_changeset_2(&mut c, 7, ADDRESS_LENGTH, &blob2).unwrap(), Some(v2));
    // any other slot under the same address and incarnation: not found
    let blob3 = logical_key(&a, 2, &slot(3));
    assert_eq!(find_in_storage_changeset_2(&mut c, 7, ADDRESS_LENGTH, &blob3).unwrap(), None);
    // an incarnation with no duplicate-key group at all: not found
    let blob4 = logical_key(&a, 1, &slot(1));
    assert_eq!(find_in_storage_changeset_2(&mut c, 7, ADDRESS_LENGTH, &blob4).unwrap(), None);
    // the wrong block: not found
    let blob5 = logical_key(&a, 2, &slot(1));
    assert_eq!(find_in_storage_changeset_2(&mut c, 8, ADDRESS_LENGTH, &blob5).unwrap(), None);
}

#[test]
fn find_without_incarnation_scans_all_incarnations() {
    let a = addr(0x30);
    let v1 = vec![0x01u8];
    let v2 = vec![0x02u8];
    let blocks = vec![
        (9u64, vec![change(&a, 1, &slot(1), &v1), change(&a, 2, &slot(2), &v2)]),
    ];
    let mut c = populate(&blocks);
    let s1 = slot(1);
    let s2 = slot(2);
    let s3 = slot(3);
    assert_eq!(
        find_without_incarnation_in_storage_changeset_2(&mut c, 9, ADDRESS_LENGTH, &a, &s1)
            .unwrap(),
        Some(v1.clone())
    );
    // the hit sits in the second incarnation group of the address
    assert_eq!(
        find_without_incarnation_in_storage_changeset_2(&mut c, 9, ADDRESS_LENGTH, &a, &s2)
            .unwrap(),
        Some(v2.clone())
    );
    assert_eq!(
        find_without_incarnation_in_storage_changeset_2(&mut c, 9, ADDRESS_LENGTH, &a, &s3)
            .unwrap(),
        None
    );
    // the same lookups through the shared core, incarnation given exactly
    assert_eq!(do_search_2(&mut c, 9, ADDRESS_LENGTH, &a, &s2, 2).unwrap(), Some(v2));
    assert_eq!(do_search_2(&mut c, 9, ADDRESS_LENGTH, &a, &s2, 1).unwrap(), None);
}

#[test]
fn lookups_never_cross_address_or_block_boundaries() {
    // two addresses agreeing on their first 19 bytes, so that one entry's
    // encoded bytes are a byte-prefix of its neighbour's region
    let a1 = addr(0xAA);
    let a2 = addr(0xAB);
    let v_a2 = vec![0x55u8];
    let v_a1 = vec![0x44u8];
    let blocks = vec![
        (11u64, vec![change(&a1, 1, &slot(9), &v_a1), change(&a2, 1, &slot(5), &v_a2)]),
        (12u64, vec![change(&a1, 1, &slot(5), &vec![0x66u8])]),
    ];
    let mut c = populate(&blocks);
    let s5 = slot(5);
    let s9 = slot(9);
    // slot 5 exists at block 11 only under the neighbour address: a lookup
    // under a1 must not slide into a2's entries
    assert_eq!(
        find_without_incarnation_in_storage_changeset_2(&mut c, 11, ADDRESS_LENGTH, &a1, &s5)
            .unwrap(),
        None
    );
    let blob = logical_key(&a1, 1, &s5);
    assert_eq!(find_in_storage_changeset_2(&mut c, 11, ADDRESS_LENGTH, &blob).unwrap(), None);
    // slot 9 exists under a1 only at block 11: a lookup at block 12 must
    // not match it, nor may block 11's lookup reach into block 12
    assert_eq!(
        find_without_incarnation_in_storage_changeset_2(&mut c, 12, ADDRESS_LENGTH, &a1, &s9)
            .unwrap(),
        None
    );
    // a block with no entries for the address at all: the scan lands on a
    // later block's entries for the same address and must refuse them
    let blocks2 = vec![(14u64, vec![change(&addr(0xC0), 1, &slot(6), &vec![0x77u8])])];
    let mut c2 = populate(&blocks2);
    let s6 = slot(6);
    assert_eq!(
        find_without_incarnation_in_storage_changeset_2(&mut c2, 13, ADDRESS_LENGTH, &addr(0xC0),
            &s6)
            .unwrap(),
        None
    );
    assert_eq!(
        find_without_incarnation_in_storage_changeset_2(&mut c2, 14, ADDRESS_LENGTH, &addr(0xC0),
            &s6)
            .unwrap(),
        Some(vec![0x77u8])
    );
}

#[test]
fn concrete_scenario_block_100() {
    let a = vec![0xAAu8; ADDRESS_LENGTH];
    let s = slot(0x01);
    let dead = vec![0xDEu8, 0xAD];
    let blocks = vec![(100u64, vec![change(&a, 1, &s, &dead)])];
    let mut c = populate(&blocks);
    let blob = logical_key(&a, 1, &s);
    assert_eq!(
        find_in_storage_changeset_2(&mut c, 100, ADDRESS_LENGTH, &blob).unwrap(),
        Some(dead.clone())
    );
    let blob_other = logical_key(&a, 1, &slot(0x02));
    assert_eq!(find_in_storage_changeset_2(&mut c, 100, ADDRESS_LENGTH, &blob_other).unwrap(), None);
    let items = walk_collect(&mut c, ADDRESS_LENGTH, 100, 100).unwrap();
    assert_eq!(items.len(), 1);
    assert_eq!(items[0].0, 100);
    assert_eq!(items[0].1, logical_key(&a, 1, &s));
    assert_eq!(items[0].2, dead);
}
