use lb_dr::affinity::AffinityTable;
use lb_dr::cursor::{read_be16, read_be32};
use lb_dr::frontend_table::FrontendTable;
use lb_dr::types::{Backend, BackendList, ClientKey, Frontend, BACKENDS_ARRAY_CAPACITY,
    FRONTEND_TABLE_CAPACITY};

const M1: Backend = [0x30, 0x33, 0x11, 0x11, 0x11, 0x11];
const M2: Backend = [0x30, 0x33, 0x22, 0x22, 0x22, 0x22];
const M3: Backend = [0x30, 0x33, 0x33, 0x33, 0x33, 0x33];

fn ck(ip: u32, port: u32) -> ClientKey {
    ClientKey { ip, port }
}

#[test]
fn backend_list_from_backends() {
    let bl = BackendList::from_backends(&vec![M1, M2]).unwrap();
    assert_eq!(bl.backends_len, 2);
    assert_eq!(bl.backend_idx, 0);
    assert_eq!(bl.backends[0], M1);
    assert_eq!(bl.backends[1], M2);
}

#[test]
fn backend_list_rejects_oversized_pool() {
    let too_many = vec![M1; BACKENDS_ARRAY_CAPACITY + 1];
    assert!(BackendList::from_backends(&too_many).is_none());
    let just_fits = vec![M1; BACKENDS_ARRAY_CAPACITY];
    assert!(BackendList::from_backends(&just_fits).is_some());
}

#[test]
fn frontend_table_upsert_lookup_remove() {
    let mut t = FrontendTable::new();
    let f1 = Frontend { ip: 0x0a000001, port: 80 };
    let f2 = Frontend { ip: 0x0a000002, port: 443 };
    assert!(t.lookup(&f1).is_none());

    let bl1 = BackendList::from_backends(&vec![M1]).unwrap();
    let bl2 = BackendList::from_backends(&vec![M2, M3]).unwrap();
    assert!(t.upsert(f1, bl1));
    assert!(t.upsert(f2, bl2));
    assert_eq!(t.len(), 2);

    let got = t.lookup(&f1).unwrap();
    assert_eq!(got.backends_len, 1);
    assert_eq!(got.backends[0], M1);

    // replacement is wholesale and does not grow the table
    assert!(t.upsert(f1, bl2));
    assert_eq!(t.len(), 2);
    assert_eq!(t.lookup(&f1).unwrap().backends_len, 2);

    t.remove(&f1);
    assert!(t.lookup(&f1).is_none());
    assert!(t.lookup(&f2).is_some());
    assert_eq!(t.len(), 1);
}

#[test]
fn frontend_table_rejects_when_full() {
    let mut t = FrontendTable::new();
    let bl = BackendList::from_backends(&vec![M1]).unwrap();
    for i in 0..FRONTEND_TABLE_CAPACITY {
        assert!(t.upsert(Frontend { ip: i as u32, port: 80 }, bl));
    }
    // a new identity is rejected...
    assert!(!t.upsert(Frontend { ip: 0xffff_ffff, port: 80 }, bl));
    assert_eq!(t.len(), FRONTEND_TABLE_CAPACITY);
    // ...but replacing a present one still succeeds
    assert!(t.upsert(Frontend { ip: 0, port: 80 }, bl));
    assert_eq!(t.len(), FRONTEND_TABLE_CAPACITY);
}

#[test]
fn affinity_lookup_insert_remove() {
    let mut a = AffinityTable::new(8);
    assert_eq!(a.capacity(), 8);
    assert!(a.lookup(&ck(1, 10)).is_none());

    a.insert(ck(1, 10), M1);
    a.insert(ck(2, 20), M2);
    assert_eq!(a.len(), 2);
    assert_eq!(a.lookup(&ck(1, 10)), Some(M1));
    assert_eq!(a.lookup(&ck(2, 20)), Some(M2));

    // re-binding a present key replaces its backend without growing
    a.insert(ck(1, 10), M3);
    assert_eq!(a.len(), 2);
    assert_eq!(a.lookup(&ck(1, 10)), Some(M3));

    a.remove(&ck(1, 10));
    assert!(a.lookup(&ck(1, 10)).is_none());
    assert_eq!(a.len(), 1);

    // removing an absent key is harmless
    a.remove(&ck(9, 9));
    assert_eq!(a.len(), 1);
}

#[test]
fn affinity_evicts_least_recently_used() {
    let mut a = AffinityTable::new(2);
    a.insert(ck(1, 1), M1);
    a.insert(ck(2, 2), M2);
    assert_eq!(a.len(), 2);

    // at capacity: a new client evicts exactly the least-recently-used entry
    a.insert(ck(3, 3), M3);
    assert_eq!(a.len(), 2);
    assert!(a.lookup(&ck(1, 1)).is_none());
    assert_eq!(a.lookup(&ck(2, 2)), Some(M2));
    assert_eq!(a.lookup(&ck(3, 3)), Some(M3));
}

#[test]
fn affinity_lookup_counts_as_use() {
    let mut a = AffinityTable::new(2);
    a.insert(ck(1, 1), M1);
    a.insert(ck(2, 2), M2);

    // looking key 1 up refreshes it, so key 2 is now the LRU entry
    assert_eq!(a.lookup(&ck(1, 1)), Some(M1));
    a.insert(ck(3, 3), M3);
    assert_eq!(a.lookup(&ck(1, 1)), Some(M1));
    assert!(a.lookup(&ck(2, 2)).is_none());
    assert_eq!(a.lookup(&ck(3, 3)), Some(M3));
}

#[test]
fn affinity_full_capacity_churn() {
    let mut a = AffinityTable::new(64);
    for i in 0..200u32 {
        a.insert(ck(i, i), M1);
    }
    assert_eq!(a.len(), 64);
    // only the 64 most recent clients survive
    assert!(a.lookup(&ck(135, 135)).is_none());
    assert!(a.lookup(&ck(136, 136)).is_some());
    assert!(a.lookup(&ck(199, 199)).is_some());
}

#[test]
fn affinity_default_capacity() {
    let a = AffinityTable::with_default_capacity();
    assert_eq!(a.capacity(), lb_dr::types::CONNECTIONS_CAPACITY);
    assert_eq!(a.len(), 0);
}

#[test]
fn big_endian_reads() {
    let buf = vec![0x12u8, 0x34, 0x56, 0x78, 0x9a, 0xbc];
    assert_eq!(read_be16(&buf, 0), 0x1234);
    assert_eq!(read_be16(&buf, 4), 0x9abc);
    assert_eq!(read_be32(&buf, 1), 0x3456789a);
    assert_eq!(read_be32(&buf, 2), 0x56789abc);
}
