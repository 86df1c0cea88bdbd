use lb_dr::affinity::AffinityTable;
use lb_dr::engine::{process_packet, Verdict};
use lb_dr::frontend_table::FrontendTable;
use lb_dr::types::{Backend, BackendList, Frontend};

fn ip(a: u8, b: u8, c: u8, d: u8) -> u32 {
    ((a as u32) << 24) | ((b as u32) << 16) | ((c as u32) << 8) | (d as u32)
}

fn mk_tcp_packet(src_ip: u32, dst_ip: u32, sport: u16, dport: u16, rst: bool) -> Vec<u8> {
    let mut p = vec![0u8; 54];
    // arbitrary link-layer addresses
    for i in 0..6 {
        p[i] = 0xd0 + i as u8; // destination
        p[6 + i] = 0x50 + i as u8; // source
    }
    p[12] = 0x08;
    p[13] = 0x00; // ether-type IPv4
    p[23] = 6; // protocol TCP
    p[26..30].copy_from_slice(&src_ip.to_be_bytes());
    p[30..34].copy_from_slice(&dst_ip.to_be_bytes());
    p[34..36].copy_from_slice(&sport.to_be_bytes());
    p[36..38].copy_from_slice(&dport.to_be_bytes());
    if rst {
        p[47] = 0x04;
    }
    p
}

fn tables_with(
    frontend: Frontend,
    backends: Vec<Backend>,
) -> (FrontendTable, AffinityTable) {
    let mut fts = FrontendTable::new();
    let bl = BackendList::from_backends(&backends).unwrap();
    assert!(fts.upsert(frontend, bl));
    (fts, AffinityTable::new(1024))
}

const B0: Backend = [0xaa, 0xaa, 0xaa, 0xaa, 0xaa, 0xaa];
const B1: Backend = [0xbb, 0xbb, 0xbb, 0xbb, 0xbb, 0xbb];
const B2: Backend = [0xcc, 0xcc, 0xcc, 0xcc, 0xcc, 0xcc];

#[test]
fn non_ipv4_passes_untouched() {
    let fe = Frontend { ip: ip(192, 168, 31, 50), port: 80 };
    let (mut fts, mut aff) = tables_with(fe, vec![B0, B1]);
    let mut p = mk_tcp_packet(ip(10, 0, 0, 5), ip(192, 168, 31, 50), 4000, 80, false);
    p[12] = 0x08;
    p[13] = 0x06; // ARP
    let before = p.clone();
    let v = process_packet(&mut p, &mut fts, &mut aff);
    assert_eq!(v, Verdict::Pass);
    assert_eq!(p, before);
    assert_eq!(aff.len(), 0);
}

#[test]
fn truncated_buffers_always_abort() {
    let fe = Frontend { ip: ip(192, 168, 31, 50), port: 80 };
    let (mut fts, mut aff) = tables_with(fe, vec![B0, B1]);
    for len in 0..14usize {
        for fill in [0x00u8, 0x08, 0xff] {
            let mut p = vec![fill; len];
            let before = p.clone();
            let v = process_packet(&mut p, &mut fts, &mut aff);
            assert_eq!(v, Verdict::Abort);
            assert_eq!(p, before);
            assert_eq!(aff.len(), 0);
        }
    }
}

#[test]
fn short_ipv4_and_tcp_buffers_abort() {
    let fe = Frontend { ip: ip(192, 168, 31, 50), port: 80 };
    let (mut fts, mut aff) = tables_with(fe, vec![B0, B1]);
    let full = mk_tcp_packet(ip(10, 0, 0, 5), ip(192, 168, 31, 50), 4000, 80, false);
    for len in 14..54usize {
        let mut p = full[..len].to_vec();
        let v = process_packet(&mut p, &mut fts, &mut aff);
        assert_eq!(v, Verdict::Abort, "length {}", len);
        assert_eq!(p, full[..len].to_vec());
    }
}

#[test]
fn non_tcp_ipv4_passes() {
    let fe = Frontend { ip: ip(192, 168, 31, 50), port: 80 };
    let (mut fts, mut aff) = tables_with(fe, vec![B0, B1]);
    let mut p = mk_tcp_packet(ip(10, 0, 0, 5), ip(192, 168, 31, 50), 4000, 80, false);
    p[23] = 17; // UDP
    let before = p.clone();
    let v = process_packet(&mut p, &mut fts, &mut aff);
    assert_eq!(v, Verdict::Pass);
    assert_eq!(p, before);
    assert_eq!(aff.len(), 0);
}

#[test]
fn unknown_frontend_passes() {
    let fe = Frontend { ip: ip(192, 168, 31, 50), port: 80 };
    let (mut fts, mut aff) = tables_with(fe, vec![B0, B1]);
    // same address, different port: no frontend configured there
    let mut p = mk_tcp_packet(ip(10, 0, 0, 5), ip(192, 168, 31, 50), 4000, 8080, false);
    let before = p.clone();
    let v = process_packet(&mut p, &mut fts, &mut aff);
    assert_eq!(v, Verdict::Pass);
    assert_eq!(p, before);
    assert_eq!(aff.len(), 0);
}

#[test]
fn empty_pool_passes() {
    let fe = Frontend { ip: ip(192, 168, 31, 50), port: 80 };
    let (mut fts, mut aff) = tables_with(fe, vec![]);
    let mut p = mk_tcp_packet(ip(10, 0, 0, 5), ip(192, 168, 31, 50), 4000, 80, false);
    let before = p.clone();
    let v = process_packet(&mut p, &mut fts, &mut aff);
    assert_eq!(v, Verdict::Pass);
    assert_eq!(p, before);
    assert_eq!(aff.len(), 0);
}

#[test]
fn round_robin_rotation_over_fresh_flows() {
    let fe = Frontend { ip: ip(192, 168, 31, 50), port: 80 };
    let (mut fts, mut aff) = tables_with(fe, vec![B0, B1, B2]);
    let expected = [B0, B1, B2, B0, B1, B2, B0];
    for (k, want) in expected.iter().enumerate() {
        // a fresh client for every packet, so each one consults the pool
        let mut p = mk_tcp_packet(
            ip(10, 0, 1, k as u8),
            ip(192, 168, 31, 50),
            4000 + k as u16,
            80,
            false,
        );
        let v = process_packet(&mut p, &mut fts, &mut aff);
        assert_eq!(v, Verdict::Transmit, "packet {}", k);
        assert_eq!(&p[0..6], want, "packet {} selected backend", k);
    }
}

#[test]
fn rewrite_sets_backend_and_swaps_source() {
    let fe = Frontend { ip: ip(192, 168, 31, 50), port: 80 };
    let (mut fts, mut aff) = tables_with(fe, vec![B0]);
    let mut p = mk_tcp_packet(ip(10, 0, 0, 5), ip(192, 168, 31, 50), 4000, 80, false);
    let before = p.clone();
    let v = process_packet(&mut p, &mut fts, &mut aff);
    assert_eq!(v, Verdict::Transmit);
    assert_eq!(p.len(), before.len());
    // new destination is the selected backend
    assert_eq!(&p[0..6], &B0);
    // new source is the frame's previous destination
    assert_eq!(&p[6..12], &before[0..6]);
    // ether-type on: byte-for-byte unchanged, IPv4/TCP payload included
    assert_eq!(&p[12..], &before[12..]);
}

#[test]
fn affinity_keeps_flow_on_one_backend() {
    let fe = Frontend { ip: ip(192, 168, 31, 50), port: 80 };
    let (mut fts, mut aff) = tables_with(fe, vec![B0, B1, B2]);
    let client = (ip(10, 0, 0, 5), 4000u16);

    // first packet creates the affinity entry
    let mut p = mk_tcp_packet(client.0, ip(192, 168, 31, 50), client.1, 80, false);
    assert_eq!(process_packet(&mut p, &mut fts, &mut aff), Verdict::Transmit);
    assert_eq!(&p[0..6], &B0);
    assert_eq!(aff.len(), 1);

    // rotation advances for other clients in between
    for k in 0..5u8 {
        let mut q = mk_tcp_packet(ip(10, 0, 2, k), ip(192, 168, 31, 50), 5000 + k as u16, 80, false);
        assert_eq!(process_packet(&mut q, &mut fts, &mut aff), Verdict::Transmit);
    }

    // yet the flow stays on its backend
    for _ in 0..3 {
        let mut q = mk_tcp_packet(client.0, ip(192, 168, 31, 50), client.1, 80, false);
        assert_eq!(process_packet(&mut q, &mut fts, &mut aff), Verdict::Transmit);
        assert_eq!(&q[0..6], &B0);
    }
}

#[test]
fn reset_routes_once_more_then_forgets_the_flow() {
    let fe = Frontend { ip: ip(192, 168, 31, 50), port: 80 };
    let (mut fts, mut aff) = tables_with(fe, vec![B0, B1]);
    let client = (ip(10, 0, 0, 5), 4000u16);

    let mut p = mk_tcp_packet(client.0, ip(192, 168, 31, 50), client.1, 80, false);
    assert_eq!(process_packet(&mut p, &mut fts, &mut aff), Verdict::Transmit);
    assert_eq!(&p[0..6], &B0);
    assert_eq!(aff.len(), 1);

    // the reset packet still reaches the affined backend, then the entry is gone
    let mut r = mk_tcp_packet(client.0, ip(192, 168, 31, 50), client.1, 80, true);
    assert_eq!(process_packet(&mut r, &mut fts, &mut aff), Verdict::Transmit);
    assert_eq!(&r[0..6], &B0);
    assert_eq!(aff.len(), 0);

    // the next packet is a new flow: it consults the pool fresh (cursor is at B1)
    let mut q = mk_tcp_packet(client.0, ip(192, 168, 31, 50), client.1, 80, false);
    assert_eq!(process_packet(&mut q, &mut fts, &mut aff), Verdict::Transmit);
    assert_eq!(&q[0..6], &B1);
    assert_eq!(aff.len(), 1);
}

#[test]
fn configured_scenario_two_clients() {
    // frontend 192.168.31.50:80 with backends [AA.., BB..]
    let fe = Frontend { ip: ip(192, 168, 31, 50), port: 80 };
    let (mut fts, mut aff) = tables_with(fe, vec![B0, B1]);

    // packets 1..4 from client 10.0.0.5:4000 all select AA (first via the
    // pool, the rest via affinity)
    for k in 0..4 {
        let mut p = mk_tcp_packet(ip(10, 0, 0, 5), ip(192, 168, 31, 50), 4000, 80, false);
        assert_eq!(process_packet(&mut p, &mut fts, &mut aff), Verdict::Transmit, "packet {}", k);
        assert_eq!(&p[0..6], &B0, "packet {}", k);
    }

    // a second client sending concurrently selects BB on its first packet
    let mut q = mk_tcp_packet(ip(10, 0, 0, 6), ip(192, 168, 31, 50), 5000, 80, false);
    assert_eq!(process_packet(&mut q, &mut fts, &mut aff), Verdict::Transmit);
    assert_eq!(&q[0..6], &B1);
}

#[test]
fn rst_without_affinity_clears_nothing_and_rotates() {
    let fe = Frontend { ip: ip(192, 168, 31, 50), port: 80 };
    let (mut fts, mut aff) = tables_with(fe, vec![B0, B1]);
    // a reset from an unknown client is still forwarded via the pool, but
    // creates no affinity entry
    let mut p = mk_tcp_packet(ip(10, 0, 0, 9), ip(192, 168, 31, 50), 7000, 80, true);
    assert_eq!(process_packet(&mut p, &mut fts, &mut aff), Verdict::Transmit);
    assert_eq!(&p[0..6], &B0);
    assert_eq!(aff.len(), 0);
}

#[test]
fn drifted_cursor_restarts_at_slot_zero() {
    let fe = Frontend { ip: ip(192, 168, 31, 50), port: 80 };
    let mut fts = FrontendTable::new();
    let mut bl = BackendList::from_backends(&vec![B0, B1, B2]).unwrap();
    // a cursor that drifted past the live range, e.g. after the pool shrank
    bl.backend_idx = 7;
    assert!(fts.upsert(fe, bl));
    let mut aff = AffinityTable::new(16);

    let mut p = mk_tcp_packet(ip(10, 0, 0, 5), ip(192, 168, 31, 50), 4000, 80, false);
    assert_eq!(process_packet(&mut p, &mut fts, &mut aff), Verdict::Transmit);
    assert_eq!(&p[0..6], &B0);

    let mut q = mk_tcp_packet(ip(10, 0, 0, 6), ip(192, 168, 31, 50), 5000, 80, false);
    assert_eq!(process_packet(&mut q, &mut fts, &mut aff), Verdict::Transmit);
    assert_eq!(&q[0..6], &B1);
}
