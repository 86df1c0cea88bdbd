//! The per-packet forwarding decision engine.
//!
//! One call of [`process_packet`] is one run-to-completion decision: parse
//! the frame with explicit bounds checks, classify it, consult the affinity
//! table, fall back to the frontend pool with round-robin rotation, update
//! both tables, rewrite the frame, and report a verdict. The whole decision
//! is pinned down by the pure one-step model [`step`].

use vstd::prelude::*;
use crate::affinity::{aff_insert, aff_lookup, aff_refresh, aff_remove, AffinityTable};
use crate::affinity::{lemma_aff_lookup_none_iff, lemma_aff_remove_absent};
use crate::cursor::{
    client_key_of, eth_ether_type, frontend_key_of, ipv4_proto, read_be16, read_be32,
    rewrite_ethernet, rewritten, tcp_rst, ETHERTYPE_IPV4, ETH_HDR_LEN, ETH_IPV4_LEN,
    ETH_IPV4_TCP_LEN, PROTO_TCP,
};
use crate::frontend_table::FrontendTable;
use crate::types::{Backend, BackendList, ClientKey, Frontend};

verus! {

/// The per-packet outcome: leave the frame untouched, re-emit the rewritten
/// frame on the interface it arrived on, or reject a frame too short to
/// carry the headers it was routed by.
#[derive(Copy, Clone, Debug, PartialEq, Eq, Structural)]
pub enum Verdict {
    Pass,
    Transmit,
    Abort,
}

/// Everything one engine invocation decides and changes: the verdict, both
/// tables, and the frame itself.
pub struct Outcome {
    pub verdict: Verdict,
    pub frontends: Map<Frontend, BackendList>,
    pub affinity: Seq<(ClientKey, Backend)>,
    pub packet: Seq<u8>,
}

/// The outcome that leaves both tables and the frame unchanged and reports
/// verdict `v`.
pub open spec fn unchanged_with(
    ft: Map<Frontend, BackendList>,
    aff: Seq<(ClientKey, Backend)>,
    p: Seq<u8>,
    v: Verdict,
) -> Outcome {
    Outcome { verdict: v, frontends: ft, affinity: aff, packet: p }
}

/// The forwarding decision as a pure function of the packet and the two
/// tables (`cap` is the affinity table's capacity bound):
///
/// - a frame shorter than a header it was about to read is rejected
///   (`Abort`) with nothing mutated;
/// - non-IPv4 and non-TCP traffic passes untouched;
/// - a client with a live affinity entry is routed to its recorded backend,
///   the entry's recency refreshed, or the entry dropped when the frame
///   carries a connection reset;
/// - otherwise the targeted frontend's pool hands out the backend under the
///   normalized rotation cursor, the cursor advances by one, and the flow's
///   affinity is recorded (or cleared on a reset);
/// - a missing frontend or an empty pool passes the frame untouched.
pub open spec fn step(
    ft: Map<Frontend, BackendList>,
    aff: Seq<(ClientKey, Backend)>,
    cap: int,
    p: Seq<u8>,
) -> Outcome {
    if p.len() < ETH_HDR_LEN as int {
        unchanged_with(ft, aff, p, Verdict::Abort)
    } else if eth_ether_type(p) != ETHERTYPE_IPV4 as int {
        unchanged_with(ft, aff, p, Verdict::Pass)
    } else if p.len() < ETH_IPV4_LEN as int {
        unchanged_with(ft, aff, p, Verdict::Abort)
    } else if ipv4_proto(p) != PROTO_TCP as int {
        unchanged_with(ft, aff, p, Verdict::Pass)
    } else if p.len() < ETH_IPV4_TCP_LEN as int {
        unchanged_with(ft, aff, p, Verdict::Abort)
    } else {
        let ck = client_key_of(p);
        let fk = frontend_key_of(p);
        if aff_lookup(aff, ck) is Some {
            let b = aff_lookup(aff, ck).unwrap();
            Outcome {
                verdict: Verdict::Transmit,
                frontends: ft,
                affinity: if tcp_rst(p) {
                    aff_remove(aff, ck)
                } else {
                    aff_refresh(aff, ck)
                },
                packet: rewritten(p, b@),
            }
        } else if !ft.contains_key(fk) {
            unchanged_with(ft, aff, p, Verdict::Pass)
        } else if ft[fk].backends_len == 0 {
            unchanged_with(ft, aff, p, Verdict::Pass)
        } else {
            let bl = ft[fk];
            let b = bl.selected();
            Outcome {
                verdict: Verdict::Transmit,
                frontends: ft.insert(fk, bl.advanced()),
                affinity: if tcp_rst(p) {
                    aff
                } else {
                    aff_insert(aff, ck, b, cap)
                },
                packet: rewritten(p, b@),
            }
        }
    }
}

/// Decide one packet: the verdict returned, the new table states, and the
/// possibly rewritten frame are exactly those of the pure model [`step`]
/// applied to the old states.
pub fn process_packet(buf: &mut Vec<u8>, fts: &mut FrontendTable, aff: &mut AffinityTable) -> (v:
    Verdict)
    requires
        old(fts).wf(),
        old(aff).wf(),
    ensures
        final(fts).wf(),
        final(aff).wf(),
        final(aff).spec_capacity() == old(aff).spec_capacity(),
        ({
            let o = step(old(fts)@, old(aff)@, old(aff).spec_capacity(), old(buf)@);
            &&& v == o.verdict
            &&& final(fts)@ == o.frontends
            &&& final(aff)@ == o.affinity
            &&& final(buf)@ == o.packet
        }),
{
    if buf.len() < ETH_HDR_LEN {
        return Verdict::Abort;
    }
    let ether_type = read_be16(buf, 12);
    if ether_type != ETHERTYPE_IPV4 {
        return Verdict::Pass;
    }
    if buf.len() < ETH_IPV4_LEN {
        return Verdict::Abort;
    }
    let proto = buf[23];
    if proto != PROTO_TCP {
        return Verdict::Pass;
    }
    if buf.len() < ETH_IPV4_TCP_LEN {
        return Verdict::Abort;
    }

    let source_addr = read_be32(buf, 26);
    let source_port = read_be16(buf, 34);
    let dest_addr = read_be32(buf, 30);
    let dest_port = read_be16(buf, 36);
    let rst = (buf[47] & 0x04u8) != 0;

    let client_key = ClientKey { ip: source_addr, port: source_port as u32 };
    let lb_key = Frontend { ip: dest_addr, port: dest_port as u32 };
    proof {
        assert(client_key == client_key_of(buf@));
        assert(lb_key == frontend_key_of(buf@));
        assert(rst == tcp_rst(buf@));
    }

    // Affinity fast path: an established flow keeps its backend; a reset
    // ends the flow but this final frame is still forwarded to it.
    if let Some(back) = aff.lookup(&client_key) {
        if rst {
            aff.remove(&client_key);
            proof {
                let s = old(aff)@;
                let refreshed = aff_refresh(s, client_key);
                assert(refreshed[0].0 == client_key);
                assert(refreshed.drop_first() =~= aff_remove(s, client_key));
            }
        }
        rewrite_ethernet(buf, &back);
        return Verdict::Transmit;
    }

    // Pool path: pick under the normalized rotation cursor, persist the
    // bumped cursor, and record (or clear, on reset) the flow's affinity.
    match fts.lookup(&lb_key) {
        None => Verdict::Pass,
        Some(backends) => {
            if backends.backends_len == 0 {
                return Verdict::Pass;
            }
            let idx: u16 = if backends.backend_idx < backends.backends_len {
                backends.backend_idx
            } else {
                0
            };
            let backend: Backend = backends.backends[idx as usize];
            proof {
                assert(idx as int == backends.norm_idx());
                assert(backend == backends.selected());
            }

            let updated = BackendList {
                backends: backends.backends,
                backends_len: backends.backends_len,
                backend_idx: idx + 1,
            };
            proof {
                assert(updated == backends.advanced());
            }
            fts.upsert(lb_key, updated);

            if rst {
                proof {
                    lemma_aff_lookup_none_iff(aff@, client_key);
                    lemma_aff_remove_absent(aff@, client_key);
                }
                aff.remove(&client_key);
            } else {
                aff.insert(client_key, backend);
            }
            rewrite_ethernet(buf, &backend);
            Verdict::Transmit
        },
    }
}

} // verus!
