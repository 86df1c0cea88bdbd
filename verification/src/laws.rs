//! The behavioural laws of the forwarding engine, proved against the pure
//! one-step model [`step`](crate::engine::step) and the table models. Each
//! law is a public proof function whose statement is the property; nothing
//! here is executable.

use vstd::prelude::*;
use vstd::arithmetic::div_mod::{
    lemma_fundamental_div_mod, lemma_fundamental_div_mod_converse_mod, lemma_mod_self_0,
    lemma_small_mod,
};
use crate::affinity::{
    aff_insert, aff_lookup, aff_refresh, aff_remove, lemma_aff_lookup_at,
    lemma_aff_lookup_none_iff, lemma_aff_remove_at, unique_client_keys,
};
use crate::cursor::{
    client_key_of, eth_dst, eth_ether_type, frontend_key_of, ipv4_proto, rewritten, tcp_rst,
    ETHERTYPE_IPV4, ETH_HDR_LEN, ETH_IPV4_TCP_LEN, PROTO_TCP,
};
use crate::engine::{step, Outcome, Verdict};
use crate::types::{Backend, BackendList, ClientKey, Frontend};

verus! {

/// A frame that carries the full Ethernet + IPv4 + TCP header stack the
/// engine routes by.
pub open spec fn full_tcp_frame(p: Seq<u8>) -> bool {
    &&& p.len() >= ETH_IPV4_TCP_LEN as int
    &&& eth_ether_type(p) == ETHERTYPE_IPV4 as int
    &&& ipv4_proto(p) == PROTO_TCP as int
}

/// Every packet whose ether-type is not IPv4 passes, and neither table nor
/// the frame is touched.
pub proof fn lemma_non_ipv4_passes(
    ft: Map<Frontend, BackendList>,
    aff: Seq<(ClientKey, Backend)>,
    cap: int,
    p: Seq<u8>,
)
    requires
        p.len() >= ETH_HDR_LEN as int,
        eth_ether_type(p) != ETHERTYPE_IPV4 as int,
    ensures
        step(ft, aff, cap, p) == (Outcome {
            verdict: Verdict::Pass,
            frontends: ft,
            affinity: aff,
            packet: p,
        }),
{
}

/// A buffer shorter than the Ethernet header always aborts, and neither
/// table nor the frame is touched.
pub proof fn lemma_truncated_aborts(
    ft: Map<Frontend, BackendList>,
    aff: Seq<(ClientKey, Backend)>,
    cap: int,
    p: Seq<u8>,
)
    requires
        p.len() < ETH_HDR_LEN as int,
    ensures
        step(ft, aff, cap, p) == (Outcome {
            verdict: Verdict::Abort,
            frontends: ft,
            affinity: aff,
            packet: p,
        }),
{
}

/// A fresh flow addressed to a frontend with no table entry passes
/// untouched.
pub proof fn lemma_unknown_frontend_passes(
    ft: Map<Frontend, BackendList>,
    aff: Seq<(ClientKey, Backend)>,
    cap: int,
    p: Seq<u8>,
)
    requires
        full_tcp_frame(p),
        aff_lookup(aff, client_key_of(p)) is None,
        !ft.contains_key(frontend_key_of(p)),
    ensures
        step(ft, aff, cap, p) == (Outcome {
            verdict: Verdict::Pass,
            frontends: ft,
            affinity: aff,
            packet: p,
        }),
{
}

/// A fresh flow addressed to a frontend configured with an empty backend
/// pool passes untouched.
pub proof fn lemma_empty_pool_passes(
    ft: Map<Frontend, BackendList>,
    aff: Seq<(ClientKey, Backend)>,
    cap: int,
    p: Seq<u8>,
)
    requires
        full_tcp_frame(p),
        aff_lookup(aff, client_key_of(p)) is None,
        ft.contains_key(frontend_key_of(p)),
        ft[frontend_key_of(p)].backends_len == 0,
    ensures
        step(ft, aff, cap, p) == (Outcome {
            verdict: Verdict::Pass,
            frontends: ft,
            affinity: aff,
            packet: p,
        }),
{
}

/// One pool-path packet: a fresh flow to a configured, non-empty frontend
/// is transmitted to the backend under the normalized rotation cursor; the
/// stored cursor advances by one while the pool itself is untouched; and,
/// absent a reset, the flow's affinity now records exactly that backend.
pub proof fn lemma_pool_rotation_step(
    ft: Map<Frontend, BackendList>,
    aff: Seq<(ClientKey, Backend)>,
    cap: int,
    p: Seq<u8>,
)
    requires
        full_tcp_frame(p),
        aff_lookup(aff, client_key_of(p)) is None,
        ft.contains_key(frontend_key_of(p)),
        ft[frontend_key_of(p)].wf(),
        ft[frontend_key_of(p)].backends_len > 0,
    ensures
        ({
            let fk = frontend_key_of(p);
            let bl = ft[fk];
            let o = step(ft, aff, cap, p);
            &&& o.verdict == Verdict::Transmit
            &&& o.packet == rewritten(p, bl.selected()@)
            &&& bl.selected() == bl.pool()[bl.norm_idx()]
            &&& 0 <= bl.norm_idx() < bl.backends_len as int
            &&& o.frontends == ft.insert(fk, bl.advanced())
            &&& o.frontends[fk].pool() == bl.pool()
            &&& o.frontends[fk].backend_idx == bl.norm_idx() + 1
            &&& !tcp_rst(p) ==> aff_lookup(o.affinity, client_key_of(p)) == Some(bl.selected())
            &&& tcp_rst(p) ==> o.affinity == aff
        }),
{
    let fk = frontend_key_of(p);
    let bl = ft[fk];
    assert(bl.advanced().pool() =~= bl.pool());
    if !tcp_rst(p) {
        let t = aff_insert(aff, client_key_of(p), bl.selected(), cap);
        assert(t[0] == (client_key_of(p), bl.selected()));
    }
}

/// The pool as stored after `k` further rotation steps.
pub open spec fn advance_k(bl: BackendList, k: nat) -> BackendList
    decreases k,
{
    if k == 0 {
        bl
    } else {
        advance_k(bl, (k - 1) as nat).advanced()
    }
}

/// Round robin: starting from a normalized cursor `idx0`, the slot the pool
/// hands to the `k`-th subsequent fresh flow is `(idx0 + k)` modulo the pool
/// size, the stored cursor after `k` packets equals `(idx0 + k)` modulo the
/// pool size as well, and the pool itself never changes.
pub proof fn lemma_round_robin(bl: BackendList, k: nat)
    requires
        bl.wf(),
        bl.backends_len > 0,
    ensures
        advance_k(bl, k).backends == bl.backends,
        advance_k(bl, k).backends_len == bl.backends_len,
        advance_k(bl, k).pool() == bl.pool(),
        advance_k(bl, k).norm_idx() == (bl.norm_idx() + k) % (bl.backends_len as int),
        advance_k(bl, k).selected() == bl.pool()[(bl.norm_idx() + k) % (bl.backends_len as int)],
        k >= 1 ==> advance_k(bl, k).backend_idx as int % (bl.backends_len as int) == (
        bl.norm_idx() + k) % (bl.backends_len as int),
    decreases k,
{
    let len = bl.backends_len as int;
    if k == 0 {
        lemma_fundamental_div_mod_converse_mod(bl.norm_idx(), len, 0, bl.norm_idx());
    } else {
        lemma_round_robin(bl, (k - 1) as nat);
        let prev = advance_k(bl, (k - 1) as nat).norm_idx();
        let a = bl.norm_idx() + k - 1;
        lemma_fundamental_div_mod(a, len);
        let q = a / len;
        assert(advance_k(bl, k).backend_idx as int == prev + 1);
        if prev + 1 < len {
            lemma_fundamental_div_mod_converse_mod(a + 1, len, q, prev + 1);
            lemma_small_mod((prev + 1) as nat, len as nat);
        } else {
            assert((q + 1) * len == q * len + len) by (nonlinear_arith);
            assert(len * q == q * len) by (nonlinear_arith);
            lemma_fundamental_div_mod_converse_mod(a + 1, len, q + 1, 0);
            lemma_mod_self_0(len);
        }
        assert(advance_k(bl, k).pool() =~= bl.pool());
    }
}

/// Affinity stickiness: a non-reset packet from a client with a live
/// affinity entry is transmitted to exactly that entry's backend — whatever
/// the frontend table holds and however its rotation cursors have moved —
/// the entry survives with its recency refreshed, and the frontend table is
/// untouched.
pub proof fn lemma_affinity_sticky(
    ft: Map<Frontend, BackendList>,
    aff: Seq<(ClientKey, Backend)>,
    cap: int,
    p: Seq<u8>,
)
    requires
        full_tcp_frame(p),
        !tcp_rst(p),
        aff_lookup(aff, client_key_of(p)) is Some,
    ensures
        ({
            let ck = client_key_of(p);
            let b = aff_lookup(aff, ck).unwrap();
            let o = step(ft, aff, cap, p);
            &&& o.verdict == Verdict::Transmit
            &&& o.packet == rewritten(p, b@)
            &&& o.frontends == ft
            &&& o.affinity == aff_refresh(aff, ck)
            &&& aff_lookup(o.affinity, ck) == Some(b)
        }),
{
    let ck = client_key_of(p);
    let b = aff_lookup(aff, ck).unwrap();
    assert(aff_refresh(aff, ck)[0] == (ck, b));
}

/// After removing a key from a table with pairwise-distinct keys, the key
/// is gone.
pub proof fn lemma_aff_remove_clears(s: Seq<(ClientKey, Backend)>, k: ClientKey)
    requires
        unique_client_keys(s),
    ensures
        aff_lookup(aff_remove(s, k), k) is None,
    decreases s.len(),
{
    if s.len() > 0 {
        if s[0].0 == k {
            assert forall|i: int| 0 <= i < s.drop_first().len() implies (#[trigger] s.drop_first()[i]).0 != k by {
                assert(s.drop_first()[i] == s[i + 1]);
            }
            lemma_aff_lookup_none_iff(s.drop_first(), k);
        } else {
            assert(forall|i: int|
                0 <= i < s.drop_first().len() ==> #[trigger] s.drop_first()[i] == s[i + 1]);
            lemma_aff_remove_clears(s.drop_first(), k);
            assert((seq![s[0]] + aff_remove(s.drop_first(), k)).drop_first() =~= aff_remove(
                s.drop_first(),
                k,
            ));
        }
    }
}

/// Connection reset: a reset packet from a client with a live affinity
/// entry is still transmitted to that entry's backend, and afterwards the
/// entry is gone, so the client's next packet consults the pool as a new
/// flow.
pub proof fn lemma_reset_ends_flow(
    ft: Map<Frontend, BackendList>,
    aff: Seq<(ClientKey, Backend)>,
    cap: int,
    p: Seq<u8>,
)
    requires
        full_tcp_frame(p),
        tcp_rst(p),
        unique_client_keys(aff),
        aff_lookup(aff, client_key_of(p)) is Some,
    ensures
        ({
            let ck = client_key_of(p);
            let b = aff_lookup(aff, ck).unwrap();
            let o = step(ft, aff, cap, p);
            &&& o.verdict == Verdict::Transmit
            &&& o.packet == rewritten(p, b@)
            &&& o.frontends == ft
            &&& o.affinity == aff_remove(aff, ck)
            &&& aff_lookup(o.affinity, ck) is None
        }),
{
    lemma_aff_remove_clears(aff, client_key_of(p));
}

/// Least-recently-used eviction: inserting a new client into a full table
/// keeps the table full, binds the new client, evicts exactly the
/// least-recently-used (last) entry, and leaves every other binding intact.
pub proof fn lemma_lru_eviction(s: Seq<(ClientKey, Backend)>, k: ClientKey, b: Backend, cap: int)
    requires
        unique_client_keys(s),
        s.len() == cap,
        cap >= 1,
        aff_lookup(s, k) is None,
    ensures
        ({
            let t = aff_insert(s, k, b, cap);
            &&& t.len() == cap
            &&& aff_lookup(t, k) == Some(b)
            &&& aff_lookup(t, s.last().0) is None
            &&& forall|k2: ClientKey|
                k2 != s.last().0 && (#[trigger] aff_lookup(s, k2)) is Some ==> aff_lookup(t, k2)
                    == aff_lookup(s, k2)
        }),
{
    let t = aff_insert(s, k, b, cap);
    lemma_aff_lookup_none_iff(s, k);
    assert(t =~= seq![(k, b)] + s.drop_last());
    assert(t[0] == (k, b));

    // the evicted key appears nowhere else
    assert forall|i: int| 0 <= i < t.len() implies (#[trigger] t[i]).0 != s.last().0 by {
        if i > 0 {
            assert(t[i] == s[i - 1]);
            assert(s[i - 1].0 != s[cap - 1].0);
        }
    }
    lemma_aff_lookup_none_iff(t, s.last().0);

    // every other live binding survives at its old value
    assert forall|k2: ClientKey|
        k2 != s.last().0 && (#[trigger] aff_lookup(s, k2)) is Some implies aff_lookup(t, k2)
            == aff_lookup(s, k2) by {
        lemma_aff_lookup_none_iff(s, k2);
        let j = choose|j: int| 0 <= j < s.len() && (#[trigger] s[j]).0 == k2;
        assert forall|j2: int| 0 <= j2 < j implies (#[trigger] s[j2]).0 != k2 by {
            assert(s[j2].0 != s[j].0);
        }
        lemma_aff_lookup_at(s, k2, j);
        assert(j != cap - 1);
        assert(t[j + 1] == s[j]);
        assert forall|j2: int| 0 <= j2 < j + 1 implies (#[trigger] t[j2]).0 != k2 by {
            if j2 > 0 {
                assert(t[j2] == s[j2 - 1]);
                assert(s[j2 - 1].0 != s[j].0);
            }
        }
        lemma_aff_lookup_at(t, k2, j + 1);
    }
}

/// A lookup counts as a use for recency: after a client's entry is looked
/// up (refreshing it) and a different, new client is then inserted — even
/// into a full table — the looked-up client's binding survives eviction.
pub proof fn lemma_lookup_protects(
    s: Seq<(ClientKey, Backend)>,
    k1: ClientKey,
    k2: ClientKey,
    b2: Backend,
    cap: int,
)
    requires
        unique_client_keys(s),
        s.len() <= cap,
        cap >= 2,
        k2 != k1,
        aff_lookup(s, k1) is Some,
        aff_lookup(s, k2) is None,
    ensures
        aff_lookup(aff_insert(aff_refresh(s, k1), k2, b2, cap), k1) == aff_lookup(s, k1),
{
    let b1 = aff_lookup(s, k1).unwrap();
    let r = aff_refresh(s, k1);
    lemma_aff_lookup_none_iff(s, k1);
    let j = choose|j: int| 0 <= j < s.len() && (#[trigger] s[j]).0 == k1;
    assert forall|j2: int| 0 <= j2 < j implies (#[trigger] s[j2]).0 != k1 by {
        assert(s[j2].0 != s[j].0);
    }
    lemma_aff_lookup_at(s, k1, j);
    lemma_aff_remove_at(s, k1, j);
    assert(r =~= seq![(k1, b1)] + s.remove(j));
    assert(r.len() == s.len());

    // k2 is absent from the refreshed table
    assert forall|i: int| 0 <= i < r.len() implies (#[trigger] r[i]).0 != k2 by {
        if i > 0 {
            let i0 = if i - 1 < j {
                i - 1
            } else {
                i
            };
            assert(r[i] == s[i0]);
            lemma_aff_lookup_none_iff(s, k2);
        }
    }
    lemma_aff_lookup_none_iff(r, k2);

    let t = aff_insert(r, k2, b2, cap);
    if r.len() >= cap {
        assert(t =~= seq![(k2, b2)] + r.drop_last());
        assert(t[1] == r[0]);
        lemma_aff_lookup_at(t, k1, 1);
    } else {
        assert(t =~= seq![(k2, b2)] + r);
        assert(t[1] == r[0]);
        lemma_aff_lookup_at(t, k1, 1);
    }
}

/// The link-layer rewrite, byte for byte: the new destination is the chosen
/// backend, the new source is the frame's previous destination, and every
/// byte from the ether-type on — the whole IPv4/TCP payload included — is
/// unchanged. The frame keeps its length.
pub proof fn lemma_rewrite_round_trip(p: Seq<u8>, b: Seq<u8>)
    requires
        p.len() >= ETH_HDR_LEN as int,
        b.len() == 6,
    ensures
        rewritten(p, b).len() == p.len(),
        rewritten(p, b).subrange(0, 6) == b,
        rewritten(p, b).subrange(6, 12) == eth_dst(p),
        rewritten(p, b).skip(12) == p.skip(12),
{
    assert(rewritten(p, b).subrange(0, 6) =~= b);
    assert(rewritten(p, b).subrange(6, 12) =~= eth_dst(p));
    assert(rewritten(p, b).skip(12) =~= p.skip(12));
}

} // verus!
