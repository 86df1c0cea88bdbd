//! Bounds-checked accessors over a raw packet buffer, the byte-level
//! meaning of every header field the engine reads, and the in-place
//! link-layer rewrite.
//!
//! Fixed layout (offsets from the start of the frame): Ethernet header of 14
//! bytes (destination 0..6, source 6..12, ether-type 12..14 big-endian), a
//! 20-byte IPv4 header without options (protocol at 23, source address at
//! 26..30, destination address at 30..34, both big-endian), and a TCP header
//! (source port 34..36, destination port 36..38, flags byte at 47 with the
//! RST bit at 0x04).

use vstd::prelude::*;
use crate::types::{Backend, ClientKey, Frontend};

verus! {

/// Byte length of an Ethernet header.
pub const ETH_HDR_LEN: usize = 14;

/// Byte length of an IPv4 header without options.
pub const IPV4_HDR_LEN: usize = 20;

/// Byte length of a TCP header without options.
pub const TCP_HDR_LEN: usize = 20;

/// Minimum frame length at which the IPv4 header is fully in bounds.
pub const ETH_IPV4_LEN: usize = 34;

/// Minimum frame length at which the TCP header is fully in bounds.
pub const ETH_IPV4_TCP_LEN: usize = 54;

/// The ether-type value that designates an IPv4 payload.
pub const ETHERTYPE_IPV4: u16 = 0x0800;

/// The IPv4 protocol number of TCP.
pub const PROTO_TCP: u8 = 6;

/// The big-endian 16-bit integer stored at byte offset `off`.
pub open spec fn be16(p: Seq<u8>, off: int) -> int {
    p[off] * 0x100 + p[off + 1]
}

/// The big-endian 32-bit integer stored at byte offset `off`.
pub open spec fn be32(p: Seq<u8>, off: int) -> int {
    p[off] * 0x1000000 + p[off + 1] * 0x10000 + p[off + 2] * 0x100 + p[off + 3]
}

/// The frame's Ethernet destination address.
pub open spec fn eth_dst(p: Seq<u8>) -> Seq<u8> {
    p.subrange(0, 6)
}

/// The frame's Ethernet source address.
pub open spec fn eth_src(p: Seq<u8>) -> Seq<u8> {
    p.subrange(6, 12)
}

/// The frame's ether-type, read big-endian.
pub open spec fn eth_ether_type(p: Seq<u8>) -> int {
    be16(p, 12)
}

/// The IPv4 protocol field.
pub open spec fn ipv4_proto(p: Seq<u8>) -> int {
    p[23] as int
}

/// The IPv4 source address in host order.
pub open spec fn ipv4_src(p: Seq<u8>) -> int {
    be32(p, 26)
}

/// The IPv4 destination address in host order.
pub open spec fn ipv4_dst(p: Seq<u8>) -> int {
    be32(p, 30)
}

/// The TCP source port in host order.
pub open spec fn tcp_src_port(p: Seq<u8>) -> int {
    be16(p, 34)
}

/// The TCP destination port in host order.
pub open spec fn tcp_dst_port(p: Seq<u8>) -> int {
    be16(p, 36)
}

/// Whether the TCP RST flag is set.
pub open spec fn tcp_rst(p: Seq<u8>) -> bool {
    p[47] & 0x04u8 != 0
}

/// The client identity carried by a fully parsed frame: IPv4 source address
/// and TCP source port.
pub open spec fn client_key_of(p: Seq<u8>) -> ClientKey {
    ClientKey { ip: ipv4_src(p) as u32, port: tcp_src_port(p) as u32 }
}

/// The frontend identity a fully parsed frame targets: IPv4 destination
/// address and TCP destination port.
pub open spec fn frontend_key_of(p: Seq<u8>) -> Frontend {
    Frontend { ip: ipv4_dst(p) as u32, port: tcp_dst_port(p) as u32 }
}

/// The frame after the link-layer rewrite towards backend `b`: the new
/// destination is `b`, the new source is the frame's previous destination,
/// and every byte from the ether-type on is unchanged.
pub open spec fn rewritten(p: Seq<u8>, b: Seq<u8>) -> Seq<u8> {
    b + p.subrange(0, 6) + p.skip(12)
}

/// Read the big-endian 16-bit field at `off`, checking bounds statically.
pub fn read_be16(buf: &Vec<u8>, off: usize) -> (r: u16)
    requires
        off + 2 <= buf@.len(),
    ensures
        r == be16(buf@, off as int),
{
    let _n = buf.len();
    (buf[off] as u16) * 0x100 + (buf[off + 1] as u16)
}

/// Read the big-endian 32-bit field at `off`, checking bounds statically.
pub fn read_be32(buf: &Vec<u8>, off: usize) -> (r: u32)
    requires
        off + 4 <= buf@.len(),
    ensures
        r == be32(buf@, off as int),
{
    let _n = buf.len();
    (buf[off] as u32) * 0x1000000 + (buf[off + 1] as u32) * 0x10000 + (buf[off + 2] as u32) * 0x100
        + (buf[off + 3] as u32)
}

/// Rewrite the Ethernet header in place for direct server return: the source
/// address becomes the frame's previous destination (so the frame still
/// appears to come from the balancer's interface) and the destination
/// becomes the chosen backend. No other byte of the frame is touched.
pub fn rewrite_ethernet(buf: &mut Vec<u8>, backend: &Backend)
    requires
        old(buf)@.len() >= ETH_HDR_LEN as int,
    ensures
        final(buf)@ == rewritten(old(buf)@, backend@),
{
    let mut i: usize = 0;
    while i < 6
        invariant
            i <= 6,
            buf@.len() == old(buf)@.len() >= 14,
            forall|j: int| 0 <= j < i ==> buf@[j] == backend@[j],
            forall|j: int| 0 <= j < i ==> buf@[6 + j] == old(buf)@[j],
            forall|j: int| i <= j < 6 ==> buf@[j] == old(buf)@[j],
            forall|j: int| i <= j < 6 ==> #[trigger] buf@[6 + j] == old(buf)@[6 + j],
            forall|j: int| 12 <= j < buf@.len() ==> buf@[j] == old(buf)@[j],
        decreases 6 - i,
    {
        let prev_dst_byte = buf[i];
        buf[6 + i] = prev_dst_byte;
        buf[i] = backend[i];
        i += 1;
    }
    proof {
        assert(buf@ =~= rewritten(old(buf)@, backend@));
    }
}

} // verus!
