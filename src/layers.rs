//! Typed views of protocol headers, read from byte buffers.

use vstd::prelude::*;
use crate::bytes::{be16_at, be32_at, read_be16, read_be32};

verus! {

/// Fixed fields of a TCP header.
#[derive(Clone, Copy, Debug, PartialEq, Eq, Structural)]
pub struct TcpHeader {
    pub src_port: u16,
    pub dst_port: u16,
    pub seq: u32,
    pub ack: u32,
    /// The nine flag bits (NS, CWR, ECE, URG, ACK, PSH, RST, SYN, FIN)
    pub flags: u16,
    /// Header length in bytes
    pub header_len: usize,
}

/// Parse a TCP header: `None` when `b` is shorter than 20 bytes or than the
/// header length that its data offset announces, or when that length is below
/// 20. The payload starts at `header_len`.
pub fn parse_tcp(b: &[u8]) -> (r: Option<TcpHeader>)
    ensures
        r.is_some() <==> b@.len() >= 20 && (b@[12] >> 4u8) as int * 4 >= 20 && (b@[12]
            >> 4u8) as int * 4 <= b@.len(),
        r matches Some(h) ==> {
            &&& h.src_port == be16_at(b@, 0)
            &&& h.dst_port == be16_at(b@, 2)
            &&& h.seq == be32_at(b@, 4)
            &&& h.ack == be32_at(b@, 8)
            &&& h.flags == (be16_at(b@, 12) & 0x1ff)
            &&& h.header_len == (b@[12] >> 4u8) as int * 4
        },
{
    if b.len() < 20 {
        return None;
    }
    let header_len = ((b[12] >> 4u8) as usize) * 4;
    if header_len < 20 || header_len > b.len() {
        return None;
    }
    Some(
        TcpHeader {
            src_port: read_be16(b, 0),
            dst_port: read_be16(b, 2),
            seq: read_be32(b, 4),
            ack: read_be32(b, 8),
            flags: read_be16(b, 12) & 0x1ff,
            header_len,
        },
    )
}

pub const ETHERTYPE_IPV4: u16 = 0x0800;
pub const ETHERTYPE_ARP: u16 = 0x0806;
pub const ETHERTYPE_VLAN: u16 = 0x8100;
pub const ETHERTYPE_IPV6: u16 = 0x86dd;
pub const ETHERTYPE_PPP: u16 = 0x880b;
pub const ETHERTYPE_PPPOE_SESSION: u16 = 0x8864;
pub const ETHERTYPE_ERSPAN: u16 = 0x88be;

pub const IPPROTO_HOPOPT: u8 = 0;
pub const IPPROTO_ICMP: u8 = 1;
pub const IPPROTO_IPV4: u8 = 4;
pub const IPPROTO_TCP: u8 = 6;
pub const IPPROTO_UDP: u8 = 17;
pub const IPPROTO_IPV6: u8 = 41;
pub const IPPROTO_IPV6_ROUTE: u8 = 43;
pub const IPPROTO_IPV6_FRAG: u8 = 44;
pub const IPPROTO_GRE: u8 = 47;
pub const IPPROTO_ESP: u8 = 50;
pub const IPPROTO_AH: u8 = 51;
pub const IPPROTO_ICMPV6: u8 = 58;
pub const IPPROTO_IPV6_NONXT: u8 = 59;
pub const IPPROTO_IPV6_OPTS: u8 = 60;
pub const IPPROTO_MOBILITY: u8 = 135;

pub const PPP_IPV4: u16 = 0x0021;
pub const PPP_IPV6: u16 = 0x0057;

pub const VXLAN_PORT: u16 = 4789;

/// Link-layer types that plugins can filter on.
pub const LINKTYPE_ETHERNET: u16 = 1;

/// An Ethernet frame is at least its 14-byte header.
pub const ETHERNET_HEADER_LEN: usize = 14;

/// Ethernet destination addresses of Cisco control protocols, whose
/// EtherType field holds a length.
pub open spec fn is_cisco_control_spec(b: Seq<u8>) -> bool {
    &&& b.len() >= 6
    &&& b[0] == 0x01 && b[1] == 0x00 && b[2] == 0x0c
    &&& ((b[3] == 0xcc && b[4] == 0xcc && b[5] == 0xcc) || (b[3] == 0xcd && b[4] == 0xcd && b[5]
        == 0xd0))
}

pub fn is_cisco_control(b: &[u8]) -> (r: bool)
    ensures
        r == is_cisco_control_spec(b@),
{
    b.len() >= 6 && b[0] == 0x01 && b[1] == 0x00 && b[2] == 0x0c && ((b[3] == 0xcc && b[4] == 0xcc
        && b[5] == 0xcc) || (b[3] == 0xcd && b[4] == 0xcd && b[5] == 0xd0))
}

/// Fields of an IPv4 header.
#[derive(Clone, Copy, Debug, PartialEq, Eq, Structural)]
pub struct Ipv4Header {
    /// Header length in bytes (IHL * 4)
    pub header_len: usize,
    pub total_length: u16,
    pub identification: u16,
    /// More-fragments flag
    pub more_fragments: bool,
    /// Fragment offset in bytes
    pub frag_offset: usize,
    pub proto: u8,
    pub checksum: u16,
    pub src: u32,
    pub dst: u32,
}

/// The IPv4 header fields read from `b` (at least 20 bytes).
pub open spec fn ipv4_spec(b: Seq<u8>) -> Ipv4Header {
    Ipv4Header {
        header_len: ((b[0] & 0x0f) as int * 4) as usize,
        total_length: be16_at(b, 2),
        identification: be16_at(b, 4),
        more_fragments: b[6] & 0x20 != 0,
        frag_offset: ((be16_at(b, 6) & 0x1fff) as int * 8) as usize,
        proto: b[9],
        checksum: be16_at(b, 10),
        src: be32_at(b, 12),
        dst: be32_at(b, 16),
    }
}

/// An IPv4 packet the analyzer goes on with: a full fixed header, and a
/// total length that is 0 (segmentation offload) or at least 20.
pub open spec fn ipv4_valid(b: Seq<u8>) -> bool {
    b.len() >= 20 && (be16_at(b, 2) == 0 || be16_at(b, 2) >= 20)
}

/// An IPv4 packet without Ethernet padding: cut to its total length when
/// that is shorter than what was captured (and not 0).
pub open spec fn ipv4_trimmed(b: Seq<u8>) -> Seq<u8> {
    let tl = be16_at(b, 2) as int;
    if 0 < tl < b.len() {
        b.subrange(0, tl)
    } else {
        b
    }
}

/// Parse an IPv4 header: `None` when `b` is shorter than 20 bytes.
pub fn parse_ipv4(b: &[u8]) -> (r: Option<Ipv4Header>)
    ensures
        r.is_some() <==> b@.len() >= 20,
        r matches Some(h) ==> h == ipv4_spec(b@),
        r matches Some(h) ==> {
            &&& h.header_len == (b@[0] & 0x0f) as int * 4
            &&& h.total_length == be16_at(b@, 2)
            &&& h.identification == be16_at(b@, 4)
            &&& h.more_fragments == (b@[6] & 0x20 != 0)
            &&& h.frag_offset == (be16_at(b@, 6) & 0x1fff) as int * 8
            &&& h.proto == b@[9]
            &&& h.checksum == be16_at(b@, 10)
            &&& h.src == be32_at(b@, 12)
            &&& h.dst == be32_at(b@, 16)
        },
{
    if b.len() < 20 {
        return None;
    }
    Some(
        Ipv4Header {
            header_len: ((b[0] & 0x0f) as usize) * 4,
            total_length: read_be16(b, 2),
            identification: read_be16(b, 4),
            more_fragments: b[6] & 0x20 != 0,
            frag_offset: ((read_be16(b, 6) & 0x1fff) as usize) * 8,
            proto: b[9],
            checksum: read_be16(b, 10),
            src: read_be32(b, 12),
            dst: read_be32(b, 16),
        },
    )
}

/// Fields of the fixed IPv6 header.
#[derive(Clone, Copy, Debug, PartialEq, Eq, Structural)]
pub struct Ipv6Header {
    pub payload_length: u16,
    pub next_header: u8,
    pub src: u128,
    pub dst: u128,
}

/// The big-endian 128-bit value of `b[i..i + 16]`.
pub open spec fn be128_at(b: Seq<u8>, i: int) -> u128 {
    (be32_at(b, i) as int * 0x1_0000_0000_0000_0000_0000_0000 + be32_at(b, i + 4) as int
        * 0x1_0000_0000_0000_0000 + be32_at(b, i + 8) as int * 0x1_0000_0000 + be32_at(b, i + 12)
        as int) as u128
}

fn read_be128(b: &[u8], i: usize) -> (r: u128)
    requires
        i + 16 <= b@.len(),
    ensures
        r == be128_at(b@, i as int),
{
    let n = b.len();
    assert(i + 16 <= n);
    let w0 = read_be32(b, i) as u128;
    let w1 = read_be32(b, i + 4) as u128;
    let w2 = read_be32(b, i + 8) as u128;
    let w3 = read_be32(b, i + 12) as u128;
    w0 * 0x1_0000_0000_0000_0000_0000_0000 + w1 * 0x1_0000_0000_0000_0000 + w2 * 0x1_0000_0000 + w3
}

/// The fixed IPv6 header fields read from `b` (at least 40 bytes).
pub open spec fn ipv6_spec(b: Seq<u8>) -> Ipv6Header {
    Ipv6Header {
        payload_length: be16_at(b, 4),
        next_header: b[6],
        src: be128_at(b, 8),
        dst: be128_at(b, 24),
    }
}

/// What follows the fixed IPv6 header: `payload_length` bytes (or what was
/// captured of them); a payload length of 0 means a jumbogram, whose payload
/// runs to the end.
pub open spec fn ipv6_payload(b: Seq<u8>) -> Seq<u8> {
    let plen = be16_at(b, 4) as int;
    let end = if plen <= b.len() - 40 {
        40 + plen
    } else {
        b.len() as int
    };
    if end == 40 {
        b.subrange(40, b.len() as int)
    } else {
        b.subrange(40, end)
    }
}

/// Walk the IPv6 extension headers from protocol `proto` at the start of `p`:
/// the protocol reached, its bytes, and the fragment header met on the way.
/// `None` when a header is cut short or a second fragment header comes.
pub open spec fn ipv6_walk(proto: u8, p: Seq<u8>, frag: Option<Ipv6Fragment>) -> Option<
    (u8, Seq<u8>, Option<Ipv6Fragment>),
>
    decreases p.len(),
{
    if !is_ipv6_opt_spec(proto) {
        Some((proto, p, frag))
    } else if !(p.len() >= 2 && ipv6_ext_len_spec(proto, p) <= p.len()) {
        None
    } else if proto == IPPROTO_IPV6_FRAG && frag is Some {
        None
    } else {
        let n = ipv6_ext_len_spec(proto, p);
        let f2 = if proto == IPPROTO_IPV6_FRAG {
            Some(ipv6_frag_spec(p))
        } else {
            frag
        };
        if n >= 8 {
            ipv6_walk(p[0], p.subrange(n, p.len() as int), f2)
        } else {
            None
        }
    }
}

/// Parse the fixed IPv6 header: `None` when `b` is shorter than 40 bytes.
pub fn parse_ipv6(b: &[u8]) -> (r: Option<Ipv6Header>)
    ensures
        r.is_some() <==> b@.len() >= 40,
        r matches Some(h) ==> h == ipv6_spec(b@),
        r matches Some(h) ==> {
            &&& h.payload_length == be16_at(b@, 4)
            &&& h.next_header == b@[6]
            &&& h.src == be128_at(b@, 8)
            &&& h.dst == be128_at(b@, 24)
        },
{
    if b.len() < 40 {
        return None;
    }
    Some(
        Ipv6Header {
            payload_length: read_be16(b, 4),
            next_header: b[6],
            src: read_be128(b, 8),
            dst: read_be128(b, 24),
        },
    )
}

/// IPv6 extension headers that the dispatcher walks over.
pub open spec fn is_ipv6_opt_spec(p: u8) -> bool {
    p == IPPROTO_HOPOPT || p == IPPROTO_IPV6_OPTS || p == IPPROTO_IPV6_ROUTE || p
        == IPPROTO_IPV6_FRAG || p == IPPROTO_ESP || p == IPPROTO_AH || p == IPPROTO_MOBILITY
}

pub fn is_ipv6_opt(p: u8) -> (r: bool)
    ensures
        r == is_ipv6_opt_spec(p),
{
    p == IPPROTO_HOPOPT || p == IPPROTO_IPV6_OPTS || p == IPPROTO_IPV6_ROUTE || p
        == IPPROTO_IPV6_FRAG || p == IPPROTO_ESP || p == IPPROTO_AH || p == IPPROTO_MOBILITY
}

/// Length in bytes of an IPv6 extension header of type `proto` at the start
/// of `b`: 8 for a fragment header, `(len + 2) * 4` for AH, `(len + 1) * 8`
/// otherwise, where `len` is its second byte.
pub open spec fn ipv6_ext_len_spec(proto: u8, b: Seq<u8>) -> int {
    if proto == IPPROTO_IPV6_FRAG {
        8
    } else if proto == IPPROTO_AH {
        (b[1] as int + 2) * 4
    } else {
        (b[1] as int + 1) * 8
    }
}

/// The length of the extension header at the start of `b`, or `None` if `b`
/// does not hold all of it.
pub fn ipv6_ext_len(proto: u8, b: &[u8]) -> (r: Option<usize>)
    ensures
        r.is_some() <==> b@.len() >= 2 && ipv6_ext_len_spec(proto, b@) <= b@.len(),
        r matches Some(n) ==> n == ipv6_ext_len_spec(proto, b@) && n >= 8,
{
    if b.len() < 2 {
        return None;
    }
    let n: usize = if proto == IPPROTO_IPV6_FRAG {
        8
    } else if proto == IPPROTO_AH {
        (b[1] as usize + 2) * 4
    } else {
        (b[1] as usize + 1) * 8
    };
    if n > b.len() {
        return None;
    }
    Some(n)
}

/// Fields of an IPv6 fragment extension header.
#[derive(Clone, Copy, Debug, PartialEq, Eq, Structural)]
pub struct Ipv6Fragment {
    /// Fragment offset in bytes
    pub offset: usize,
    pub more_fragments: bool,
    pub id: u32,
}

/// The fragment header fields read from `b` (at least 8 bytes).
pub open spec fn ipv6_frag_spec(b: Seq<u8>) -> Ipv6Fragment {
    Ipv6Fragment {
        offset: ((be16_at(b, 2) >> 3u16) as int * 8) as usize,
        more_fragments: b[3] & 1 != 0,
        id: be32_at(b, 4),
    }
}

pub fn parse_ipv6_frag(b: &[u8]) -> (r: Ipv6Fragment)
    requires
        b@.len() >= 8,
    ensures
        r == ipv6_frag_spec(b@),
        r.offset == (be16_at(b@, 2) >> 3u16) as int * 8,
        r.more_fragments == (b@[3] & 1 != 0),
        r.id == be32_at(b@, 4),
{
    Ipv6Fragment {
        offset: ((read_be16(b, 2) >> 3u16) as usize) * 8,
        more_fragments: b[3] & 1 != 0,
        id: read_be32(b, 4),
    }
}

/// Where the payload of a GRE packet starts: after the 4-byte base header
/// and the optional checksum, key and sequence words; for PPTP's enhanced
/// GRE (protocol 0x880b), after 8 bytes, the sequence word and the
/// acknowledgment word. `None` for source-routed packets and when `b` is
/// too short.
pub open spec fn gre_offset_spec(b: Seq<u8>) -> int {
    if be16_at(b, 2) == ETHERTYPE_PPP {
        8 + (if b[0] & 0x10 != 0 {
            4int
        } else {
            0
        }) + (if b[1] >> 7u8 != 0 {
            4int
        } else {
            0
        })
    } else {
        4 + (if b[0] & 0x80 != 0 {
            4int
        } else {
            0
        }) + (if b[0] & 0x20 != 0 {
            4int
        } else {
            0
        }) + (if b[0] & 0x10 != 0 {
            4int
        } else {
            0
        })
    }
}

pub fn gre_payload_offset(b: &[u8]) -> (r: Option<usize>)
    ensures
        r.is_some() <==> b@.len() >= 4 && b@[0] & 0x40 == 0 && gre_offset_spec(b@) <= b@.len(),
        r matches Some(n) ==> n == gre_offset_spec(b@),
{
    if b.len() < 4 || b[0] & 0x40 != 0 {
        return None;
    }
    let mut off: usize;
    if read_be16(b, 2) == ETHERTYPE_PPP {
        off = 8;
        if b[0] & 0x10 != 0 {
            off = off + 4;
        }
        if b[1] >> 7u8 != 0 {
            off = off + 4;
        }
    } else {
        off = 4;
        if b[0] & 0x80 != 0 {
            off = off + 4;
        }
        if b[0] & 0x20 != 0 {
            off = off + 4;
        }
        if b[0] & 0x10 != 0 {
            off = off + 4;
        }
    }
    if off > b.len() {
        return None;
    }
    Some(off)
}

} // verus!
