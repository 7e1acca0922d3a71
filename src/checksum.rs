//! Header checksums, computed by pnet_packet, and the decision that follows.

use vstd::prelude::*;

verus! {

/// The Internet checksum that pnet_packet computes over the IPv4 header at
/// the start of `b` (its checksum field excluded).
pub uninterp spec fn ipv4_checksum_of(b: Seq<u8>) -> u16;

/// The checksum that pnet_packet computes over the ICMP message `b` (its
/// checksum field excluded).
pub uninterp spec fn icmp_checksum_of(b: Seq<u8>) -> u16;

/// The checksum that pnet_packet computes over the ICMPv6 message `b` and
/// the pseudo-header of addresses `src` and `dst` (its checksum field
/// excluded).
pub uninterp spec fn icmpv6_checksum_of(b: Seq<u8>, src: u128, dst: u128) -> u16;

/// Relies on `pnet_packet::ipv4::checksum`, over the header length that the
/// IHL field gives (clamped to `[20, len]`). The length bound keeps its
/// 32-bit running sum from overflowing.
#[verifier::external_body]
pub(crate) fn ipv4_header_checksum(b: &[u8]) -> (r: u16)
    requires
        20 <= b@.len() <= 65535,
    ensures
        r == ipv4_checksum_of(b@),
{
    pnet_packet::ipv4::checksum(&pnet_packet::ipv4::Ipv4Packet::new(b).unwrap())
}

/// Relies on `pnet_packet::icmp::checksum`, over the whole message.
#[verifier::external_body]
pub(crate) fn icmp_message_checksum(b: &[u8]) -> (r: u16)
    requires
        4 <= b@.len() <= 65535,
    ensures
        r == icmp_checksum_of(b@),
{
    pnet_packet::icmp::checksum(&pnet_packet::icmp::IcmpPacket::new(b).unwrap())
}

/// Relies on `pnet_packet::icmpv6::checksum`, over the whole message and the
/// IPv6 pseudo-header.
#[verifier::external_body]
pub(crate) fn icmpv6_message_checksum(b: &[u8], src: u128, dst: u128) -> (r: u16)
    requires
        4 <= b@.len() <= 65535,
    ensures
        r == icmpv6_checksum_of(b@, src, dst),
{
    pnet_packet::icmpv6::checksum(
        &pnet_packet::icmpv6::Icmpv6Packet::new(b).unwrap(),
        &src.into(),
        &dst.into(),
    )
}

/// Which header a checksum mismatch was found in.
#[derive(Clone, Copy, Debug, PartialEq, Eq, Structural)]
pub enum ChecksumKind {
    Ipv4,
    Icmp,
    Icmpv6,
}

/// A warning that the analyzer records without changing how it handles the
/// packet.
#[derive(Clone, Copy, Debug, PartialEq, Eq, Structural)]
pub struct ChecksumMismatch {
    pub kind: ChecksumKind,
    pub pcap_index: usize,
    pub computed: u16,
    pub stored: u16,
}

/// The warning for a header whose stored checksum is `stored` and whose
/// computed checksum is `computed`: one exactly when they differ.
pub fn checksum_warning(kind: ChecksumKind, computed: u16, stored: u16, pcap_index: usize) -> (r:
    Option<ChecksumMismatch>)
    ensures
        r == if computed != stored {
            Some(ChecksumMismatch { kind, pcap_index, computed, stored })
        } else {
            None::<ChecksumMismatch>
        },
{
    if computed != stored {
        Some(ChecksumMismatch { kind, pcap_index, computed, stored })
    } else {
        None
    }
}

} // verus!
