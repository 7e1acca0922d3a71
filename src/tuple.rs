//! Addresses, timestamps and the 3-/5-tuples that identify conversations.

use vstd::prelude::*;

verus! {

/// An IP address, with its version as the discriminant.
#[derive(Clone, Copy, Debug, PartialEq, Eq, Structural)]
pub enum IpAddr {
    V4(u32),
    V6(u128),
}

/// Network-layer identity of a packet: EtherType and addresses.
#[derive(Clone, Copy, Debug, PartialEq, Eq, Structural)]
pub struct ThreeTuple {
    /// Layer 3 protocol (EtherType, e.g. 0x0800 for IPv4)
    pub l3_proto: u16,
    pub src: IpAddr,
    pub dst: IpAddr,
}

/// A directed transport conversation.
#[derive(Clone, Copy, Debug, PartialEq, Eq, Structural)]
pub struct FiveTuple {
    /// Layer 3 protocol (EtherType)
    pub l3_proto: u16,
    pub src: IpAddr,
    pub dst: IpAddr,
    pub src_port: u16,
    pub dst_port: u16,
    /// Layer 4 protocol (IP next header)
    pub l4_proto: u8,
}

impl FiveTuple {
    /// The same conversation seen from the other side.
    pub open spec fn reverse(self) -> FiveTuple {
        FiveTuple {
            l3_proto: self.l3_proto,
            src: self.dst,
            dst: self.src,
            src_port: self.dst_port,
            dst_port: self.src_port,
            l4_proto: self.l4_proto,
        }
    }

    /// `self` and `other` are the same conversation, in either direction.
    pub open spec fn same_flow(self, other: FiveTuple) -> bool {
        self == other || self.reverse() == other
    }

    pub fn get_reverse(&self) -> (r: FiveTuple)
        ensures
            r == self.reverse(),
    {
        FiveTuple {
            l3_proto: self.l3_proto,
            src: self.dst,
            dst: self.src,
            src_port: self.dst_port,
            dst_port: self.src_port,
            l4_proto: self.l4_proto,
        }
    }

    /// The 5-tuple of a packet with network identity `t3`.
    pub open spec fn from_three_tuple_spec(t3: ThreeTuple, src_port: u16, dst_port: u16, l4_proto: u8) -> FiveTuple {
        FiveTuple { l3_proto: t3.l3_proto, src: t3.src, dst: t3.dst, src_port, dst_port, l4_proto }
    }

    pub fn from_three_tuple(t3: &ThreeTuple, src_port: u16, dst_port: u16, l4_proto: u8) -> (r:
        FiveTuple)
        ensures
            r == FiveTuple::from_three_tuple_spec(*t3, src_port, dst_port, l4_proto),
    {
        FiveTuple { l3_proto: t3.l3_proto, src: t3.src, dst: t3.dst, src_port, dst_port, l4_proto }
    }
}

/// Reversing twice gives the tuple back.
pub proof fn lemma_reverse_involutive(t: FiveTuple)
    ensures
        t.reverse().reverse() == t,
        t.same_flow(t.reverse()),
        t.reverse().same_flow(t),
{
}

/// A point in time, or a span of time, in seconds and microseconds.
#[derive(Clone, Copy, Debug, PartialEq, Eq, Structural)]
pub struct Duration {
    pub secs: u64,
    pub micros: u32,
}

impl Duration {
    pub open spec fn wf(self) -> bool {
        self.micros < 1_000_000
    }

    /// The whole value in microseconds.
    pub open spec fn total_micros(self) -> int {
        self.secs * 1_000_000 + self.micros
    }

    pub fn new(secs: u64, micros: u32) -> (r: Duration)
        requires
            micros < 1_000_000,
        ensures
            r.secs == secs,
            r.micros == micros,
            r.wf(),
    {
        Duration { secs, micros }
    }

    pub fn as_micros(&self) -> (r: u128)
        ensures
            r == self.total_micros(),
    {
        assert(self.secs * 1_000_000 <= 0xffff_ffff_ffff_ffffu64 * 1_000_000) by (nonlinear_arith);
        self.secs as u128 * 1_000_000 + self.micros as u128
    }

    /// `self` lies more than `span` after `earlier`.
    pub fn exceeds(&self, earlier: &Duration, span: &Duration) -> (r: bool)
        ensures
            r == (self.total_micros() > earlier.total_micros() + span.total_micros()),
    {
        let a = self.as_micros();
        let b = earlier.as_micros();
        let s = span.as_micros();
        a > b && a - b > s
    }

    /// The later of two instants.
    pub fn later(&self, other: &Duration) -> (r: Duration)
        ensures
            r == *self || r == *other,
            r.total_micros() >= self.total_micros(),
            r.total_micros() >= other.total_micros(),
    {
        if self.as_micros() >= other.as_micros() {
            *self
        } else {
            *other
        }
    }
}

} // verus!
