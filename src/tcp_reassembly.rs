//! TCP stream reassembly: per-direction sequence tracking, ordered segment
//! queues, and ACK-driven delivery.

use vstd::prelude::*;
use crate::seq::{
    seq_add, seq_advance, seq_before, seq_dist, seq_lt, seq_modulus, seq_sub, lemma_advance_twice,
    lemma_advance_dist, lemma_dist_add, lemma_dist_advance, lemma_dist_shrink,
};
use crate::bytes::copy_bytes;
use crate::flow::{Flow, FlowID};
use crate::layers::TcpHeader;
use crate::tuple::{Duration, IpAddr};

verus! {

pub const TCP_FIN: u16 = 0x01;
pub const TCP_SYN: u16 = 0x02;
pub const TCP_RST: u16 = 0x04;
pub const TCP_PSH: u16 = 0x08;
pub const TCP_ACK: u16 = 0x10;
pub const TCP_URG: u16 = 0x20;

/// Largest payload a queued segment may carry: less than half the sequence
/// space, so that sequence comparisons stay meaningful.
pub const MAX_SEGMENT_DATA: usize = 0x7fff_fff0;

#[derive(Clone, Copy, Debug, PartialEq, Eq, Structural)]
pub enum TcpStatus {
    Closed,
    Listen,
    SynSent,
    SynRcv,
    Established,
    Closing,
    CloseWait,
    FinWait1,
    FinWait2,
    LastAck,
    TimeWait,
}

impl Default for TcpStatus {
    fn default() -> (r: TcpStatus)
        ensures
            r == TcpStatus::Closed,
    {
        TcpStatus::Closed
    }
}

pub struct TcpSegment {
    pub rel_seq: u32,
    pub rel_ack: u32,
    pub flags: u16,
    pub data: Vec<u8>,
    pub pcap_index: usize,
}

pub open spec fn has_flag(flags: u16, f: u16) -> bool {
    flags & f != 0
}

/// Sequence space taken by a segment: its data, plus one for a FIN.
pub open spec fn seg_span(s: TcpSegment) -> int {
    s.data@.len() + if has_flag(s.flags, TCP_FIN) {
        1int
    } else {
        0int
    }
}

/// `c` carries bytes of `o`, at the sequence numbers where `o` had them.
pub open spec fn slice_at(c: TcpSegment, o: TcpSegment, off: int) -> bool {
    &&& 0 <= off
    &&& off + c.data@.len() <= o.data@.len()
    &&& c.rel_seq == seq_advance(o.rel_seq, off)
    &&& c.data@ == o.data@.subrange(off, off + c.data@.len())
    &&& c.pcap_index == o.pcap_index
}

/// `c` carries bytes that one of the segments of `q` had, at the same place.
pub open spec fn taken_from(c: TcpSegment, q: Seq<TcpSegment>) -> bool {
    exists|j: int, off: int| 0 <= j < q.len() && #[trigger] slice_at(c, q[j], off)
}

/// A segment the queues may hold: it takes sequence space, and less than half
/// of it.
pub open spec fn seg_ok(s: TcpSegment) -> bool {
    &&& s.data@.len() <= MAX_SEGMENT_DATA
    &&& seg_span(s) > 0
}

pub struct TcpPeer {
    /// Initial Seq number (absolute)
    pub isn: u32,
    /// Initial Ack number (absolute)
    pub ian: u32,
    /// Next Seq number
    pub next_rel_seq: u32,
    /// Last acknowledged number
    pub last_rel_ack: u32,
    /// Connection state
    pub status: TcpStatus,
    /// The current list of segments (ordered by rel_seq)
    pub segments: Vec<TcpSegment>,
    /// host address
    pub addr: IpAddr,
    pub port: u16,
}

impl TcpPeer {
    pub open spec fn wf(&self) -> bool {
        forall|i: int| 0 <= i < self.segments@.len() ==> seg_ok(#[trigger] self.segments@[i])
    }

    pub fn new(addr: &IpAddr, port: u16) -> (r: TcpPeer)
        ensures
            r.wf(),
            r.isn == 0,
            r.ian == 0,
            r.next_rel_seq == 0,
            r.last_rel_ack == 0,
            r.status == TcpStatus::Closed,
            r.segments@.len() == 0,
            r.addr == *addr,
            r.port == port,
    {
        TcpPeer {
            isn: 0,
            ian: 0,
            next_rel_seq: 0,
            last_rel_ack: 0,
            status: TcpStatus::Closed,
            segments: Vec::new(),
            addr: *addr,
            port,
        }
    }

    /// Insert `s` before the first queued segment whose sequence number comes
    /// after it (in wrapping order), or at the end.
    fn insert_sorted(&mut self, s: TcpSegment)
        ensures
            exists|i: int|
                #![trigger old(self).segments@.insert(i, s)]
                sorted_position(old(self).segments@, s, i) && final(self).segments@ == old(
                    self,
                ).segments@.insert(i, s),
            final(self).isn == old(self).isn,
            final(self).ian == old(self).ian,
            final(self).next_rel_seq == old(self).next_rel_seq,
            final(self).last_rel_ack == old(self).last_rel_ack,
            final(self).status == old(self).status,
            final(self).addr == old(self).addr,
            final(self).port == old(self).port,
    {
        let mut i: usize = 0;
        let n = self.segments.len();
        let mut found = false;
        while i < n && !found
            invariant
                n == self.segments@.len(),
                self.segments@ == old(self).segments@,
                0 <= i <= n,
                forall|k: int| 0 <= k < i ==> !seq_before(s.rel_seq, #[trigger] self.segments@[k].rel_seq),
                found ==> i < n && seq_before(s.rel_seq, self.segments@[i as int].rel_seq),
            decreases n - i, (if found { 0int } else { 1int }),
        {
            if seq_lt(s.rel_seq, self.segments[i].rel_seq) {
                found = true;
            } else {
                i = i + 1;
            }
        }
        let ghost pos = i as int;
        self.segments.insert(i, s);
        assert(self.segments@ == old(self).segments@.insert(pos, s));
        assert(sorted_position(old(self).segments@, s, pos));
    }
}

/// `i` is where `s` goes in `q`: after every segment that does not come
/// after it, before the first that does (in wrapping sequence order).
pub open spec fn sorted_position(q: Seq<TcpSegment>, s: TcpSegment, i: int) -> bool {
    &&& 0 <= i <= q.len()
    &&& forall|k: int| 0 <= k < i ==> !seq_before(s.rel_seq, #[trigger] q[k].rel_seq)
    &&& i < q.len() ==> seq_before(s.rel_seq, q[i].rel_seq)
}

/// `new` is `old` with `segment` queued, if it is one the queues hold.
pub open spec fn queued(old: TcpPeer, new: TcpPeer, segment: TcpSegment) -> bool {
    &&& new.wf()
    &&& !seg_ok(segment) ==> new == old
    &&& seg_ok(segment) ==> exists|i: int|
        #![trigger old.segments@.insert(i, segment)]
        sorted_position(old.segments@, segment, i) && new.segments@ == old.segments@.insert(i, segment)
    &&& new.isn == old.isn
    &&& new.ian == old.ian
    &&& new.next_rel_seq == old.next_rel_seq
    &&& new.last_rel_ack == old.last_rel_ack
    &&& new.status == old.status
    &&& new.addr == old.addr
    &&& new.port == old.port
}

/// Queue a segment on `peer`. Segments that take no sequence space (no data
/// and no FIN) are not stored, nor are oversized ones.
pub fn queue_segment(peer: &mut TcpPeer, segment: TcpSegment)
    requires
        old(peer).wf(),
    ensures
        queued(*old(peer), *final(peer), segment),
{
    let fin = segment.flags & TCP_FIN != 0;
    if segment.data.len() == 0 && !fin {
        return;
    }
    if segment.data.len() > MAX_SEGMENT_DATA {
        return;
    }
    proof {
        assert(seg_ok(segment));
    }
    let ghost s = segment;
    peer.insert_sorted(segment);
    proof {
        let i = choose|i: int|
            #![trigger old(peer).segments@.insert(i, s)]
            sorted_position(old(peer).segments@, s, i) && peer.segments@ == old(peer).segments@.insert(i, s);
        assert forall|k: int| 0 <= k < peer.segments@.len() implies seg_ok(
            #[trigger] peer.segments@[k],
        ) by {
            if k < i {
                assert(peer.segments@[k] == old(peer).segments@[k]);
            } else if k > i {
                assert(peer.segments@[k] == old(peer).segments@[k - 1]);
            }
        }
    }
}

} // verus!

verus! {

/// Chunks handed out one after the other: each takes sequence space, each
/// starts at or after the end of the one before it (no byte twice, no
/// reordering), and all lie within `limit` of `base`.
pub open spec fn delivered_in_order(d: Seq<TcpSegment>, base: u32, limit: int) -> bool {
    &&& forall|k: int|
        0 <= k < d.len() ==> seg_span(#[trigger] d[k]) > 0 && seq_dist(base, d[k].rel_seq)
            + seg_span(d[k]) <= limit
    &&& forall|k: int, l: int|
        0 <= k < l < d.len() ==> seq_dist(base, (#[trigger] d[k]).rel_seq) + seg_span(d[k])
            <= seq_dist(base, (#[trigger] d[l]).rel_seq)
}

/// Dropping the first `k` bytes of a slice gives a slice further along.
proof fn lemma_slice_tail(c: TcpSegment, o: TcpSegment, off: int, k: int, t: TcpSegment)
    requires
        slice_at(c, o, off),
        0 <= k <= c.data@.len(),
        o.data@.len() <= MAX_SEGMENT_DATA,
        t.data@ == c.data@.subrange(k, c.data@.len() as int),
        t.rel_seq == seq_advance(c.rel_seq, k),
        t.pcap_index == c.pcap_index,
    ensures
        slice_at(t, o, off + k),
{
    lemma_advance_twice(o.rel_seq, off, k);
    assert(t.data@ =~= o.data@.subrange(off + k, off + k + t.data@.len()));
}

/// Keeping the first `k` bytes of a slice gives a slice at the same place.
proof fn lemma_slice_head(c: TcpSegment, o: TcpSegment, off: int, k: int, t: TcpSegment)
    requires
        slice_at(c, o, off),
        0 <= k <= c.data@.len(),
        t.data@ == c.data@.subrange(0, k),
        t.rel_seq == c.rel_seq,
        t.pcap_index == c.pcap_index,
    ensures
        slice_at(t, o, off),
{
    assert(t.data@ =~= o.data@.subrange(off, off + t.data@.len()));
}

proof fn lemma_fin_or_rst(f: u16)
    ensures
        (f & (TCP_FIN | TCP_RST) != 0) == (has_flag(f, TCP_FIN) || has_flag(f, TCP_RST)),
{
    assert((f & (0x01u16 | 0x04u16) != 0) == (f & 0x01u16 != 0 || f & 0x04u16 != 0)) by (bit_vector);
}

proof fn lemma_clear_fin(f: u16)
    ensures
        !has_flag(f & !TCP_FIN, TCP_FIN),
{
    assert((f & !0x01u16) & 0x01u16 == 0) by (bit_vector);
}

/// The sequence number just after segment `s`.
pub open spec fn seg_end(s: TcpSegment) -> u32 {
    seq_advance(s.rel_seq, seg_span(s))
}

/// The segments of `q`, in queue order, follow each other from `n` without
/// hole or overlap.
pub open spec fn contiguous_from(q: Seq<TcpSegment>, n: u32) -> bool {
    &&& q.len() > 0 ==> q[0].rel_seq == n
    &&& forall|i: int| 0 <= i < q.len() - 1 ==> #[trigger] seg_end(q[i]) == q[i + 1].rel_seq
}

/// The sequence space that the segments of `q` take, together.
pub open spec fn spans(q: Seq<TcpSegment>) -> int
    decreases q.len(),
{
    if q.len() == 0 {
        0
    } else {
        spans(q.drop_last()) + seg_span(q.last())
    }
}

/// Delivery from a queue `q` that runs on from `n0` without holes, on ACK
/// `a`: the first segments are handed out whole, in queue order (`d`), up to
/// the ACK; a segment that the ACK covers only in part is handed out up to
/// the ACK and its rest stays queued, at the ACK, with its `pcap_index`.
#[verifier::opaque]
pub open spec fn contiguous_delivery(q: Seq<TcpSegment>, n0: u32, a: u32, d: Seq<TcpSegment>, new: TcpPeer) -> bool {
    let m = d.len() as int;
    &&& m <= q.len()
    &&& if spans(q.subrange(0, m)) <= seq_dist(n0, a) {
        &&& forall|i: int| 0 <= i < m ==> #[trigger] d[i] == q[i]
        &&& new.segments@ == q.subrange(m, q.len() as int)
        &&& new.next_rel_seq == seq_advance(n0, spans(q.subrange(0, m)))
        &&& (m == q.len() || new.next_rel_seq == a)
    } else {
        &&& m > 0
        &&& forall|i: int| 0 <= i < m - 1 ==> #[trigger] d[i] == q[i]
        &&& d[m - 1].rel_seq == q[m - 1].rel_seq
        &&& d[m - 1].pcap_index == q[m - 1].pcap_index
        &&& d[m - 1].data@ == q[m - 1].data@.subrange(0, d[m - 1].data@.len() as int)
        &&& new.next_rel_seq == a
        &&& new.segments@.len() == q.len() - m + 1
        &&& new.segments@[0].rel_seq == a
        &&& new.segments@[0].pcap_index == q[m - 1].pcap_index
        &&& new.segments@[0].data@ == q[m - 1].data@.subrange(
            d[m - 1].data@.len() as int,
            q[m - 1].data@.len() as int,
        )
        &&& new.segments@.subrange(1, new.segments@.len() as int) == q.subrange(m, q.len() as int)
    }
}

/// While delivering from a queue without holes: `m` whole segments were
/// handed out (after `out0`), the rest is queued, and `n` is after them.
#[verifier::opaque]
pub open spec fn contig_state(
    q0: Seq<TcpSegment>,
    n0: u32,
    out0: Seq<TcpSegment>,
    out: Seq<TcpSegment>,
    segs: Seq<TcpSegment>,
    n: u32,
) -> bool {
    let m = out.len() - out0.len();
    &&& 0 <= m <= q0.len()
    &&& segs == q0.subrange(m, q0.len() as int)
    &&& m < q0.len() ==> q0[m].rel_seq == n
    &&& seq_dist(n0, n) == spans(q0.subrange(0, m))
    &&& n == seq_advance(n0, spans(q0.subrange(0, m)))
    &&& forall|i: int| 0 <= i < m ==> #[trigger] out[out0.len() + i] == q0[i]
}

proof fn lemma_spans_step(q: Seq<TcpSegment>, m: int)
    requires
        0 <= m < q.len(),
    ensures
        spans(q.subrange(0, m + 1)) == spans(q.subrange(0, m)) + seg_span(q[m]),
{
    assert(q.subrange(0, m + 1).drop_last() =~= q.subrange(0, m));
}

/// In a hole-free delivery, the queue's head starts at `n`.
proof fn lemma_contig_head(
    q0: Seq<TcpSegment>,
    n0: u32,
    out0: Seq<TcpSegment>,
    out: Seq<TcpSegment>,
    segs: Seq<TcpSegment>,
    n: u32,
)
    requires
        contig_state(q0, n0, out0, out, segs, n),
        segs.len() > 0,
    ensures
        segs[0].rel_seq == n,
{
    reveal(contig_state);
    let m = out.len() - out0.len();
    assert(segs[0] == q0[m]);
}

/// Handing out the head whole keeps a hole-free delivery going.
proof fn lemma_contig_whole(
    q0: Seq<TcpSegment>,
    n0: u32,
    out0: Seq<TcpSegment>,
    out_before: Seq<TcpSegment>,
    out_after: Seq<TcpSegment>,
    segs_before: Seq<TcpSegment>,
    segs_after: Seq<TcpSegment>,
    n: u32,
    span: int,
)
    requires
        contig_state(q0, n0, out0, out_before, segs_before, n),
        contiguous_from(q0, n0),
        segs_before.len() > 0,
        segs_after == segs_before.remove(0),
        out_after == out_before.push(segs_before[0]),
        span == seg_span(segs_before[0]),
        seq_dist(n0, n) + span <= 0x8000_0000,
    ensures
        contig_state(q0, n0, out0, out_after, segs_after, seq_advance(n, span)),
{
    reveal(contig_state);
    let m = out_before.len() - out0.len();
    assert(segs_before[0] == q0[m]);
    assert(segs_after =~= q0.subrange(m + 1, q0.len() as int));
    lemma_spans_step(q0, m);
    lemma_advance_twice(n0, spans(q0.subrange(0, m)), span);
    lemma_dist_advance(n0, n, span);
    if m + 1 < q0.len() {
        assert(seg_end(q0[m]) == q0[m + 1].rel_seq);
    }
    assert forall|i: int| 0 <= i < m + 1 implies #[trigger] out_after[out0.len() + i] == q0[i] by {
        if i < m {
            assert(out_after[out0.len() + i] == out_before[out0.len() + i]);
        }
    }
}

/// Handing out the acknowledged part of the head ends a hole-free delivery.
proof fn lemma_contig_partial(
    q0: Seq<TcpSegment>,
    n0: u32,
    rel_ack: u32,
    out0: Seq<TcpSegment>,
    out_before: Seq<TcpSegment>,
    out_after: Seq<TcpSegment>,
    segs_before: Seq<TcpSegment>,
    new: TcpPeer,
    n: u32,
    a: int,
    prefix: TcpSegment,
    suffix: TcpSegment,
)
    requires
        contig_state(q0, n0, out0, out_before, segs_before, n),
        segs_before.len() > 0,
        0 < a < seg_span(segs_before[0]),
        a <= segs_before[0].data@.len(),
        a == seq_dist(n, rel_ack),
        seq_dist(n0, n) + a == seq_dist(n0, rel_ack),
        prefix.rel_seq == segs_before[0].rel_seq,
        prefix.pcap_index == segs_before[0].pcap_index,
        prefix.data@ == segs_before[0].data@.subrange(0, a),
        suffix.rel_seq == seq_advance(n, a),
        suffix.pcap_index == segs_before[0].pcap_index,
        suffix.data@ == segs_before[0].data@.subrange(a, segs_before[0].data@.len() as int),
        out_after == out_before.push(prefix),
        new.segments@ == segs_before.remove(0).insert(0, suffix),
        new.next_rel_seq == rel_ack,
    ensures
        contiguous_delivery(q0, n0, rel_ack, out_after.subrange(out0.len() as int, out_after.len() as int), new),
        spans(q0.subrange(0, out_after.len() - out0.len())) > seq_dist(n0, rel_ack),
{
    reveal(contig_state);
    reveal(contiguous_delivery);
    let m = out_before.len() - out0.len();
    let d = out_after.subrange(out0.len() as int, out_after.len() as int);
    assert(segs_before[0] == q0[m]);
    lemma_spans_step(q0, m);
    lemma_advance_dist(n, rel_ack);
    assert forall|i: int| 0 <= i < m implies #[trigger] d[i] == q0[i] by {
        assert(d[i] == out_before[out0.len() + i]);
    }
    assert(d[m] == prefix);
    assert(new.segments@.subrange(1, new.segments@.len() as int) =~= q0.subrange(m + 1, q0.len() as int));
}

/// A hole-free delivery starts with nothing handed out.
proof fn lemma_contig_start(q0: Seq<TcpSegment>, n0: u32, out0: Seq<TcpSegment>)
    requires
        contiguous_from(q0, n0),
    ensures
        contig_state(q0, n0, out0, out0, q0, n0),
{
    reveal(contig_state);
    assert(q0.subrange(0, 0) =~= Seq::<TcpSegment>::empty());
    assert(q0.subrange(0, q0.len() as int) =~= q0);
}

/// Hole-free delivery speaks only of the queue and the next sequence number.
proof fn lemma_contig_frame(q: Seq<TcpSegment>, n0: u32, a: u32, d: Seq<TcpSegment>, before: TcpPeer, after: TcpPeer)
    requires
        contiguous_delivery(q, n0, a, d, before),
        before.segments@ == after.segments@,
        before.next_rel_seq == after.next_rel_seq,
    ensures
        contiguous_delivery(q, n0, a, d, after),
{
    reveal(contiguous_delivery);
}

/// A hole-free delivery that stopped by itself.
proof fn lemma_contig_done(
    q0: Seq<TcpSegment>,
    n0: u32,
    rel_ack: u32,
    out0: Seq<TcpSegment>,
    out: Seq<TcpSegment>,
    new: TcpPeer,
)
    requires
        contig_state(q0, n0, out0, out, new.segments@, new.next_rel_seq),
        seq_dist(n0, new.next_rel_seq) <= seq_dist(n0, rel_ack) <= 0x8000_0000,
        seq_dist(new.next_rel_seq, rel_ack) == seq_dist(n0, rel_ack) - seq_dist(n0, new.next_rel_seq),
        new.segments@.len() == 0 || !seq_before(new.next_rel_seq, rel_ack) || {
            let h = new.segments@[0].rel_seq;
            let n = new.next_rel_seq;
            0 < seq_dist(n, h) <= 0x8000_0000 && seq_dist(n, h) >= seq_dist(n, rel_ack)
        },
    ensures
        contiguous_delivery(q0, n0, rel_ack, out.subrange(out0.len() as int, out.len() as int), new),
{
    reveal(contig_state);
    reveal(contiguous_delivery);
    let m = out.len() - out0.len();
    let d = out.subrange(out0.len() as int, out.len() as int);
    assert forall|i: int| 0 <= i < m implies #[trigger] d[i] == q0[i] by {
        assert(d[i] == out[out0.len() + i]);
    }
    if new.segments@.len() > 0 {
        assert(new.segments@[0] == q0[m]);
        lemma_advance_dist(new.next_rel_seq, rel_ack);
    }
}

/// What is left of queue `q` after delivery (`r`): the segments after its
/// first `m`, in the same order, possibly behind the unacknowledged tail of
/// the `m`-th.
pub open spec fn queue_rest(q: Seq<TcpSegment>, r: Seq<TcpSegment>, m: int) -> bool {
    &&& 0 <= m <= q.len()
    &&& r == q.subrange(m, q.len() as int) || {
        &&& m > 0
        &&& r.len() == q.len() - m + 1
        &&& r.subrange(1, r.len() as int) == q.subrange(m, q.len() as int)
        &&& exists|off: int|
            #[trigger] slice_at(r[0], q[m - 1], off) && off + r[0].data@.len() == q[m - 1].data@.len()
    }
}

/// What delivery on an ACK does to the acknowledged peer (`old` before,
/// `new` after) and to the list of delivered chunks.
pub open spec fn acked_delivery(
    old: TcpPeer,
    new: TcpPeer,
    rel_ack: u32,
    old_out: Seq<TcpSegment>,
    new_out: Seq<TcpSegment>,
) -> bool {
    let n0 = old.next_rel_seq;
    let d = new_out.subrange(old_out.len() as int, new_out.len() as int);
    &&& new.wf()
    &&& new.isn == old.isn
    &&& new.ian == old.ian
    &&& new.status == old.status
    &&& new.addr == old.addr
    &&& new.port == old.port
    &&& new.last_rel_ack == rel_ack
    // a duplicate ACK changes nothing and delivers nothing
    &&& rel_ack == old.last_rel_ack ==> new == old && new_out == old_out
    // an ACK that is not ahead of what was delivered delivers nothing
    &&& !seq_before(n0, rel_ack) ==> new.segments@ == old.segments@ && new.next_rel_seq == n0
        && new_out == old_out
    &&& new_out.len() >= old_out.len()
    &&& new_out.subrange(0, old_out.len() as int) == old_out
    // the queue keeps its order: only a prefix of it goes
    &&& exists|m: int| #[trigger] queue_rest(old.segments@, new.segments@, m)
    // delivery is in order, without repetition, and within the ACK
    &&& delivered_in_order(d, n0, seq_dist(n0, new.next_rel_seq))
    &&& seq_before(n0, rel_ack) ==> seq_dist(n0, new.next_rel_seq) <= seq_dist(n0, rel_ack)
    // every delivered or still queued byte is one that was queued, at its place
    &&& forall|k: int| 0 <= k < d.len() ==> taken_from(#[trigger] d[k], old.segments@)
    &&& forall|k: int|
        0 <= k < new.segments@.len() ==> taken_from(#[trigger] new.segments@[k], old.segments@)
    // a queue that runs on from `next_rel_seq` without holes is delivered in
    // order, segment by segment, up to the ACK
    &&& rel_ack != old.last_rel_ack && seq_before(n0, rel_ack) && contiguous_from(old.segments@, n0)
        && spans(old.segments@) < 0x8000_0000 ==> contiguous_delivery(old.segments@, n0, rel_ack, d, new)
    // a first segment that starts at or after the ACK, past a hole, is not
    // acknowledged: nothing moves
    &&& rel_ack != old.last_rel_ack && seq_before(n0, rel_ack) && old.segments@.len() > 0 && 0
        < seq_dist(n0, old.segments@[0].rel_seq) <= 0x8000_0000 && seq_dist(n0, old.segments@[0].rel_seq)
        >= seq_dist(n0, rel_ack) ==> new.segments@ == old.segments@ && new.next_rel_seq == n0
        && new_out == old_out
    // delivery stops only when nothing acknowledged is left to deliver
    &&& rel_ack != old.last_rel_ack ==> {
        ||| new.segments@.len() == 0
        ||| !seq_before(new.next_rel_seq, rel_ack)
        ||| {
            let h = new.segments@[0].rel_seq;
            let n = new.next_rel_seq;
            0 < seq_dist(n, h) <= 0x8000_0000 && seq_dist(n, h) >= seq_dist(n, rel_ack)
        }
    }
}

/// Deliver what `rel_ack` acknowledges of the segments queued on `origin`,
/// appending the delivered chunks to `out` in sequence order.
///
/// A repeated ACK (`rel_ack == last_rel_ack`) does nothing. Otherwise, while
/// the ACK is ahead of `next_rel_seq`: data already delivered is cut off the
/// queued segments (a fully delivered segment is dropped); a hole in front of
/// the first segment is skipped only if the ACK covers the start of that
/// segment; a segment that the ACK covers only in part is split, its
/// unacknowledged suffix staying queued with the same `pcap_index`.
#[verifier::rlimit(100)]
#[verifier::spinoff_prover]
pub fn send_peer_segments(origin: &mut TcpPeer, rel_ack: u32, out: &mut Vec<TcpSegment>)
    requires
        old(origin).wf(),
    ensures
        acked_delivery(*old(origin), *final(origin), rel_ack, old(out)@, final(out)@),
{
    let ghost n0 = origin.next_rel_seq;
    let ghost q0 = origin.segments@;
    let ghost out0 = out@;
    proof {
        assert(q0.subrange(0, q0.len() as int) =~= q0);
        assert(queue_rest(q0, q0, 0));
    }
    proof {
        assert forall|k: int| 0 <= k < q0.len() implies taken_from(#[trigger] q0[k], q0) by {
            assert(q0[k].data@ =~= q0[k].data@.subrange(0, q0[k].data@.len() as int));
            assert(slice_at(q0[k], q0[k], 0));
        }
        assert(out@.subrange(0, out0.len() as int) =~= out0);
        assert(out@.subrange(out0.len() as int, out@.len() as int) =~= Seq::<TcpSegment>::empty());
    }
    if rel_ack == origin.last_rel_ack {
        return;
    }
    if !seq_lt(origin.next_rel_seq, rel_ack) {
        origin.last_rel_ack = rel_ack;
        return;
    }
    let ghost da = seq_dist(n0, rel_ack);
    let ghost contig = contiguous_from(q0, n0) && spans(q0) < 0x8000_0000;
    let ghost mut partial = false;
    let ghost mut m: int = 0;
    let ghost head_waits = q0.len() > 0 && 0 < seq_dist(n0, q0[0].rel_seq) <= 0x8000_0000
        && seq_dist(n0, q0[0].rel_seq) >= da;
    proof {
        if contig {
            lemma_contig_start(q0, n0, out0);
        }
    }
    while origin.segments.len() > 0
        invariant_except_break
            !partial,
            origin.segments@ == q0.subrange(m, q0.len() as int),
            head_waits ==> out@ == out0 && origin.segments@ == q0 && origin.next_rel_seq == n0,
            contig ==> contig_state(q0, n0, out0, out@, origin.segments@, origin.next_rel_seq),
        invariant
            origin.wf(),
            origin.isn == old(origin).isn,
            origin.ian == old(origin).ian,
            origin.status == old(origin).status,
            origin.addr == old(origin).addr,
            origin.port == old(origin).port,
            origin.last_rel_ack == old(origin).last_rel_ack,
            n0 == old(origin).next_rel_seq,
            q0 == old(origin).segments@,
            forall|j: int| 0 <= j < q0.len() ==> seg_ok(#[trigger] q0[j]),
            out0 == old(out)@,
            0 < da <= 0x8000_0000,
            da == seq_dist(n0, rel_ack),
            seq_dist(n0, origin.next_rel_seq) <= da,
            seq_dist(origin.next_rel_seq, rel_ack) == da - seq_dist(n0, origin.next_rel_seq),
            out@.len() >= out0.len(),
            out@.subrange(0, out0.len() as int) == out0,
            forall|k: int|
                out0.len() <= k < out@.len() ==> seg_span(#[trigger] out@[k]) > 0 && seq_dist(
                    n0,
                    out@[k].rel_seq,
                ) + seg_span(out@[k]) <= seq_dist(n0, origin.next_rel_seq) && taken_from(
                    out@[k],
                    q0,
                ),
            forall|k: int, l: int|
                out0.len() <= k < l < out@.len() ==> seq_dist(n0, (#[trigger] out@[k]).rel_seq)
                    + seg_span(out@[k]) <= seq_dist(n0, (#[trigger] out@[l]).rel_seq),
            forall|k: int|
                0 <= k < origin.segments@.len() ==> taken_from(#[trigger] origin.segments@[k], q0),
            contig == (contiguous_from(q0, n0) && spans(q0) < 0x8000_0000),
            head_waits == (q0.len() > 0 && 0 < seq_dist(n0, q0[0].rel_seq) <= 0x8000_0000
                && seq_dist(n0, q0[0].rel_seq) >= da),
            0 <= m <= q0.len(),
        ensures
            queue_rest(q0, origin.segments@, m),
            origin.segments@.len() == 0 || !seq_before(origin.next_rel_seq, rel_ack) || {
                let h = origin.segments@[0].rel_seq;
                let n = origin.next_rel_seq;
                0 < seq_dist(n, h) <= 0x8000_0000 && seq_dist(n, h) >= seq_dist(n, rel_ack)
            },
            contig && !partial ==> contig_state(q0, n0, out0, out@, origin.segments@, origin.next_rel_seq),
            head_waits ==> out@ == out0 && origin.segments@ == q0 && origin.next_rel_seq == n0,
            contig && partial ==> contiguous_delivery(
                q0,
                n0,
                rel_ack,
                out@.subrange(out0.len() as int, out@.len() as int),
                *origin,
            ) && spans(q0.subrange(0, out@.len() - out0.len())) > da,
        decreases origin.segments@.len(),
    {
        let n = origin.next_rel_seq;
        let a = seq_sub(rel_ack, n);
        if a == 0 {
            break;
        }
        let head_seq = origin.segments[0].rel_seq;
        let s = seq_sub(head_seq, n);
        proof {
            if contig {
                lemma_contig_head(q0, n0, out0, out@, origin.segments@, n);
            }
        }
        if s != 0 && s <= 0x8000_0000 {
            if s >= a {
                break;
            }
            // the ACK covers data that was never seen: skip the hole
            proof {
                lemma_advance_dist(n, head_seq);
                lemma_dist_advance(n0, n, s as int);
                lemma_dist_shrink(n, rel_ack, s as int);
            }
            origin.next_rel_seq = head_seq;
        }
        let ghost p = seq_dist(n0, origin.next_rel_seq);
        let ghost queued_before = origin.segments@;
        let mut seg = origin.segments.remove(0);
        let ghost g0 = seg;
        let ghost outer = origin.segments@;
        let ghost mut off1: int = 0;
        proof {
            assert(g0 == q0[m]);
            m = m + 1;
            assert(origin.segments@ =~= q0.subrange(m, q0.len() as int));
            assert(seg_ok(q0[m - 1]));
            assert(g0.data@ =~= g0.data@.subrange(0, g0.data@.len() as int));
            assert(slice_at(g0, g0, 0));
            assert(taken_from(g0, q0));
            assert forall|k: int| 0 <= k < origin.segments@.len() implies taken_from(
                #[trigger] origin.segments@[k],
                q0,
            ) by {
                assert(origin.segments@[k] == queued_before[k + 1]);
            }
        }
        let n = origin.next_rel_seq;
        let a = seq_sub(rel_ack, n);
        let fin = seg.flags & TCP_FIN != 0;
        let span: usize = seg.data.len() + if fin {
            1
        } else {
            0
        };
        assert(span as int == seg_span(seg));
        proof {
            if contig {
                lemma_contig_head(q0, n0, out0, out@, queued_before, n);
            }
        }
        if seg.rel_seq != n {
            // the head starts before `n`: its first `k` bytes were delivered
            let k = seq_sub(n, seg.rel_seq);
            if k as usize >= span {
                continue;
            }
            let rest = seg.data.split_off(k as usize);
            let ghost (j, off) = choose|j: int, off: int| 0 <= j < q0.len() && #[trigger] slice_at(
                g0,
                q0[j],
                off,
            );
            seg = TcpSegment {
                rel_seq: n,
                rel_ack: seg.rel_ack,
                flags: seg.flags,
                data: rest,
                pcap_index: seg.pcap_index,
            };
            proof {
                lemma_advance_dist(g0.rel_seq, n);
                lemma_slice_tail(g0, q0[j], off, k as int, seg);
                assert(taken_from(seg, q0));
                lemma_slice_tail(g0, g0, 0, k as int, seg);
                off1 = k as int;
            }
        }
        let ghost g1 = seg;
        let span: usize = seg.data.len() + if fin {
            1
        } else {
            0
        };
        assert(span as int == seg_span(seg));
        if (a as usize) >= span {
            proof {
                lemma_dist_advance(n0, n, span as int);
                lemma_dist_shrink(n, rel_ack, span as int);
            }
            let ghost out_before = out@;
            origin.next_rel_seq = seq_add(n, span as u32);
            out.push(seg);
            proof {
                assert(out@.subrange(0, out0.len() as int) =~= out0);
                if contig {
                    lemma_contig_whole(q0, n0, out0, out_before, out@, queued_before, origin.segments@, n, span as int);
                }
            }
        } else {
            // partial ACK: deliver the acknowledged prefix, keep the rest queued
            let ghost (j, off) = choose|j: int, off: int| 0 <= j < q0.len() && #[trigger] slice_at(
                g1,
                q0[j],
                off,
            );
            let rest = seg.data.split_off(a as usize);
            let suffix = TcpSegment {
                rel_seq: seq_add(n, a),
                rel_ack: seg.rel_ack,
                flags: seg.flags,
                data: rest,
                pcap_index: seg.pcap_index,
            };
            let prefix = TcpSegment {
                rel_seq: n,
                rel_ack: seg.rel_ack,
                flags: seg.flags & !TCP_FIN,
                data: seg.data,
                pcap_index: seg.pcap_index,
            };
            proof {
                assert(slice_at(g1, g0, off1) && off1 + g1.data@.len() == g0.data@.len());
                lemma_slice_tail(g1, g0, off1, a as int, suffix);
                lemma_clear_fin(g1.flags);
                lemma_slice_tail(g1, q0[j], off, a as int, suffix);
                lemma_slice_head(g1, q0[j], off, a as int, prefix);
                assert(taken_from(suffix, q0));
                assert(taken_from(prefix, q0));
                lemma_dist_advance(n0, n, a as int);
                lemma_dist_shrink(n, rel_ack, a as int);
            }
            let ghost out_before = out@;
            origin.next_rel_seq = seq_add(n, a);
            out.push(prefix);
            origin.segments.insert(0, suffix);
            proof {
                partial = true;
                assert(origin.segments@.subrange(1, origin.segments@.len() as int) =~= outer);
                assert(slice_at(origin.segments@[0], q0[m - 1], off1 + a));
                assert(queue_rest(q0, origin.segments@, m));
                assert(out@.subrange(0, out0.len() as int) =~= out0);
                if contig {
                    lemma_contig_partial(q0, n0, rel_ack, out0, out_before, out@, queued_before, *origin, n, a as int, prefix, suffix);
                }
                assert forall|k: int| 0 <= k < origin.segments@.len() implies taken_from(
                    #[trigger] origin.segments@[k],
                    q0,
                ) by {
                    if k > 0 {
                        assert(origin.segments@[k] == outer[k - 1]);
                    }
                }
            }
            break;
        }
    }
    let ghost before_ack = *origin;
    assert(queue_rest(q0, origin.segments@, m));
    proof {
        if contig && !partial {
            lemma_contig_done(q0, n0, rel_ack, out0, out@, before_ack);
        }
    }
    origin.last_rel_ack = rel_ack;
    proof {
        if contig {
            lemma_contig_frame(q0, n0, rel_ack, out@.subrange(out0.len() as int, out@.len() as int), before_ack, *origin);
        }
    }
}

} // verus!

verus! {

#[derive(Clone, Copy, Debug, PartialEq, Eq, Structural)]
pub enum TcpStreamError {
    Anomaly,
    /// Packet received but connection has expired
    Expired,
    HandshakeFailed,
}

pub struct TcpStream {
    pub flow_id: FlowID,
    pub client: TcpPeer,
    pub server: TcpPeer,
    pub status: TcpStatus,
    /// timestamp of last seen packet
    pub last_seen_ts: Duration,
}

/// What the three-way handshake does to the sending peer `o` and the other
/// peer `d` on a packet with header `tcp`: the new peers, the new stream
/// status if it changes, and the outcome.
pub open spec fn handshake_spec(o: TcpPeer, d: TcpPeer, tcp: TcpHeader) -> (
    TcpPeer,
    TcpPeer,
    Option<TcpStatus>,
    Result<(), TcpStreamError>,
) {
    match o.status {
        TcpStatus::Closed => if has_flag(tcp.flags, TCP_RST) {
            (o, d, None, Ok(()))
        } else if !has_flag(tcp.flags, TCP_SYN) {
            (o, d, None, Err(TcpStreamError::HandshakeFailed))
        } else {
            (
                TcpPeer { isn: tcp.seq, next_rel_seq: 1, status: TcpStatus::SynSent, ..o },
                TcpPeer { ian: tcp.seq, status: TcpStatus::Listen, ..d },
                Some(TcpStatus::SynSent),
                Ok(()),
            )
        },
        TcpStatus::Listen => if tcp.ack != seq_advance(d.isn, 1) {
            (o, d, None, Err(TcpStreamError::HandshakeFailed))
        } else {
            (
                TcpPeer { isn: tcp.seq, next_rel_seq: 1, status: TcpStatus::SynRcv, ..o },
                TcpPeer { ian: tcp.seq, last_rel_ack: 1, ..d },
                Some(TcpStatus::SynRcv),
                Ok(()),
            )
        },
        TcpStatus::SynSent => if tcp.ack != seq_advance(d.isn, 1) {
            (o, d, None, Err(TcpStreamError::HandshakeFailed))
        } else {
            (
                TcpPeer { status: TcpStatus::Established, ..o },
                TcpPeer { status: TcpStatus::Established, last_rel_ack: 1, ..d },
                Some(TcpStatus::Established),
                Ok(()),
            )
        },
        _ => (o, d, None, Err(TcpStreamError::Anomaly)),
    }
}

fn handshake(origin: &mut TcpPeer, dest: &mut TcpPeer, tcp: &TcpHeader) -> (r: (
    Option<TcpStatus>,
    Result<(), TcpStreamError>,
))
    ensures
        (*final(origin), *final(dest), r.0, r.1) == handshake_spec(*old(origin), *old(dest), *tcp),
{
    match origin.status {
        TcpStatus::Closed => {
            if tcp.flags & TCP_RST != 0 {
                // a RST from a closed side is expected
                return (None, Ok(()));
            }
            if tcp.flags & TCP_SYN == 0 {
                // not a SYN - usually happens at start of capture if the SYN was missed
                return (None, Err(TcpStreamError::HandshakeFailed));
            }
            origin.isn = tcp.seq;
            origin.next_rel_seq = 1;
            dest.ian = tcp.seq;
            origin.status = TcpStatus::SynSent;
            dest.status = TcpStatus::Listen;
            (Some(TcpStatus::SynSent), Ok(()))
        },
        TcpStatus::Listen => {
            if tcp.ack != seq_add(dest.isn, 1) {
                return (None, Err(TcpStreamError::HandshakeFailed));
            }
            origin.isn = tcp.seq;
            origin.next_rel_seq = 1;
            dest.ian = tcp.seq;
            dest.last_rel_ack = 1;
            origin.status = TcpStatus::SynRcv;
            (Some(TcpStatus::SynRcv), Ok(()))
        },
        TcpStatus::SynSent => {
            if tcp.ack != seq_add(dest.isn, 1) {
                return (None, Err(TcpStreamError::HandshakeFailed));
            }
            origin.status = TcpStatus::Established;
            dest.status = TcpStatus::Established;
            dest.last_rel_ack = 1;
            (Some(TcpStatus::Established), Ok(()))
        },
        _ => (None, Err(TcpStreamError::Anomaly)),
    }
}

/// A data packet on an established connection: the segment is queued on the
/// sender, and its ACK delivers the other side's acknowledged data.
fn established(
    origin: &mut TcpPeer,
    dest: &mut TcpPeer,
    tcp: &TcpHeader,
    payload: &[u8],
    pcap_index: usize,
    out: &mut Vec<TcpSegment>,
)
    requires
        old(origin).wf(),
        old(dest).wf(),
    ensures
        queued_packet(
            *old(origin),
            *final(origin),
            seq_dist(old(origin).isn, tcp.seq) as u32,
            seq_dist(old(dest).isn, tcp.ack) as u32,
            tcp.flags,
            payload@,
            pcap_index,
        ),
        has_flag(tcp.flags, TCP_ACK) ==> acked_delivery(
            *old(dest),
            *final(dest),
            seq_dist(old(dest).isn, tcp.ack) as u32,
            old(out)@,
            final(out)@,
        ),
        !has_flag(tcp.flags, TCP_ACK) ==> *final(dest) == *old(dest) && final(out)@ == old(out)@,
{
    let rel_seq = seq_sub(tcp.seq, origin.isn);
    let rel_ack = seq_sub(tcp.ack, dest.isn);
    let segment = TcpSegment {
        rel_seq,
        rel_ack,
        flags: tcp.flags,
        data: copy_bytes(payload),
        pcap_index,
    };
    let ghost g = segment;
    queue_segment(origin, segment);
    assert(queued(*old(origin), *origin, g));
    if tcp.flags & TCP_ACK != 0 {
        send_peer_segments(dest, rel_ack, out);
    }
}

/// `new` is `old` with the segment of these fields queued (if it is one the
/// queues hold).
pub open spec fn queued_packet(
    old: TcpPeer,
    new: TcpPeer,
    rel_seq: u32,
    rel_ack: u32,
    flags: u16,
    data: Seq<u8>,
    pcap_index: usize,
) -> bool {
    exists|s: TcpSegment|
        #![trigger queued(old, new, s)]
        s.rel_seq == rel_seq && s.rel_ack == rel_ack && s.flags == flags && s.data@ == data
            && s.pcap_index == pcap_index && queued(old, new, s)
}

/// The segments of `q` whose `rel_ack` is not `x`, in order.
pub open spec fn without_acked(q: Seq<TcpSegment>, x: u32) -> Seq<TcpSegment>
    decreases q.len(),
{
    if q.len() == 0 {
        q
    } else {
        let rest = without_acked(q.drop_last(), x);
        if q.last().rel_ack == x {
            rest
        } else {
            rest.push(q.last())
        }
    }
}

/// Drop the queued segments of `peer` that acknowledge exactly up to `x`.
fn remove_acked_by(peer: &mut TcpPeer, x: u32)
    requires
        old(peer).wf(),
    ensures
        final(peer).wf(),
        final(peer).segments@ == without_acked(old(peer).segments@, x),
        *final(peer) == (TcpPeer { segments: final(peer).segments, ..*old(peer) }),
{
    let mut rest: Vec<TcpSegment> = Vec::new();
    std::mem::swap(&mut rest, &mut peer.segments);
    let ghost q = rest@;
    let ghost i: int = 0;
    assert(q.subrange(0, 0) =~= Seq::<TcpSegment>::empty());
    while rest.len() > 0
        invariant
            q == old(peer).segments@,
            forall|k: int| 0 <= k < q.len() ==> seg_ok(#[trigger] q[k]),
            0 <= i <= q.len(),
            rest@ == q.subrange(i, q.len() as int),
            peer.segments@ == without_acked(q.subrange(0, i), x),
            peer.wf(),
            *peer == (TcpPeer { segments: peer.segments, ..*old(peer) }),
        decreases rest@.len(),
    {
        let s = rest.remove(0);
        assert(s == q[i]);
        let ghost before = peer.segments@;
        if s.rel_ack != x {
            peer.segments.push(s);
        }
        proof {
            i = i + 1;
            assert(q.subrange(0, i).drop_last() =~= q.subrange(0, i - 1));
            assert(q.subrange(0, i).last() == s);
            assert(rest@ =~= q.subrange(i, q.len() as int));
        }
    }
    assert(q.subrange(0, i) =~= q);
}

/// The receiving peer of a closing packet: `mid` is it after the ACK has
/// delivered, `nd` after a RST has dropped its segments.
pub open spec fn closing_receiver(
    o: TcpPeer,
    d: TcpPeer,
    mid: TcpPeer,
    nd: TcpPeer,
    tcp: TcpHeader,
    old_out: Seq<TcpSegment>,
    new_out: Seq<TcpSegment>,
) -> bool {
    &&& has_flag(tcp.flags, TCP_ACK) ==> acked_delivery(
        d,
        mid,
        seq_dist(d.isn, tcp.ack) as u32,
        old_out,
        new_out,
    )
    &&& !has_flag(tcp.flags, TCP_ACK) ==> mid == d && new_out == old_out
    &&& has_flag(tcp.flags, TCP_RST) ==> nd == (TcpPeer { segments: nd.segments, ..mid })
        && nd.segments@ == without_acked(mid.segments@, seq_dist(o.isn, tcp.seq) as u32)
    &&& !has_flag(tcp.flags, TCP_RST) ==> nd == mid
}

/// What a FIN, a RST, or a packet from a sender past the established state
/// does: `o`/`d` are the sending and receiving peers before, `no`/`nd` after.
pub open spec fn closing_spec(
    o: TcpPeer,
    d: TcpPeer,
    no: TcpPeer,
    nd: TcpPeer,
    tcp: TcpHeader,
    payload: Seq<u8>,
    pcap_index: usize,
    old_out: Seq<TcpSegment>,
    new_out: Seq<TcpSegment>,
) -> bool {
    &&& no.wf()
    &&& nd.wf()
    &&& new_out.len() >= old_out.len()
    &&& exists|mid: TcpPeer| #[trigger] closing_receiver(o, d, mid, nd, tcp, old_out, new_out)
    &&& has_flag(tcp.flags, TCP_RST) ==> no == (TcpPeer { status: TcpStatus::Closed, ..o })
    &&& !has_flag(tcp.flags, TCP_RST) ==> queued_packet(
        o,
        TcpPeer { status: o.status, ..no },
        seq_dist(o.isn, tcp.seq) as u32,
        seq_dist(d.isn, tcp.ack) as u32,
        tcp.flags,
        payload,
        pcap_index,
    ) && no.status == if o.status == TcpStatus::Established && has_flag(tcp.flags, TCP_FIN) {
        TcpStatus::FinWait1
    } else {
        o.status
    }
}

/// A FIN or RST, or any packet once the sender is past the established
/// state. The ACK delivers the other side's acknowledged data first. On a
/// RST, the other side's segments that acknowledge up to the RST's sequence
/// number are dropped and the sender is closed. Otherwise the segment is
/// queued (a FIN takes one sequence number, so a bare FIN is kept), and a FIN
/// from an established sender moves it to FinWait1.
fn closing(
    origin: &mut TcpPeer,
    dest: &mut TcpPeer,
    tcp: &TcpHeader,
    payload: &[u8],
    pcap_index: usize,
    out: &mut Vec<TcpSegment>,
)
    requires
        old(origin).wf(),
        old(dest).wf(),
    ensures
        closing_spec(
            *old(origin),
            *old(dest),
            *final(origin),
            *final(dest),
            *tcp,
            payload@,
            pcap_index,
            old(out)@,
            final(out)@,
        ),
{
    let rel_seq = seq_sub(tcp.seq, origin.isn);
    let rel_ack = seq_sub(tcp.ack, dest.isn);
    if tcp.flags & TCP_ACK != 0 {
        send_peer_segments(dest, rel_ack, out);
    }
    let ghost mid = *dest;
    if tcp.flags & TCP_RST != 0 {
        remove_acked_by(dest, rel_seq);
        origin.status = TcpStatus::Closed;
        assert(closing_receiver(*old(origin), *old(dest), mid, *dest, *tcp, old(out)@, out@));
        return;
    }
    let segment = TcpSegment {
        rel_seq,
        rel_ack,
        flags: tcp.flags,
        data: copy_bytes(payload),
        pcap_index,
    };
    let ghost g = segment;
    queue_segment(origin, segment);
    assert(queued(*old(origin), *origin, g));
    assert(queued(*old(origin), TcpPeer { status: old(origin).status, ..*origin }, g));
    if origin.status == TcpStatus::Established && tcp.flags & TCP_FIN != 0 {
        origin.status = TcpStatus::FinWait1;
    }
    assert(closing_receiver(*old(origin), *old(dest), mid, *dest, *tcp, old(out)@, out@));
}

impl TcpStream {
    pub open spec fn wf(&self) -> bool {
        self.client.wf() && self.server.wf()
    }

    /// The peer that sent a packet going in direction `to_server`.
    pub open spec fn origin(&self, to_server: bool) -> TcpPeer {
        if to_server {
            self.client
        } else {
            self.server
        }
    }

    /// The peer that receives a packet going in direction `to_server`.
    pub open spec fn destination(&self, to_server: bool) -> TcpPeer {
        if to_server {
            self.server
        } else {
            self.client
        }
    }

    /// A stream for `flow`: the client is the flow's canonical source.
    pub fn new(flow: &Flow) -> (r: TcpStream)
        ensures
            fresh_stream(r, *flow),
            r.wf(),
            r.flow_id == flow.flow_id,
            r.status == TcpStatus::Closed,
            r.last_seen_ts == flow.last_seen,
            r.client.status == TcpStatus::Closed,
            r.server.status == TcpStatus::Closed,
            r.client.addr == flow.five_tuple.src,
            r.client.port == flow.five_tuple.src_port,
            r.server.addr == flow.five_tuple.dst,
            r.server.port == flow.five_tuple.dst_port,
            r.client.segments@.len() == 0,
            r.server.segments@.len() == 0,
            r.client.last_rel_ack == 0 && r.server.last_rel_ack == 0,
            r.client.next_rel_seq == 0 && r.server.next_rel_seq == 0,
    {
        TcpStream {
            flow_id: flow.flow_id,
            client: TcpPeer::new(&flow.five_tuple.src, flow.five_tuple.src_port),
            server: TcpPeer::new(&flow.five_tuple.dst, flow.five_tuple.dst_port),
            status: TcpStatus::Closed,
            last_seen_ts: flow.last_seen,
        }
    }

    /// Three-way handshake step, for a sender that is not yet established.
    pub fn handle_new_connection(&mut self, tcp: &TcpHeader, to_server: bool) -> (r: Result<
        (),
        TcpStreamError,
    >)
        requires
            old(self).wf(),
        ensures
            final(self).wf(),
            ({
                let (o, d, st, res) = handshake_spec(
                    old(self).origin(to_server),
                    old(self).destination(to_server),
                    *tcp,
                );
                &&& final(self).origin(to_server) == o
                &&& final(self).destination(to_server) == d
                &&& final(self).status == match st {
                    Some(x) => x,
                    None => old(self).status,
                }
                &&& r == res
            }),
            final(self).flow_id == old(self).flow_id,
            final(self).last_seen_ts == old(self).last_seen_ts,
    {
        let (st, res) = if to_server {
            handshake(&mut self.client, &mut self.server, tcp)
        } else {
            handshake(&mut self.server, &mut self.client, tcp)
        };
        if let Some(x) = st {
            self.status = x;
        }
        res
    }

    /// Data on an established connection.
    pub fn handle_established_connection(
        &mut self,
        tcp: &TcpHeader,
        payload: &[u8],
        to_server: bool,
        pcap_index: usize,
        out: &mut Vec<TcpSegment>,
    ) -> (r: Result<(), TcpStreamError>)
        requires
            old(self).wf(),
        ensures
            final(self).wf(),
            r is Ok,
            queued_packet(
                old(self).origin(to_server),
                final(self).origin(to_server),
                seq_dist(old(self).origin(to_server).isn, tcp.seq) as u32,
                seq_dist(old(self).destination(to_server).isn, tcp.ack) as u32,
                tcp.flags,
                payload@,
                pcap_index,
            ),
            has_flag(tcp.flags, TCP_ACK) ==> acked_delivery(
                old(self).destination(to_server),
                final(self).destination(to_server),
                seq_dist(old(self).destination(to_server).isn, tcp.ack) as u32,
                old(out)@,
                final(out)@,
            ),
            !has_flag(tcp.flags, TCP_ACK) ==> final(self).destination(to_server) == old(
                self,
            ).destination(to_server) && final(out)@ == old(out)@,
            final(self).flow_id == old(self).flow_id,
            final(self).status == old(self).status,
            final(self).last_seen_ts == old(self).last_seen_ts,
    {
        if to_server {
            established(&mut self.client, &mut self.server, tcp, payload, pcap_index, out);
        } else {
            established(&mut self.server, &mut self.client, tcp, payload, pcap_index, out);
        }
        Ok(())
    }

    /// FIN, RST, or a packet from a sender past the established state.
    pub fn handle_closing_connection(
        &mut self,
        tcp: &TcpHeader,
        payload: &[u8],
        to_server: bool,
        pcap_index: usize,
        out: &mut Vec<TcpSegment>,
    ) -> (r: Result<(), TcpStreamError>)
        requires
            old(self).wf(),
        ensures
            final(self).wf(),
            r is Ok,
            final(out)@.len() >= old(out)@.len(),
            final(self).flow_id == old(self).flow_id,
            final(self).status == old(self).status,
            final(self).last_seen_ts == old(self).last_seen_ts,
            closing_spec(
                old(self).origin(to_server),
                old(self).destination(to_server),
                final(self).origin(to_server),
                final(self).destination(to_server),
                *tcp,
                payload@,
                pcap_index,
                old(out)@,
                final(out)@,
            ),
    {
        if to_server {
            closing(&mut self.client, &mut self.server, tcp, payload, pcap_index, out);
        } else {
            closing(&mut self.server, &mut self.client, tcp, payload, pcap_index, out);
        }
        Ok(())
    }

    /// Force expiration (for ex after timeout) of this stream.
    fn expire(&mut self)
        ensures
            final(self).client == (TcpPeer { status: TcpStatus::Closed, ..old(self).client }),
            final(self).server == (TcpPeer { status: TcpStatus::Closed, ..old(self).server }),
            final(self).flow_id == old(self).flow_id,
            final(self).status == old(self).status,
            final(self).last_seen_ts == old(self).last_seen_ts,
    {
        self.client.status = TcpStatus::Closed;
        self.server.status = TcpStatus::Closed;
    }
}

/// The sender is still in the three-way handshake.
pub open spec fn is_handshake_status(s: TcpStatus) -> bool {
    s == TcpStatus::Closed || s == TcpStatus::Listen || s == TcpStatus::SynSent || s
        == TcpStatus::SynRcv
}

/// A new stream for `flow`: both peers closed, with the flow's addresses
/// and ports, nothing queued, and the flow's last time.
pub open spec fn fresh_stream(s: TcpStream, flow: Flow) -> bool {
    &&& s.wf()
    &&& s.flow_id == flow.flow_id
    &&& s.status == TcpStatus::Closed
    &&& s.last_seen_ts == flow.last_seen
    &&& s.client.isn == 0 && s.client.ian == 0 && s.client.next_rel_seq == 0
        && s.client.last_rel_ack == 0
    &&& s.server.isn == 0 && s.server.ian == 0 && s.server.next_rel_seq == 0
        && s.server.last_rel_ack == 0
    &&& s.client.status == TcpStatus::Closed && s.server.status == TcpStatus::Closed
    &&& s.client.addr == flow.five_tuple.src && s.client.port == flow.five_tuple.src_port
    &&& s.server.addr == flow.five_tuple.dst && s.server.port == flow.five_tuple.dst_port
    &&& s.client.segments@.len() == 0 && s.server.segments@.len() == 0
}

/// One packet on stream `s0` gives `s1`, appends to `old_out` to make
/// `new_out`, and returns `r`.
///
/// When the flow was idle for longer than `timeout`, both peers are closed,
/// nothing is delivered, and the stream keeps its time. Otherwise the
/// stream's time becomes the flow's last time and the sender's state
/// decides: the handshake table, data on an established connection, or the
/// closing path.
pub open spec fn stream_step(
    s0: TcpStream,
    s1: TcpStream,
    flow: Flow,
    tcp: TcpHeader,
    payload: Seq<u8>,
    to_server: bool,
    pcap_index: usize,
    timeout: Duration,
    old_out: Seq<TcpSegment>,
    new_out: Seq<TcpSegment>,
    r: Result<(), TcpStreamError>,
) -> bool {
    let o = s0.origin(to_server);
    let d = s0.destination(to_server);
    let rel_seq = seq_dist(o.isn, tcp.seq) as u32;
    let rel_ack = seq_dist(d.isn, tcp.ack) as u32;
    &&& s1.wf()
    &&& s1.flow_id == s0.flow_id
    &&& if flow.last_seen.total_micros() > s0.last_seen_ts.total_micros() + timeout.total_micros() {
        &&& r == Err::<(), TcpStreamError>(TcpStreamError::Expired)
        &&& s1.last_seen_ts == s0.last_seen_ts
        &&& s1.client == (TcpPeer { status: TcpStatus::Closed, ..s0.client })
        &&& s1.server == (TcpPeer { status: TcpStatus::Closed, ..s0.server })
        &&& s1.status == s0.status
        &&& new_out == old_out
    } else if is_handshake_status(o.status) {
        let (ho, hd, st, res) = handshake_spec(o, d, tcp);
        &&& s1.last_seen_ts == flow.last_seen
        &&& s1.origin(to_server) == ho
        &&& s1.destination(to_server) == hd
        &&& s1.status == match st {
            Some(x) => x,
            None => s0.status,
        }
        &&& r == res
        &&& new_out == old_out
    } else if o.status == TcpStatus::Established && !has_flag(tcp.flags, TCP_FIN) && !has_flag(
        tcp.flags,
        TCP_RST,
    ) {
        &&& r is Ok
        &&& s1.last_seen_ts == flow.last_seen
        &&& s1.status == s0.status
        &&& queued_packet(o, s1.origin(to_server), rel_seq, rel_ack, tcp.flags, payload, pcap_index)
        &&& has_flag(tcp.flags, TCP_ACK) ==> acked_delivery(
            d,
            s1.destination(to_server),
            rel_ack,
            old_out,
            new_out,
        )
        &&& !has_flag(tcp.flags, TCP_ACK) ==> s1.destination(to_server) == d && new_out == old_out
    } else {
        &&& r is Ok
        &&& s1.last_seen_ts == flow.last_seen
        &&& s1.status == s0.status
        &&& closing_spec(
            o,
            d,
            s1.origin(to_server),
            s1.destination(to_server),
            tcp,
            payload,
            pcap_index,
            old_out,
            new_out,
        )
    }
}

/// Default idle timeout of a TCP stream, in seconds.
pub const TCP_TIMEOUT_SECS: u64 = 120;

/// The TCP streams of an analyzer, one per flow.
pub struct TcpStreamReassembly {
    pub m: Vec<TcpStream>,
    pub timeout: Duration,
}

impl Default for TcpStreamReassembly {
    fn default() -> (r: TcpStreamReassembly)
        ensures
            r.wf(),
            r.m@.len() == 0,
            r.timeout == (Duration { secs: TCP_TIMEOUT_SECS, micros: 0 }),
    {
        TcpStreamReassembly { m: Vec::new(), timeout: Duration::new(TCP_TIMEOUT_SECS, 0) }
    }
}

impl TcpStreamReassembly {
    /// Every stream is well formed, and no two belong to the same flow.
    pub open spec fn wf(&self) -> bool {
        &&& forall|i: int| 0 <= i < self.m@.len() ==> (#[trigger] self.m@[i]).wf()
        &&& forall|i: int, j: int|
            0 <= i < self.m@.len() && 0 <= j < self.m@.len() && i != j ==> (#[trigger] self.m@[i]).flow_id
                != (#[trigger] self.m@[j]).flow_id
    }

    /// The index of the stream of flow `id`, if there is one.
    pub open spec fn has_stream(&self, id: FlowID) -> bool {
        exists|i: int| 0 <= i < self.m@.len() && (#[trigger] self.m@[i]).flow_id == id
    }

    pub fn new(timeout: Duration) -> (r: TcpStreamReassembly)
        ensures
            r.wf(),
            r.m@.len() == 0,
            r.timeout == timeout,
    {
        TcpStreamReassembly { m: Vec::new(), timeout }
    }

    fn find(&self, id: FlowID) -> (r: Option<usize>)
        ensures
            r matches Some(i) ==> i < self.m@.len() && self.m@[i as int].flow_id == id,
            r is None ==> !self.has_stream(id),
    {
        let mut i: usize = 0;
        while i < self.m.len()
            invariant
                0 <= i <= self.m@.len(),
                forall|k: int| 0 <= k < i ==> (#[trigger] self.m@[k]).flow_id != id,
            decreases self.m@.len() - i,
        {
            if self.m[i].flow_id == id {
                return Some(i);
            }
            i = i + 1;
        }
        None
    }

    /// What feeding one TCP packet does to the table (see `update`).
    pub open spec fn update_spec(
        old: TcpStreamReassembly,
        new: TcpStreamReassembly,
        flow: Flow,
        tcp: TcpHeader,
        payload: Seq<u8>,
        to_server: bool,
        pcap_index: usize,
        old_out: Seq<TcpSegment>,
        new_out: Seq<TcpSegment>,
        r: Result<(), TcpStreamError>,
    ) -> bool {
        &&& new.wf()
        &&& new.timeout == old.timeout
        &&& new.has_stream(flow.flow_id)
        &&& forall|id: FlowID| old.has_stream(id) ==> #[trigger] new.has_stream(id)
        &&& new_out.len() >= old_out.len()
        // the other streams are left as they were
        &&& new.m@.len() == old.m@.len() + if old.has_stream(flow.flow_id) {
            0int
        } else {
            1int
        }
        &&& forall|i: int|
                0 <= i < old.m@.len() && (#[trigger] old.m@[i]).flow_id != flow.flow_id
                    ==> new.m@[i] == old.m@[i]
        // the flow's stream takes one step
        &&& forall|i: int|
                0 <= i < old.m@.len() && (#[trigger] old.m@[i]).flow_id == flow.flow_id
                    ==> stream_step(
                    old.m@[i],
                    new.m@[i],
                    flow,
                    tcp,
                    payload,
                    to_server,
                    pcap_index,
                    old.timeout,
                    old_out,
                    new_out,
                    r,
                )
        // a flow without a stream gets a fresh one, which takes the step
        &&& !old.has_stream(flow.flow_id) ==> exists|s0: TcpStream|
                #[trigger] fresh_stream(s0, flow) && stream_step(
                    s0,
                    new.m@[old.m@.len() as int],
                    flow,
                    tcp,
                    payload,
                    to_server,
                    pcap_index,
                    old.timeout,
                    old_out,
                    new_out,
                    r,
                )
    }

    /// Feed one TCP packet of `flow` to its stream (created on first use);
    /// data that the packet acknowledges is appended to `out`.
    ///
    /// When the flow was idle for longer than the timeout since the stream's
    /// last packet, both peers are closed and `Expired` is returned.
    pub fn update(
        &mut self,
        flow: &Flow,
        tcp: &TcpHeader,
        payload: &[u8],
        to_server: bool,
        pcap_index: usize,
        out: &mut Vec<TcpSegment>,
    ) -> (r: Result<(), TcpStreamError>)
        requires
            old(self).wf(),
        ensures
            TcpStreamReassembly::update_spec(*old(self), *final(self), *flow, *tcp, payload@, to_server, pcap_index, old(out)@, final(out)@, r),
    {
        let idx = match self.find(flow.flow_id) {
            Some(i) => i,
            None => {
                let st = TcpStream::new(flow);
                self.m.push(st);
                proof {
                    assert forall|i: int, j: int|
                        0 <= i < self.m@.len() && 0 <= j < self.m@.len() && i != j implies (
                        #[trigger] self.m@[i]).flow_id != (#[trigger] self.m@[j]).flow_id by {
                        if i == self.m@.len() - 1 {
                            assert(old(self).m@[j].flow_id != flow.flow_id);
                        } else if j == self.m@.len() - 1 {
                            assert(old(self).m@[i].flow_id != flow.flow_id);
                        }
                    }
                    assert forall|i: int| 0 <= i < self.m@.len() implies (#[trigger] self.m@[i]).wf() by {
                        if i < self.m@.len() - 1 {
                            assert(self.m@[i] == old(self).m@[i]);
                        }
                    }
                    assert forall|id: FlowID| old(self).has_stream(id) implies #[trigger] self.has_stream(id) by {
                        let k = choose|k: int| 0 <= k < old(self).m@.len() && (#[trigger] old(self).m@[k]).flow_id == id;
                        assert(self.m@[k] == old(self).m@[k]);
                    }
                }
                self.m.len() - 1
            },
        };
        let ghost m1 = self.m@;
        proof {
            assert forall|id: FlowID| old(self).has_stream(id) implies exists|k: int|
                0 <= k < m1.len() && (#[trigger] m1[k]).flow_id == id by {
                let k = choose|k: int| 0 <= k < old(self).m@.len() && (#[trigger] old(self).m@[k]).flow_id == id;
                assert(m1[k].flow_id == id);
            }
            assert(m1[idx as int].flow_id == flow.flow_id);
        }
        let timeout = self.timeout;
        let ghost s0 = self.m@[idx as int];
        let stream = &mut self.m[idx];
        // check time delay with previous packet before updating
        if flow.last_seen.exceeds(&stream.last_seen_ts, &timeout) {
            stream.expire();
            proof {
                self.lemma_replace_keeps(m1, idx as int);
            }
            return Err(TcpStreamError::Expired);
        }
        stream.last_seen_ts = flow.last_seen;
        proof {
            lemma_fin_or_rst(tcp.flags);
        }
        let status = if to_server {
            stream.client.status
        } else {
            stream.server.status
        };
        let r = match status {
            TcpStatus::Closed | TcpStatus::Listen | TcpStatus::SynSent | TcpStatus::SynRcv => {
                stream.handle_new_connection(tcp, to_server)
            },
            TcpStatus::Established => {
                if tcp.flags & (TCP_FIN | TCP_RST) != 0 {
                    stream.handle_closing_connection(tcp, payload, to_server, pcap_index, out)
                } else {
                    stream.handle_established_connection(tcp, payload, to_server, pcap_index, out)
                }
            },
            _ => stream.handle_closing_connection(tcp, payload, to_server, pcap_index, out),
        };
        proof {
            self.lemma_replace_keeps(m1, idx as int);
            if !old(self).has_stream(flow.flow_id) {
                assert(fresh_stream(s0, *flow));
                assert(stream_step(s0, self.m@[old(self).m@.len() as int], *flow, *tcp, payload@,
                    to_server, pcap_index, old(self).timeout, old(out)@, out@, r));
            }
        }
        r
    }

    /// Replacing the stream at `i` by a well-formed one of the same flow
    /// keeps the table well formed and its set of flows.
    proof fn lemma_replace_keeps(&self, before: Seq<TcpStream>, i: int)
        requires
            0 <= i < before.len(),
            self.m@.len() == before.len(),
            forall|k: int| 0 <= k < before.len() && k != i ==> self.m@[k] == before[k],
            self.m@[i].flow_id == before[i].flow_id,
            self.m@[i].wf(),
            forall|k: int| 0 <= k < before.len() ==> (#[trigger] before[k]).wf(),
            forall|a: int, b: int|
                0 <= a < before.len() && 0 <= b < before.len() && a != b ==> (#[trigger] before[a]).flow_id
                    != (#[trigger] before[b]).flow_id,
        ensures
            self.wf(),
            forall|id: FlowID|
                (exists|k: int| 0 <= k < before.len() && (#[trigger] before[k]).flow_id == id)
                    ==> #[trigger] self.has_stream(id),
    {
        assert forall|k: int| 0 <= k < self.m@.len() implies (#[trigger] self.m@[k]).wf() by {
            if k != i {
                assert(self.m@[k] == before[k]);
            }
        }
        assert forall|a: int, b: int|
            0 <= a < self.m@.len() && 0 <= b < self.m@.len() && a != b implies (
            #[trigger] self.m@[a]).flow_id != (#[trigger] self.m@[b]).flow_id by {
            assert(before[a].flow_id != before[b].flow_id);
        }
        assert forall|id: FlowID|
            (exists|k: int| 0 <= k < before.len() && (#[trigger] before[k]).flow_id == id) implies #[trigger] self.has_stream(id) by {
            let k = choose|k: int| 0 <= k < before.len() && (#[trigger] before[k]).flow_id == id;
            assert(self.m@[k].flow_id == id);
        }
    }

    /// Close every stream idle for longer than the timeout at time `now`.
    /// A stream whose last packet lies after `now` is left alone.
    pub fn check_expired_connections(&mut self, now: Duration)
        requires
            old(self).wf(),
        ensures
            final(self).wf(),
            final(self).timeout == old(self).timeout,
            final(self).m@.len() == old(self).m@.len(),
            forall|i: int|
                0 <= i < old(self).m@.len() ==> {
                    let s = #[trigger] old(self).m@[i];
                    let t = final(self).m@[i];
                    if now.total_micros() > s.last_seen_ts.total_micros()
                        + old(self).timeout.total_micros() {
                        t.client == (TcpPeer { status: TcpStatus::Closed, ..s.client })
                            && t.server == (TcpPeer { status: TcpStatus::Closed, ..s.server })
                            && t.flow_id == s.flow_id && t.status == s.status && t.last_seen_ts
                            == s.last_seen_ts
                    } else {
                        t == s
                    }
                },
    {
        let timeout = self.timeout;
        let mut i: usize = 0;
        while i < self.m.len()
            invariant
                0 <= i <= self.m@.len(),
                self.m@.len() == old(self).m@.len(),
                self.timeout == old(self).timeout,
                timeout == self.timeout,
                old(self).wf(),
                self.wf(),
                forall|k: int| i <= k < self.m@.len() ==> self.m@[k] == old(self).m@[k],
                forall|k: int|
                    0 <= k < i ==> {
                        let s = #[trigger] old(self).m@[k];
                        let t = self.m@[k];
                        if now.total_micros() > s.last_seen_ts.total_micros()
                            + old(self).timeout.total_micros() {
                            t.client == (TcpPeer { status: TcpStatus::Closed, ..s.client })
                                && t.server == (TcpPeer { status: TcpStatus::Closed, ..s.server })
                                && t.flow_id == s.flow_id && t.status == s.status && t.last_seen_ts
                                == s.last_seen_ts
                        } else {
                            t == s
                        }
                    },
            decreases self.m@.len() - i,
        {
            let ghost before = self.m@;
            let stream = &mut self.m[i];
            if now.exceeds(&stream.last_seen_ts, &timeout) {
                stream.expire();
            }
            proof {
                self.lemma_replace_keeps(before, i as int);
            }
            i = i + 1;
        }
    }

    /// Drop every stream (their remaining segments are not delivered).
    pub fn clear(&mut self)
        ensures
            final(self).wf(),
            final(self).m@.len() == 0,
            final(self).timeout == old(self).timeout,
    {
        self.m.clear();
    }
}

/// In-order delivery: the chunks that one ACK delivers never overlap and come
/// in increasing sequence order, and every byte of them is the byte that the
/// sender had queued at that same sequence number.
pub proof fn lemma_delivery_in_order(
    old: TcpPeer,
    new: TcpPeer,
    rel_ack: u32,
    old_out: Seq<TcpSegment>,
    new_out: Seq<TcpSegment>,
    k: int,
    l: int,
    b: int,
)
    requires
        old.wf(),
        acked_delivery(old, new, rel_ack, old_out, new_out),
        old_out.len() <= k < new_out.len(),
        0 <= b < new_out[k].data@.len(),
    ensures
        k < l < new_out.len() ==> seq_dist(old.next_rel_seq, new_out[k].rel_seq) + seg_span(
            new_out[k],
        ) <= seq_dist(old.next_rel_seq, new_out[l].rel_seq),
        exists|j: int, i: int|
            0 <= j < old.segments@.len() && 0 <= i < old.segments@[j].data@.len()
                && #[trigger] old.segments@[j].data@[i] == new_out[k].data@[b] && seq_advance(
                old.segments@[j].rel_seq,
                i,
            ) == seq_advance(new_out[k].rel_seq, b),
{
    let d = new_out.subrange(old_out.len() as int, new_out.len() as int);
    let kk = k - old_out.len();
    assert(d[kk] == new_out[k]);
    if k < l < new_out.len() {
        assert(d[l - old_out.len()] == new_out[l]);
    }
    assert(taken_from(d[kk], old.segments@));
    let (j, off) = choose|j: int, off: int|
        0 <= j < old.segments@.len() && #[trigger] slice_at(d[kk], old.segments@[j], off);
    assert(seg_ok(old.segments@[j]));
    lemma_advance_twice(old.segments@[j].rel_seq, off, b);
    assert(old.segments@[j].data@[off + b] == new_out[k].data@[b]);
}

/// Delivery only moves forward across ACKs: every chunk that a second ACK
/// delivers starts at or after the end of every chunk that the ACK before it
/// delivered, so the chunks of a direction, in delivery order, never overlap
/// and never go back.
pub proof fn lemma_delivery_continues(
    first: TcpPeer,
    second: TcpPeer,
    ack_first: u32,
    out_first: Seq<TcpSegment>,
    out_second: Seq<TcpSegment>,
    third: TcpPeer,
    ack_second: u32,
    out_third: Seq<TcpSegment>,
    k: int,
    l: int,
)
    requires
        acked_delivery(first, second, ack_first, out_first, out_second),
        acked_delivery(second, third, ack_second, out_second, out_third),
        out_first.len() <= k < out_second.len(),
        out_second.len() <= l < out_third.len(),
    ensures
        seq_dist(first.next_rel_seq, out_second[k].rel_seq) + seg_span(out_second[k]) <= seq_dist(
            first.next_rel_seq,
            out_third[l].rel_seq,
        ),
{
    let n_first = first.next_rel_seq;
    let n_second = second.next_rel_seq;
    let chunks_first = out_second.subrange(out_first.len() as int, out_second.len() as int);
    let chunks_second = out_third.subrange(out_second.len() as int, out_third.len() as int);
    assert(chunks_first[k - out_first.len()] == out_second[k]);
    assert(chunks_second[l - out_second.len()] == out_third[l]);
    if !seq_before(n_first, ack_first) {
        assert(out_second.len() == out_first.len());
    }
    if !seq_before(n_second, ack_second) {
        assert(out_third.len() == out_second.len());
    }
    lemma_dist_add(n_first, n_second, out_third[l].rel_seq);
}

/// A duplicate ACK (the same `rel_ack` as the last one) delivers nothing and
/// leaves the peer as it was.
pub proof fn lemma_duplicate_ack_delivers_nothing(
    old: TcpPeer,
    new: TcpPeer,
    rel_ack: u32,
    old_out: Seq<TcpSegment>,
    new_out: Seq<TcpSegment>,
)
    requires
        acked_delivery(old, new, rel_ack, old_out, new_out),
        rel_ack == old.last_rel_ack,
    ensures
        new_out == old_out,
        new == old,
{
}

/// Data that was already delivered is not delivered again: a replayed segment
/// `r` that lies wholly before `next_rel_seq` shares no sequence number with
/// any chunk that an ACK delivers.
pub proof fn lemma_replay_not_redelivered(
    old: TcpPeer,
    new: TcpPeer,
    rel_ack: u32,
    old_out: Seq<TcpSegment>,
    new_out: Seq<TcpSegment>,
    r: TcpSegment,
    k: int,
    b: int,
)
    requires
        acked_delivery(old, new, rel_ack, old_out, new_out),
        seg_span(r) <= seq_dist(r.rel_seq, old.next_rel_seq) <= 0x8000_0000,
        old_out.len() <= k < new_out.len(),
        0 <= b < seg_span(r),
    ensures
        seq_dist(new_out[k].rel_seq, seq_advance(r.rel_seq, b)) >= seg_span(new_out[k]),
{
    let n0 = old.next_rel_seq;
    let d = new_out.subrange(old_out.len() as int, new_out.len() as int);
    let kk = k - old_out.len();
    assert(d[kk] == new_out[k]);
    if !seq_before(n0, rel_ack) {
        assert(new_out.len() == old_out.len());
    }
    let c = new_out[k];
    let p = seq_dist(n0, c.rel_seq);
    assert(p + seg_span(c) <= 0x8000_0000);
    let x = seq_advance(r.rel_seq, b);
    lemma_advance_dist(n0, c.rel_seq);
    assert(seq_dist(n0, x) >= 0x8000_0000);
}

/// A run of ACK deliveries on one peer: `p[i]` becomes `p[i + 1]` on ACK
/// `acks[i]`, the delivered chunks growing from `o[i]` to `o[i + 1]`, and
/// the whole run stays within one turn of sequence space.
pub open spec fn ack_run(p: Seq<TcpPeer>, acks: Seq<u32>, o: Seq<Seq<TcpSegment>>) -> bool {
    &&& p.len() == acks.len() + 1
    &&& o.len() == acks.len() + 1
    &&& forall|i: int|
        0 <= i < acks.len() ==> #[trigger] acked_delivery(p[i], p[i + 1], acks[i], o[i], o[i + 1])
    &&& forall|i: int|
        0 <= i < acks.len() ==> seq_dist(p[0].next_rel_seq, (#[trigger] p[i]).next_rel_seq) + seq_dist(
            p[i].next_rel_seq,
            p[i + 1].next_rel_seq,
        ) < seq_modulus()
}

/// Along a run, the delivered stream only grows.
proof fn lemma_run_progress(p: Seq<TcpPeer>, acks: Seq<u32>, o: Seq<Seq<TcpSegment>>, i: int, j: int)
    requires
        ack_run(p, acks, o),
        0 <= i <= j < p.len(),
    ensures
        seq_dist(p[0].next_rel_seq, p[i].next_rel_seq) <= seq_dist(p[0].next_rel_seq, p[j].next_rel_seq),
    decreases j - i,
{
    if i < j {
        lemma_run_progress(p, acks, o, i, j - 1);
        let k = j - 1;
        assert(seq_dist(p[0].next_rel_seq, p[k].next_rel_seq) + seq_dist(p[k].next_rel_seq, p[k + 1].next_rel_seq) < seq_modulus());
        lemma_dist_add(p[0].next_rel_seq, p[k].next_rel_seq, p[k + 1].next_rel_seq);
    }
}

/// Where a chunk delivered by ACK `i` of a run lies, seen from the start.
proof fn lemma_run_chunk(p: Seq<TcpPeer>, acks: Seq<u32>, o: Seq<Seq<TcpSegment>>, i: int, k: int)
    requires
        ack_run(p, acks, o),
        0 <= i < acks.len(),
        o[i].len() <= k < o[i + 1].len(),
    ensures
        seq_dist(p[0].next_rel_seq, p[i].next_rel_seq) <= seq_dist(p[0].next_rel_seq, o[i + 1][k].rel_seq),
        seq_dist(p[0].next_rel_seq, o[i + 1][k].rel_seq) + seg_span(o[i + 1][k]) <= seq_dist(
            p[0].next_rel_seq,
            p[i + 1].next_rel_seq,
        ),
{
    let n0 = p[0].next_rel_seq;
    let ni = p[i].next_rel_seq;
    assert(acked_delivery(p[i], p[i + 1], acks[i], o[i], o[i + 1]));
    assert(seq_dist(n0, ni) + seq_dist(ni, p[i + 1].next_rel_seq) < seq_modulus());
    let d = o[i + 1].subrange(o[i].len() as int, o[i + 1].len() as int);
    assert(d[k - o[i].len()] == o[i + 1][k]);
    if !seq_before(ni, acks[i]) {
        assert(o[i + 1].len() == o[i].len());
    }
    let c = o[i + 1][k];
    lemma_dist_add(n0, ni, c.rel_seq);
    lemma_dist_add(n0, ni, p[i + 1].next_rel_seq);
}

/// In-order delivery over a whole run of ACKs on one direction: every chunk
/// that a later ACK delivers starts at or after the end of every chunk that
/// an earlier ACK delivered, so the delivered data never repeats or goes
/// back.
pub proof fn lemma_run_in_order(
    p: Seq<TcpPeer>,
    acks: Seq<u32>,
    o: Seq<Seq<TcpSegment>>,
    i: int,
    j: int,
    k: int,
    l: int,
)
    requires
        ack_run(p, acks, o),
        0 <= i < j < acks.len(),
        o[i].len() <= k < o[i + 1].len(),
        o[j].len() <= l < o[j + 1].len(),
    ensures
        seq_dist(p[0].next_rel_seq, o[i + 1][k].rel_seq) + seg_span(o[i + 1][k]) <= seq_dist(
            p[0].next_rel_seq,
            o[j + 1][l].rel_seq,
        ),
{
    lemma_run_chunk(p, acks, o, i, k);
    lemma_run_chunk(p, acks, o, j, l);
    lemma_run_progress(p, acks, o, i + 1, j);
}

} // verus!
