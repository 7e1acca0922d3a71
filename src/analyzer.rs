//! The analyzer: layered decapsulation of each packet, flow tracking, and
//! the events that plugins are shown.

use vstd::prelude::*;
use crate::bytes::{be16_at, copy_bytes, read_be16};
use crate::checksum::{
    ipv4_checksum_of, icmp_checksum_of, icmpv6_checksum_of, checksum_warning, icmp_message_checksum, icmpv6_message_checksum, ipv4_header_checksum,
    ChecksumKind, ChecksumMismatch,
};
use crate::error::Error;
use crate::flow::{Flow, FlowMap};
use crate::ip_defrag::{FragKey, Fragment, IPDefragEngine};
use crate::layers::{
    gre_offset_spec, ipv4_spec, ipv4_trimmed, ipv4_valid, ipv6_payload, ipv6_spec, ipv6_walk, gre_payload_offset, ipv6_ext_len, is_cisco_control, is_cisco_control_spec, is_ipv6_opt, parse_ipv4, parse_ipv6,
    parse_ipv6_frag, parse_tcp, Ipv6Fragment, TcpHeader, ETHERNET_HEADER_LEN, ETHERTYPE_ARP,
    ETHERTYPE_ERSPAN, ETHERTYPE_IPV4, ETHERTYPE_IPV6, ETHERTYPE_PPP, ETHERTYPE_PPPOE_SESSION,
    ETHERTYPE_VLAN, IPPROTO_ESP, IPPROTO_GRE, IPPROTO_ICMP, IPPROTO_ICMPV6, IPPROTO_IPV4,
    IPPROTO_IPV6, IPPROTO_IPV6_FRAG, IPPROTO_IPV6_NONXT, IPPROTO_TCP, IPPROTO_UDP,
    LINKTYPE_ETHERNET, PPP_IPV4, PPP_IPV6, VXLAN_PORT,
};
use crate::plugin::{
    dispatch_list, Event, PacketInfo, PluginRegistry, LAYER_LINK, LAYER_NETWORK, LAYER_PHYSICAL,
    LAYER_TRANSPORT,
};
use crate::tcp_reassembly::{TcpSegment, TcpStreamError, TcpStreamReassembly};
use crate::tuple::{Duration, FiveTuple, IpAddr, ThreeTuple};

verus! {

/// How many layers one packet may nest (tunnels included) before the rest of
/// it is ignored.
pub const MAX_DEPTH: u32 = 64;

#[derive(Clone, Copy, Debug, PartialEq, Eq, Structural)]
pub struct L3Info {
    /// Layer 4 protocol (e.g TCP, UDP, ICMP)
    pub l4_proto: u8,
    pub three_tuple: ThreeTuple,
}

/// The bytes of a captured packet, tagged with the layer they start at.
pub enum PacketData {
    /// A link-layer (Ethernet) frame
    L2(Vec<u8>),
    /// A network-layer packet of the given EtherType
    L3(u16, Vec<u8>),
    /// A transport-layer packet of the given IP protocol
    L4(u8, Vec<u8>),
    Unsupported(Vec<u8>),
}

pub struct Packet {
    pub interface: u32,
    pub caplen: u32,
    pub origlen: u32,
    pub ts: Duration,
    pub data: PacketData,
    pub pcap_index: usize,
}

/// Options of an analyzer; `None` takes the default.
pub struct Config {
    /// Validate IPv4, ICMP and ICMPv6 checksums (default: true)
    pub do_checksums: Option<bool>,
    /// Idle timeout of TCP streams, in seconds (default: 120)
    pub tcp_timeout_secs: Option<u64>,
}

impl Default for Config {
    fn default() -> (r: Config)
        ensures
            r.do_checksums.is_none(),
            r.tcp_timeout_secs.is_none(),
    {
        Config { do_checksums: None, tcp_timeout_secs: None }
    }
}

/// Pcap/Pcap-ng analyzer
///
/// Parses each packet layer by layer (L2 if available, L3 and L4), tracks
/// flows for L4 sessions, reassembles IP fragments and TCP streams, and
/// records for each layer the event that plugins must see, with the plugins
/// that must see it, in `events`.
pub struct Analyzer {
    pub registry: PluginRegistry,
    pub flows: FlowMap,
    pub ipv4_defrag: IPDefragEngine,
    pub ipv6_defrag: IPDefragEngine,
    pub tcp_defrag: TcpStreamReassembly,
    pub do_checksums: bool,
    pub events: Vec<Event>,
    pub warnings: Vec<ChecksumMismatch>,
}

impl Analyzer {
    pub open spec fn wf(&self) -> bool {
        &&& self.flows.wf()
        &&& self.ipv4_defrag.wf()
        &&& self.ipv6_defrag.wf()
        &&& self.tcp_defrag.wf()
    }

    /// What every packet-handling step keeps: well-formedness, the
    /// configuration and registry, the events and warnings recorded so far,
    /// and the flows (which only gain members). Checksum warnings are only
    /// recorded when checksums are enabled.
    pub open spec fn step(old: &Analyzer, new: &Analyzer) -> bool {
        &&& new.wf()
        &&& new.do_checksums == old.do_checksums
        &&& new.registry@ == old.registry@
        &&& new.events@.len() >= old.events@.len()
        &&& forall|k: int| 0 <= k < old.events@.len() ==> #[trigger] new.events@[k] == old.events@[k]
        &&& new.warnings@.len() >= old.warnings@.len()
        &&& forall|k: int|
            0 <= k < old.warnings@.len() ==> #[trigger] new.warnings@[k] == old.warnings@[k]
        &&& !old.do_checksums ==> new.warnings@ == old.warnings@
        &&& new.flows@.len() >= old.flows@.len()
        &&& forall|k: int|
            0 <= k < old.flows@.len() ==> (#[trigger] new.flows@[k]).five_tuple
                == old.flows@[k].five_tuple
    }

    pub fn new(registry: PluginRegistry, config: &Config) -> (r: Analyzer)
        ensures
            r.wf(),
            r.registry@ == registry@,
            r.do_checksums == match config.do_checksums {
                Some(b) => b,
                None => true,
            },
            r.tcp_defrag.timeout == (Duration {
                secs: match config.tcp_timeout_secs {
                    Some(s) => s,
                    None => 120,
                },
                micros: 0,
            }),
            r.flows@.len() == 0,
            r.tcp_defrag.m@.len() == 0,
            r.ipv4_defrag.buffers@.len() == 0,
            r.ipv6_defrag.buffers@.len() == 0,
            r.events@.len() == 0,
            r.warnings@.len() == 0,
    {
        let do_checksums = match config.do_checksums {
            Some(b) => b,
            None => true,
        };
        let timeout = match config.tcp_timeout_secs {
            Some(s) => s,
            None => 120,
        };
        Analyzer {
            registry,
            flows: FlowMap::new(),
            ipv4_defrag: IPDefragEngine::new(),
            ipv6_defrag: IPDefragEngine::new(),
            tcp_defrag: TcpStreamReassembly::new(Duration::new(timeout, 0)),
            do_checksums,
            events: Vec::new(),
            warnings: Vec::new(),
        }
    }

    /// Steps compose.
    pub proof fn lemma_step_trans(a: &Analyzer, b: &Analyzer, c: &Analyzer)
        requires
            Analyzer::step(a, b),
            Analyzer::step(b, c),
        ensures
            Analyzer::step(a, c),
    {
        assert forall|k: int| 0 <= k < a.events@.len() implies #[trigger] c.events@[k] == a.events@[k] by {
            assert(c.events@[k] == b.events@[k]);
        }
        assert forall|k: int| 0 <= k < a.warnings@.len() implies #[trigger] c.warnings@[k] == a.warnings@[k] by {
            assert(c.warnings@[k] == b.warnings@[k]);
        }
        assert forall|k: int| 0 <= k < a.flows@.len() implies (#[trigger] c.flows@[k]).five_tuple == a.flows@[k].five_tuple by {
            assert(c.flows@[k].five_tuple == b.flows@[k].five_tuple);
        }
    }

    /// Doing nothing is a step.
    pub proof fn lemma_step_refl(a: &Analyzer)
        requires
            a.wf(),
        ensures
            Analyzer::step(a, a),
    {
    }

    /// Recording a checksum warning, with checksums enabled, is a step.
    pub proof fn lemma_push_warning(a: &Analyzer, b: &Analyzer, c: &Analyzer)
        requires
            Analyzer::step(a, b),
            b.do_checksums,
            *c == (Analyzer { warnings: c.warnings, ..*b }),
            c.warnings@.len() == b.warnings@.len() + 1,
            c.warnings@.drop_last() == b.warnings@,
        ensures
            Analyzer::step(a, c),
    {
        assert forall|k: int| 0 <= k < a.warnings@.len() implies #[trigger] c.warnings@[k] == a.warnings@[k] by {
            assert(c.warnings@.drop_last()[k] == c.warnings@[k]);
            assert(b.warnings@[k] == a.warnings@[k]);
        }
    }

    /// Recording one more event is a step.
    pub proof fn lemma_push_event(a: &Analyzer, b: &Analyzer, c: &Analyzer)
        requires
            Analyzer::step(a, b),
            *c == (Analyzer { events: c.events, ..*b }),
            c.events@.len() == b.events@.len() + 1,
            c.events@.drop_last() == b.events@,
        ensures
            Analyzer::step(a, c),
    {
        assert forall|k: int| 0 <= k < a.events@.len() implies #[trigger] c.events@[k] == a.events@[k] by {
            assert(c.events@.drop_last()[k] == c.events@[k]);
            assert(b.events@[k] == a.events@[k]);
        }
    }

    /// Take the events recorded so far, leaving none.
    pub fn take_events(&mut self) -> (r: Vec<Event>)
        ensures
            r@ == old(self).events@,
            final(self).events@.len() == 0,
            final(self).wf() == old(self).wf(),
    {
        let mut r: Vec<Event> = Vec::new();
        std::mem::swap(&mut r, &mut self.events);
        r
    }
}

/// `b[start..end]`.
pub fn subslice(b: &[u8], start: usize, end: usize) -> (r: &[u8])
    requires
        start <= end <= b@.len(),
    ensures
        r@ == b@.subrange(start as int, end as int),
{
    &b[start..end]
}

/// Show a link-layer frame to the physical-layer plugins.
pub fn run_plugins_v2_physical(packet: &Packet, data: &[u8], analyzer: &mut Analyzer)
    requires
        old(analyzer).wf(),
    ensures
        Analyzer::step(old(analyzer), final(analyzer)),
        final(analyzer).events@.len() == old(analyzer).events@.len() + 1,
        final(analyzer).events@.drop_last() == old(analyzer).events@,
        final(analyzer).events@.last() matches Event::Physical { plugins, pcap_index, data: d }
            && plugins@ == dispatch_list(old(analyzer).registry@, LAYER_PHYSICAL, 0) && pcap_index
            == packet.pcap_index && d@ == data@,
        *final(analyzer) == (Analyzer { events: final(analyzer).events, ..*old(analyzer) }),
{
    let plugins = analyzer.registry.plugins_to_run(LAYER_PHYSICAL, 0);
    analyzer.events.push(
        Event::Physical { plugins, pcap_index: packet.pcap_index, data: copy_bytes(data) },
    );
    proof {
        assert(analyzer.events@.drop_last() =~= old(analyzer).events@);
        Analyzer::lemma_step_refl(old(analyzer));
        Analyzer::lemma_push_event(old(analyzer), old(analyzer), analyzer);
    }
}

/// Show the payload of a link-layer frame to the link-layer plugins.
pub fn run_plugins_v2_link(packet: &Packet, linktype: u16, l2_payload: &[u8], analyzer: &mut Analyzer)
    requires
        old(analyzer).wf(),
    ensures
        Analyzer::step(old(analyzer), final(analyzer)),
        final(analyzer).events@.len() == old(analyzer).events@.len() + 1,
        final(analyzer).events@.drop_last() == old(analyzer).events@,
        final(analyzer).events@.last() matches Event::Link { plugins, pcap_index, linktype: t, data: d }
            && plugins@ == dispatch_list(old(analyzer).registry@, LAYER_LINK, linktype) && pcap_index
            == packet.pcap_index && t == linktype && d@ == l2_payload@,
        *final(analyzer) == (Analyzer { events: final(analyzer).events, ..*old(analyzer) }),
{
    let plugins = analyzer.registry.plugins_to_run(LAYER_LINK, linktype);
    analyzer.events.push(
        Event::Link {
            plugins,
            pcap_index: packet.pcap_index,
            linktype,
            data: copy_bytes(l2_payload),
        },
    );
    proof {
        assert(analyzer.events@.drop_last() =~= old(analyzer).events@);
        Analyzer::lemma_step_refl(old(analyzer));
        Analyzer::lemma_push_event(old(analyzer), old(analyzer), analyzer);
    }
}

/// Show a network-layer packet to the network-layer plugins (filtered by
/// EtherType).
pub fn run_plugins_v2_network(
    packet: &Packet,
    l3_payload: &[u8],
    three_tuple: &ThreeTuple,
    l4_proto: u8,
    analyzer: &mut Analyzer,
)
    requires
        old(analyzer).wf(),
    ensures
        Analyzer::step(old(analyzer), final(analyzer)),
        final(analyzer).events@.len() == old(analyzer).events@.len() + 1,
        final(analyzer).events@.drop_last() == old(analyzer).events@,
        final(analyzer).events@.last() matches Event::Network {
            plugins,
            pcap_index,
            three_tuple: t3,
            l4_proto: p,
            data: d,
        } && plugins@ == dispatch_list(old(analyzer).registry@, LAYER_NETWORK, three_tuple.l3_proto)
            && pcap_index == packet.pcap_index && t3 == *three_tuple && p == l4_proto && d@
            == l3_payload@,
        *final(analyzer) == (Analyzer { events: final(analyzer).events, ..*old(analyzer) }),
{
    let plugins = analyzer.registry.plugins_to_run(LAYER_NETWORK, three_tuple.l3_proto);
    analyzer.events.push(
        Event::Network {
            plugins,
            pcap_index: packet.pcap_index,
            three_tuple: *three_tuple,
            l4_proto,
            data: copy_bytes(l3_payload),
        },
    );
    proof {
        assert(analyzer.events@.drop_last() =~= old(analyzer).events@);
        Analyzer::lemma_step_refl(old(analyzer));
        Analyzer::lemma_push_event(old(analyzer), old(analyzer), analyzer);
    }
}

/// Show a transport-layer packet to the transport-layer plugins (filtered by
/// IP protocol).
pub fn run_plugins_v2_transport(pinfo: PacketInfo, analyzer: &mut Analyzer)
    requires
        old(analyzer).wf(),
    ensures
        Analyzer::step(old(analyzer), final(analyzer)),
        final(analyzer).events@.len() == old(analyzer).events@.len() + 1,
        final(analyzer).events@.drop_last() == old(analyzer).events@,
        final(analyzer).events@.last() matches Event::Transport { plugins, info } && plugins@
            == dispatch_list(old(analyzer).registry@, LAYER_TRANSPORT, pinfo.l4_type as u16) && info
            == pinfo,
        *final(analyzer) == (Analyzer { events: final(analyzer).events, ..*old(analyzer) }),
{
    let plugins = analyzer.registry.plugins_to_run(LAYER_TRANSPORT, pinfo.l4_type as u16);
    analyzer.events.push(Event::Transport { plugins, info: pinfo });
    proof {
        assert(analyzer.events@.drop_last() =~= old(analyzer).events@);
        Analyzer::lemma_step_refl(old(analyzer));
        Analyzer::lemma_push_event(old(analyzer), old(analyzer), analyzer);
    }
}

/// Tell the plugins that `flow` was created.
pub fn gen_event_new_flow(flow: &Flow, analyzer: &mut Analyzer)
    requires
        old(analyzer).wf(),
    ensures
        Analyzer::step(old(analyzer), final(analyzer)),
        final(analyzer).events@ == old(analyzer).events@.push(Event::FlowCreated(*flow)),
        *final(analyzer) == (Analyzer { events: final(analyzer).events, ..*old(analyzer) }),
{
    analyzer.events.push(Event::FlowCreated(*flow));
    proof {
        assert(analyzer.events@.drop_last() =~= old(analyzer).events@);
        Analyzer::lemma_step_refl(old(analyzer));
        Analyzer::lemma_push_event(old(analyzer), old(analyzer), analyzer);
    }
}

/// Drop all TCP streams; data still queued in them is not delivered.
pub fn finalize_tcp_streams(analyzer: &mut Analyzer)
    requires
        old(analyzer).wf(),
    ensures
        final(analyzer).wf(),
        final(analyzer).tcp_defrag.m@.len() == 0,
        *final(analyzer) == (Analyzer { tcp_defrag: final(analyzer).tcp_defrag, ..*old(analyzer) }),
{
    analyzer.tcp_defrag.clear();
}

/// The segments of `q` that carry data, in order.
pub open spec fn with_data(q: Seq<TcpSegment>) -> Seq<TcpSegment>
    decreases q.len(),
{
    if q.len() == 0 {
        q
    } else if q.last().data@.len() > 0 {
        with_data(q.drop_last()).push(q.last())
    } else {
        with_data(q.drop_last())
    }
}

/// Show the TCP data that reassembly delivered, as packets going the other
/// way: the data of a peer is released by the ACK of the packet that was
/// just seen.
fn deliver_segments(
    segments: &Vec<TcpSegment>,
    five_tuple: &FiveTuple,
    to_server: bool,
    l3_type: u16,
    flow: &Flow,
    analyzer: &mut Analyzer,
)
    requires
        old(analyzer).wf(),
    ensures
        Analyzer::step(old(analyzer), final(analyzer)),
        *final(analyzer) == (Analyzer { events: final(analyzer).events, ..*old(analyzer) }),
        forall|k: int|
            old(analyzer).events@.len() <= k < final(analyzer).events@.len() ==> (
            #[trigger] final(analyzer).events@[k] matches Event::Transport { info, .. }
                && info.five_tuple == five_tuple.reverse() && info.to_server == !to_server && (
            info.l4_payload matches Some(p) && p@.len() > 0)),
        // one event per delivered segment that carries data, in order
        final(analyzer).events@.len() == old(analyzer).events@.len() + with_data(segments@).len(),
        forall|k: int|
            0 <= k < with_data(segments@).len() ==> (
            #[trigger] final(analyzer).events@[old(analyzer).events@.len() + k] matches Event::Transport { info, .. }
                && (info.l4_payload matches Some(p) && p@ == with_data(segments@)[k].data@)
                && info.pcap_index == with_data(segments@)[k].pcap_index),
{
    let reverse = five_tuple.get_reverse();
    let mut i: usize = 0;
    while i < segments.len()
        invariant
            0 <= i <= segments@.len(),
            Analyzer::step(old(analyzer), analyzer),
            *analyzer == (Analyzer { events: analyzer.events, ..*old(analyzer) }),
            reverse == five_tuple.reverse(),
            forall|k: int|
                old(analyzer).events@.len() <= k < analyzer.events@.len() ==> (
                #[trigger] analyzer.events@[k] matches Event::Transport { info, .. }
                    && info.five_tuple == five_tuple.reverse() && info.to_server == !to_server && (
                info.l4_payload matches Some(p) && p@.len() > 0)),
            analyzer.events@.len() == old(analyzer).events@.len() + with_data(segments@.subrange(0, i as int)).len(),
            forall|k: int|
                0 <= k < with_data(segments@.subrange(0, i as int)).len() ==> (
                #[trigger] analyzer.events@[old(analyzer).events@.len() + k] matches Event::Transport { info, .. }
                    && (info.l4_payload matches Some(p) && p@ == with_data(segments@.subrange(0, i as int))[k].data@)
                    && info.pcap_index == with_data(segments@.subrange(0, i as int))[k].pcap_index),
        decreases segments@.len() - i,
    {
        let seg = &segments[i];
        if seg.data.len() > 0 {
            let pinfo = PacketInfo {
                five_tuple: reverse,
                to_server: !to_server,
                l3_type,
                l4_data: copy_bytes(seg.data.as_slice()),
                l4_type: five_tuple.l4_proto,
                l4_payload: Some(copy_bytes(seg.data.as_slice())),
                flow: Some(*flow),
                pcap_index: seg.pcap_index,
            };
            let ghost prev = *analyzer;
            run_plugins_v2_transport(pinfo, analyzer);
            proof {
                Analyzer::lemma_push_event(old(analyzer), &prev, analyzer);
                assert forall|k: int|
                    old(analyzer).events@.len() <= k < analyzer.events@.len() implies (
                    #[trigger] analyzer.events@[k] matches Event::Transport { info, .. }
                        && info.five_tuple == five_tuple.reverse() && info.to_server == !to_server
                        && (info.l4_payload matches Some(p) && p@.len() > 0)) by {
                    if k < prev.events@.len() {
                        assert(analyzer.events@[k] == prev.events@[k]);
                    }
                }
            }
        }
        proof {
            let before = segments@.subrange(0, i as int);
            let after = segments@.subrange(0, i + 1);
            assert(after.drop_last() =~= before);
            assert(after.last() == segments@[i as int]);
            assert forall|k: int| 0 <= k < with_data(after).len() implies (
                #[trigger] analyzer.events@[old(analyzer).events@.len() + k] matches Event::Transport { info, .. }
                    && (info.l4_payload matches Some(p) && p@ == with_data(after)[k].data@)
                    && info.pcap_index == with_data(after)[k].pcap_index) by {
                if k < with_data(before).len() {
                    assert(with_data(after)[k] == with_data(before)[k]);
                }
            }
        }
        i = i + 1;
    }
    assert(segments@.subrange(0, segments@.len() as int) =~= segments@);
}

/// The index of the flow that a packet of 5-tuple `t` belongs to: the
/// existing one, or the one it creates.
pub open spec fn packet_flow_index(a: &Analyzer, t: FiveTuple) -> int {
    match a.flows.lookup_spec(t) {
        Some(i) => i as int,
        None => a.flows@.len() as int,
    }
}

/// A packet of 5-tuple `t` goes in the canonical direction of flow `f`.
pub open spec fn canonical_direction(f: Flow, t: FiveTuple) -> bool {
    f.five_tuple == t
}

/// The bytes that TCP reassembly takes: the payload, or the layer 4 bytes
/// when no payload is known.
pub open spec fn payload_or_data(l4_payload: Option<&[u8]>, l4_data: &[u8]) -> Seq<u8> {
    match l4_payload {
        Some(p) => p@,
        None => l4_data@,
    }
}

/// Transport layer: find or create the flow of the packet's 5-tuple (in
/// either direction), record the packet's time on it, then either feed TCP
/// reassembly (`tcp` given) and show what it delivers, or show the packet
/// itself to the transport-layer plugins.
#[verifier::rlimit(40)]
pub fn handle_l4_common(
    packet: &Packet,
    l4_data: &[u8],
    l3_info: &L3Info,
    src_port: u16,
    dst_port: u16,
    l4_payload: Option<&[u8]>,
    tcp: Option<&TcpHeader>,
    analyzer: &mut Analyzer,
)
    requires
        old(analyzer).wf(),
    ensures
        Analyzer::step(old(analyzer), final(analyzer)),
        (old(analyzer).flows.has_flow(FiveTuple::from_three_tuple_spec(l3_info.three_tuple, src_port, dst_port, l3_info.l4_proto)) || old(analyzer).flows@.len() < usize::MAX) ==> final(analyzer).flows.has_flow(
            FiveTuple::from_three_tuple_spec(l3_info.three_tuple, src_port, dst_port, l3_info.l4_proto),
        ),
        !old(analyzer).flows.has_flow(
            FiveTuple::from_three_tuple_spec(l3_info.three_tuple, src_port, dst_port, l3_info.l4_proto),
        ) && old(analyzer).flows@.len() < usize::MAX ==> final(analyzer).flows@.len() == old(analyzer).flows@.len() + 1
            && (final(analyzer).events@[old(analyzer).events@.len() as int] matches Event::FlowCreated(f)
            && f.flow_id == old(analyzer).flows@.len() && f.five_tuple == FiveTuple::from_three_tuple_spec(
            l3_info.three_tuple,
            src_port,
            dst_port,
            l3_info.l4_proto,
        )),
        old(analyzer).flows.has_flow(
            FiveTuple::from_three_tuple_spec(l3_info.three_tuple, src_port, dst_port, l3_info.l4_proto),
        ) ==> final(analyzer).flows@.len() == old(analyzer).flows@.len(),
        // the packet's flow: the existing one, or a new one at the end
        (old(analyzer).flows.has_flow(FiveTuple::from_three_tuple_spec(l3_info.three_tuple, src_port, dst_port, l3_info.l4_proto)) || old(analyzer).flows@.len() < usize::MAX) ==> {
            let t = FiveTuple::from_three_tuple_spec(l3_info.three_tuple, src_port, dst_port, l3_info.l4_proto);
            let id = match old(analyzer).flows.lookup_spec(t) {
                Some(i) => i as int,
                None => old(analyzer).flows@.len() as int,
            };
            let f = final(analyzer).flows@[id];
            &&& 0 <= id < final(analyzer).flows@.len()
            &&& f.flow_id == id
            &&& f.five_tuple.same_flow(t)
            &&& old(analyzer).flows.has_flow(t) ==> f.five_tuple == old(analyzer).flows@[id].five_tuple
                && f.first_seen == old(analyzer).flows@[id].first_seen
            &&& !old(analyzer).flows.has_flow(t) ==> f.five_tuple == t && f.first_seen == packet.ts
            &&& f.last_seen.total_micros() >= packet.ts.total_micros()
            &&& f.last_seen == packet.ts || (old(analyzer).flows.has_flow(t) && f.last_seen
                == old(analyzer).flows@[id].last_seen)
            &&& old(analyzer).flows.has_flow(t) ==> f.last_seen.total_micros()
                >= old(analyzer).flows@[id].last_seen.total_micros()
            // a flow is announced once, when it is created
            &&& forall|k: int|
                old(analyzer).events@.len() <= k < final(analyzer).events@.len()
                    && #[trigger] final(analyzer).events@[k] is FlowCreated ==> k == old(analyzer).events@.len() && !old(analyzer).flows.has_flow(t)
            // without reassembly, one Transport event follows, for the table's flow
            &&& tcp is None ==> final(analyzer).events@.len() == old(analyzer).events@.len() + 1
                + if old(analyzer).flows.has_flow(t) {
                0int
            } else {
                1int
            } && (final(analyzer).events@.last() matches Event::Transport { plugins, info }
                && plugins@ == dispatch_list(old(analyzer).registry@, LAYER_TRANSPORT, t.l4_proto as u16)
                && info.flow == Some(f) && info.to_server == (f.five_tuple == t)
                && info.l3_type == l3_info.three_tuple.l3_proto && info.l4_type == t.l4_proto
                && match l4_payload {
                Some(p) => info.l4_payload matches Some(q) && q@ == p@,
                None => info.l4_payload is None,
            })
        },
        // with reassembly, the flow's stream takes its step, and each
        // delivered segment that carries data is shown, in order, going the
        // other way
        tcp is Some && (old(analyzer).flows.has_flow(FiveTuple::from_three_tuple_spec(l3_info.three_tuple, src_port, dst_port, l3_info.l4_proto)) || old(analyzer).flows@.len() < usize::MAX) ==> exists|d: Seq<TcpSegment>, r: Result<(), TcpStreamError>|
                #[trigger] TcpStreamReassembly::update_spec(
                    old(analyzer).tcp_defrag,
                    final(analyzer).tcp_defrag,
                    final(analyzer).flows@[packet_flow_index(old(analyzer), FiveTuple::from_three_tuple_spec(l3_info.three_tuple, src_port, dst_port, l3_info.l4_proto))],
                    *tcp.unwrap(),
                    payload_or_data(l4_payload, l4_data),
                    canonical_direction(final(analyzer).flows@[packet_flow_index(old(analyzer), FiveTuple::from_three_tuple_spec(l3_info.three_tuple, src_port, dst_port, l3_info.l4_proto))], FiveTuple::from_three_tuple_spec(l3_info.three_tuple, src_port, dst_port, l3_info.l4_proto)),
                    packet.pcap_index,
                    Seq::empty(),
                    d,
                    r,
                ) && final(analyzer).events@.len() == old(analyzer).events@.len() + (if old(analyzer).flows.has_flow(FiveTuple::from_three_tuple_spec(l3_info.three_tuple, src_port, dst_port, l3_info.l4_proto)) {
                    0int
                } else {
                    1int
                }) + with_data(d).len() && forall|k: int|
                    0 <= k < with_data(d).len() ==> (#[trigger] final(analyzer).events@[final(analyzer).events@.len() - with_data(d).len() + k] matches Event::Transport { info, .. }
                        && info.five_tuple == FiveTuple::from_three_tuple_spec(l3_info.three_tuple, src_port, dst_port, l3_info.l4_proto).reverse()
                        && info.to_server == !canonical_direction(final(analyzer).flows@[packet_flow_index(old(analyzer), FiveTuple::from_three_tuple_spec(l3_info.three_tuple, src_port, dst_port, l3_info.l4_proto))], FiveTuple::from_three_tuple_spec(l3_info.three_tuple, src_port, dst_port, l3_info.l4_proto))
                        && (info.l4_payload matches Some(p) && p@ == with_data(d)[k].data@)
                        && info.pcap_index == with_data(d)[k].pcap_index),
        // without TCP reassembly, the packet itself is shown, in the direction
        // that its flow gives it
        tcp is None && (old(analyzer).flows.has_flow(FiveTuple::from_three_tuple_spec(l3_info.three_tuple, src_port, dst_port, l3_info.l4_proto)) || old(analyzer).flows@.len() < usize::MAX) ==> (final(analyzer).events@.last() matches Event::Transport { info, .. }
            && info.five_tuple == FiveTuple::from_three_tuple_spec(
            l3_info.three_tuple,
            src_port,
            dst_port,
            l3_info.l4_proto,
        ) && (info.flow matches Some(fl) && fl.five_tuple.same_flow(info.five_tuple)
            && info.to_server == (fl.five_tuple == info.five_tuple)) && info.pcap_index
            == packet.pcap_index && info.l4_data@ == l4_data@),
        // with TCP reassembly, what is shown is acknowledged data of the other
        // side, going the other way
        tcp is Some ==> forall|k: int|
            old(analyzer).events@.len() <= k < final(analyzer).events@.len() ==> (
            #[trigger] final(analyzer).events@[k] is FlowCreated
                || (final(analyzer).events@[k] matches Event::Transport { info, .. } && info.five_tuple
                == FiveTuple::from_three_tuple_spec(
                l3_info.three_tuple,
                src_port,
                dst_port,
                l3_info.l4_proto,
            ).reverse() && (info.l4_payload matches Some(p) && p@.len() > 0))),
{
    let five_tuple = FiveTuple::from_three_tuple(
        &l3_info.three_tuple,
        src_port,
        dst_port,
        l3_info.l4_proto,
    );
    let flow_id = match analyzer.flows.lookup_flow(&five_tuple) {
        Some(id) => id,
        None => {
            if analyzer.flows.len() == usize::MAX {
                return;
            }
            let flow = Flow {
                flow_id: 0,
                five_tuple,
                first_seen: packet.ts,
                last_seen: packet.ts,
            };
            let id = analyzer.flows.insert_flow(five_tuple, flow);
            let created = Flow { flow_id: id, ..flow };
            gen_event_new_flow(&created, analyzer);
            proof {
                assert forall|k: int| 0 <= k < old(analyzer).flows@.len() implies (
                #[trigger] analyzer.flows@[k]).five_tuple == old(analyzer).flows@[k].five_tuple by {
                    assert(analyzer.flows@[k] == old(analyzer).flows@[k]);
                }
            }
            id
        },
    };
    proof {
        assert(analyzer.flows.lookup_spec(five_tuple) == Some(flow_id));
        let k = choose|k: int| 0 <= k < analyzer.flows@.len() && (#[trigger] analyzer.flows@[k]).five_tuple.same_flow(five_tuple);
        assert(k == flow_id);
    }
    let ghost before = analyzer.flows@;
    analyzer.flows.touch_flow(flow_id, packet.ts);
    proof {
        assert(analyzer.flows@[flow_id as int].five_tuple.same_flow(five_tuple));
        assert(analyzer.flows.has_flow(five_tuple));
        assert forall|k: int| 0 <= k < old(analyzer).flows@.len() implies (
        #[trigger] analyzer.flows@[k]).five_tuple == old(analyzer).flows@[k].five_tuple by {
            assert(analyzer.flows@[k].five_tuple == before[k].five_tuple);
        }
        assert(Analyzer::step(old(analyzer), analyzer));
    }
    let ghost mid_events = analyzer.events@;
    proof {
        if !old(analyzer).flows.has_flow(five_tuple) {
            assert(mid_events.len() == old(analyzer).events@.len() + 1);
            assert(mid_events[old(analyzer).events@.len() as int] matches Event::FlowCreated(f)
                && f.flow_id == old(analyzer).flows@.len() && f.five_tuple == five_tuple);
        }
    }
    let flow = match analyzer.flows.get_flow(flow_id) {
        Some(f) => f,
        None => {
            return;
        },
    };
    let to_server = flow.five_tuple == five_tuple;
    match tcp {
        Some(h) => {
            let payload: &[u8] = match l4_payload {
                Some(p) => p,
                None => l4_data,
            };
            let mut delivered: Vec<TcpSegment> = Vec::new();
            let ghost before_tcp = *analyzer;
            let r = analyzer.tcp_defrag.update(
                &flow,
                h,
                payload,
                to_server,
                packet.pcap_index,
                &mut delivered,
            );
            let ghost after_tcp = *analyzer;
            proof {
                assert(Analyzer::step(&before_tcp, &after_tcp));
                Analyzer::lemma_step_trans(old(analyzer), &before_tcp, &after_tcp);
            }
            deliver_segments(
                &delivered,
                &five_tuple,
                to_server,
                l3_info.three_tuple.l3_proto,
                &flow,
                analyzer,
            );
            proof {
                Analyzer::lemma_step_trans(old(analyzer), &after_tcp, analyzer);
                assert(after_tcp.events@ == mid_events);
                assert forall|k: int|
                    old(analyzer).events@.len() <= k < analyzer.events@.len() implies (
                    #[trigger] analyzer.events@[k] is FlowCreated || (
                    analyzer.events@[k] matches Event::Transport { info, .. } && info.five_tuple
                        == five_tuple.reverse() && (info.l4_payload matches Some(p) && p@.len()
                        > 0))) by {
                    if k < mid_events.len() {
                        assert(analyzer.events@[k] == mid_events[k]);
                        assert(k == old(analyzer).events@.len());
                    }
                }
                if mid_events.len() > old(analyzer).events@.len() {
                    assert(analyzer.events@[old(analyzer).events@.len() as int]
                        == mid_events[old(analyzer).events@.len() as int]);
                }
                let dl = delivered@;
                assert(TcpStreamReassembly::update_spec(before_tcp.tcp_defrag, analyzer.tcp_defrag, flow, *h,
                    payload@, to_server, packet.pcap_index, Seq::<TcpSegment>::empty(), dl, r));
                assert(analyzer.flows@ == after_tcp.flows@);
                assert(analyzer.events@.len() - with_data(dl).len() == mid_events.len());
                let id = flow_id as int;
                assert(packet_flow_index(old(analyzer), five_tuple) == id);
                assert(analyzer.flows@[id] == flow);
                assert(payload@ == payload_or_data(l4_payload, l4_data));
                assert(to_server == canonical_direction(flow, five_tuple));
                assert(before_tcp.tcp_defrag == old(analyzer).tcp_defrag);
                assert(TcpStreamReassembly::update_spec(
                    old(analyzer).tcp_defrag,
                    analyzer.tcp_defrag,
                    analyzer.flows@[id],
                    *h,
                    payload_or_data(l4_payload, l4_data),
                    canonical_direction(analyzer.flows@[id], five_tuple),
                    packet.pcap_index,
                    Seq::<TcpSegment>::empty(),
                    dl,
                    r,
                ));
                assert forall|k: int| 0 <= k < with_data(dl).len() implies (#[trigger] analyzer.events@[analyzer.events@.len() - with_data(dl).len() + k] matches Event::Transport { info, .. }
                    && info.five_tuple == five_tuple.reverse() && info.to_server == (flow.five_tuple != five_tuple)
                    && (info.l4_payload matches Some(p) && p@ == with_data(dl)[k].data@)
                    && info.pcap_index == with_data(dl)[k].pcap_index) by {
                    let j = mid_events.len() + k;
                    assert(analyzer.events@.len() - with_data(dl).len() + k == j);
                    assert(old(analyzer).events@.len() <= j < analyzer.events@.len());
                }
            }
        },
        None => {
            let pinfo = PacketInfo {
                five_tuple,
                to_server,
                l3_type: l3_info.three_tuple.l3_proto,
                l4_data: copy_bytes(l4_data),
                l4_type: five_tuple.l4_proto,
                l4_payload: match l4_payload {
                    Some(p) => Some(copy_bytes(p)),
                    None => None,
                },
                flow: Some(flow),
                pcap_index: packet.pcap_index,
            };
            let ghost prev = *analyzer;
            run_plugins_v2_transport(pinfo, analyzer);
            proof {
                Analyzer::lemma_push_event(old(analyzer), &prev, analyzer);
                if mid_events.len() > old(analyzer).events@.len() {
                    assert(analyzer.events@[old(analyzer).events@.len() as int]
                        == mid_events[old(analyzer).events@.len() as int]);
                }
            }
        },
    }
}

/// Link layer (Ethernet): trim the frame to the captured length, show it to
/// the physical-layer plugins, drop frames shorter than an Ethernet header and
/// Cisco control frames, show the payload to the link-layer plugins, and go
/// on by EtherType.
pub fn handle_l2(packet: &Packet, data: &[u8], analyzer: &mut Analyzer, depth: u32)
    requires
        old(analyzer).wf(),
    ensures
        Analyzer::step(old(analyzer), final(analyzer)),
        depth == 0 ==> *final(analyzer) == *old(analyzer),
        depth > 0 ==> physical_first(old(analyzer), final(analyzer), packet, data@),
        depth > 0 ==> l2_rest(old(analyzer), final(analyzer), packet, data@, depth),
    decreases depth,
{
    proof {
        Analyzer::lemma_step_refl(old(analyzer));
    }
    if depth == 0 {
        return;
    }
    // resize slice to remove padding
    let caplen = packet.caplen as usize;
    let datalen = if caplen < data.len() {
        caplen
    } else {
        data.len()
    };
    let data = subslice(data, 0, datalen);
    let ghost s = *analyzer;
    run_plugins_v2_physical(packet, data, analyzer);
    let ghost after_physical = *analyzer;
    proof {
        Analyzer::lemma_step_trans(old(analyzer), &s, analyzer);
        Analyzer::lemma_step_refl(&after_physical);
    }
    if data.len() < ETHERNET_HEADER_LEN {
        // packet too small to be ethernet
        return;
    }
    if is_cisco_control(data) {
        // Cisco CDP/VTP/UDLD: the 'ethertype' field is used for length
        return;
    }
    let ethertype = read_be16(data, 12);
    let payload = subslice(data, ETHERNET_HEADER_LEN, data.len());
    let ghost s = *analyzer;
    run_plugins_v2_link(packet, LINKTYPE_ETHERNET, payload, analyzer);
    let ghost after_link = *analyzer;
    proof {
        Analyzer::lemma_step_trans(old(analyzer), &s, analyzer);
        Analyzer::lemma_step_trans(&after_physical, &s, analyzer);
        Analyzer::lemma_step_refl(&after_link);
    }
    let ghost s = *analyzer;
    handle_l3(packet, payload, ethertype, analyzer, depth - 1);
    proof {
        Analyzer::lemma_step_trans(old(analyzer), &s, analyzer);
        Analyzer::lemma_step_trans(&after_physical, &s, analyzer);
        assert(analyzer.events@[old(analyzer).events@.len() as int] == after_physical.events@[old(analyzer).events@.len() as int]);
        assert(after_link.events@.len() == old(analyzer).events@.len() + 2);
        assert(after_link == (Analyzer { events: after_link.events, ..*old(analyzer) }));
    }
}

/// EtherTypes that the network layer handles (ARP is handled by ignoring it).
pub open spec fn known_ethertype(et: u16) -> bool {
    et == ETHERTYPE_IPV4 || et == ETHERTYPE_IPV6 || et == ETHERTYPE_VLAN || et == ETHERTYPE_PPP
        || et == ETHERTYPE_ERSPAN || et == ETHERTYPE_PPPOE_SESSION || et == ETHERTYPE_ARP
}

/// The network-layer identity given to a packet of an unsupported EtherType:
/// its addresses are not known.
pub open spec fn generic_three_tuple(et: u16) -> ThreeTuple {
    ThreeTuple { l3_proto: et, src: IpAddr::V4(0), dst: IpAddr::V4(0) }
}

/// What the network layer, entered with `depth` levels left, does with the
/// bytes `d` of EtherType `et`, as far as the first event recorded.
pub open spec fn l3_first(old: &Analyzer, new: &Analyzer, d: Seq<u8>, et: u16, packet: &Packet, depth: u32) -> bool {
    &&& (d.len() == 0 || et == ETHERTYPE_ARP) ==> *new == *old
    // unsupported: the network-layer plugins of that EtherType see it, then stop
    &&& d.len() > 0 && !known_ethertype(et) ==> network_first(old, new, generic_three_tuple(et), 0, d, packet.pcap_index)
        && new.events@.len() == old.events@.len() + 1 && *new == (Analyzer { events: new.events, ..*old })
    // IPv4 and IPv6: what those layers do
    &&& depth > 1 && et == ETHERTYPE_IPV4 ==> ipv4_effect(old, new, packet, d, (depth - 1) as u32)
    &&& depth > 1 && et == ETHERTYPE_IPV6 ==> ipv6_effect(old, new, packet, d, (depth - 1) as u32)
}

/// The first event that the network layer records for bytes `d` of
/// EtherType `et`: the network-layer event of IPv4 and IPv6 packets, the
/// generic one of unsupported EtherTypes.
pub open spec fn l3_first_shallow(old: &Analyzer, new: &Analyzer, d: Seq<u8>, et: u16, packet: &Packet, depth: u32) -> bool {
    &&& (d.len() == 0 || et == ETHERTYPE_ARP) ==> *new == *old
    &&& d.len() > 0 && !known_ethertype(et) ==> network_first(old, new, generic_three_tuple(et), 0, d, packet.pcap_index)
        && new.events@.len() == old.events@.len() + 1 && *new == (Analyzer { events: new.events, ..*old })
    &&& depth > 1 && et == ETHERTYPE_IPV4 && ipv4_valid(d) ==> ipv4_network_first(old, new, d, packet.pcap_index)
    &&& depth > 1 && et == ETHERTYPE_IPV6 && d.len() >= 40 ==> match ipv6_walk(
        ipv6_spec(d).next_header,
        ipv6_payload(d),
        None,
    ) {
        None => *new == *old,
        Some((p, pl, _)) => network_first(
            old,
            new,
            ThreeTuple { l3_proto: ETHERTYPE_IPV6, src: IpAddr::V6(ipv6_spec(d).src), dst: IpAddr::V6(ipv6_spec(d).dst) },
            p,
            pl,
            packet.pcap_index,
        ),
    }
}

/// The network layer's full effect implies its first event.
pub proof fn lemma_l3_first_shallow(old: &Analyzer, new: &Analyzer, d: Seq<u8>, et: u16, packet: &Packet, depth: u32)
    requires
        l3_first(old, new, d, et, packet, depth),
    ensures
        l3_first_shallow(old, new, d, et, packet, depth),
{
    if depth > 1 && et == ETHERTYPE_IPV6 && d.len() >= 40 {
        let h = ipv6_spec(d);
        match ipv6_walk(h.next_header, ipv6_payload(d), None) {
            None => {},
            Some((p, pl, fr)) => {
                let t3 = ThreeTuple { l3_proto: ETHERTYPE_IPV6, src: IpAddr::V6(h.src), dst: IpAddr::V6(h.dst) };
                assert(ipv6_after_walk(old, new, packet, (depth - 1) as u32, t3, p, pl, fr));
            },
        }
    }
}

/// The frame that the link layer works on: the bytes cut to the captured
/// length.
pub open spec fn captured_frame(packet: &Packet, d: Seq<u8>) -> Seq<u8> {
    d.subrange(0, if packet.caplen < d.len() { packet.caplen as int } else { d.len() as int })
}

/// The first event recorded after `old` shows the link-layer frame `d` (cut
/// to the captured length) to the physical-layer plugins.
pub open spec fn physical_first(old: &Analyzer, new: &Analyzer, packet: &Packet, d: Seq<u8>) -> bool {
    &&& new.events@.len() > old.events@.len()
    &&& new.events@[old.events@.len() as int] matches Event::Physical { plugins, pcap_index, data }
        && plugins@ == dispatch_list(old.registry@, LAYER_PHYSICAL, 0) && pcap_index
        == packet.pcap_index && data@ == captured_frame(packet, d)
}

/// After the physical-layer event: a short or Cisco control frame stops
/// there; an Ethernet frame's payload goes to the link-layer plugins, then to
/// the network layer by EtherType.
pub open spec fn l2_rest(old: &Analyzer, new: &Analyzer, packet: &Packet, data: Seq<u8>, depth: u32) -> bool {
    let frame = captured_frame(packet, data);
    &&& (frame.len() < ETHERNET_HEADER_LEN || is_cisco_control_spec(frame)) ==> new.events@.len()
        == old.events@.len() + 1 && new.flows@ == old.flows@
    // an Ethernet frame: its payload goes to the link-layer plugins, then
    // to the network layer by EtherType
    &&& depth > 1 && frame.len() >= ETHERNET_HEADER_LEN && !is_cisco_control_spec(frame) ==> exists|a: Analyzer|
        #[trigger] l3_first(
            &a,
            new,
            frame.subrange(14, frame.len() as int),
            be16_at(frame, 12),
            packet,
            (depth - 1) as u32,
        ) && a.events@.len() == old.events@.len() + 2 && (a.events@[old.events@.len() + 1int] matches Event::Link {
            plugins,
            linktype,
            data: d,
            ..
        } && plugins@ == dispatch_list(old.registry@, LAYER_LINK, LINKTYPE_ETHERNET)
            && linktype == LINKTYPE_ETHERNET && d@ == frame.subrange(14, frame.len() as int))
}

/// Network layer, by EtherType: IPv4, IPv6, 802.1Q, PPP, ERSPAN and PPPoE
/// sessions are handled and ARP is ignored; a packet of another EtherType is
/// shown to the network-layer plugins of that EtherType (with unknown
/// addresses) and goes no further.
pub fn handle_l3(packet: &Packet, data: &[u8], ethertype: u16, analyzer: &mut Analyzer, depth: u32)
    requires
        old(analyzer).wf(),
    ensures
        Analyzer::step(old(analyzer), final(analyzer)),
        depth == 0 ==> *final(analyzer) == *old(analyzer),
        depth > 0 ==> l3_first(old(analyzer), final(analyzer), data@, ethertype, packet, depth),
    decreases depth,
{
    proof {
        Analyzer::lemma_step_refl(old(analyzer));
    }
    if depth == 0 {
        return;
    }
    if data.len() == 0 {
        return;
    }
    if ethertype == ETHERTYPE_IPV4 {
        handle_l3_ipv4(packet, data, analyzer, depth - 1);
    } else if ethertype == ETHERTYPE_IPV6 {
        handle_l3_ipv6(packet, data, analyzer, depth - 1);
    } else if ethertype == ETHERTYPE_VLAN {
        handle_l3_vlan_801q(packet, data, analyzer, depth - 1);
    } else if ethertype == ETHERTYPE_PPP {
        handle_l3_ppp(packet, data, analyzer, depth - 1);
    } else if ethertype == ETHERTYPE_ERSPAN {
        handle_l3_erspan(packet, data, analyzer, depth - 1);
    } else if ethertype == ETHERTYPE_PPPOE_SESSION {
        handle_l3_pppoesession(packet, data, analyzer, depth - 1);
    } else if ethertype == ETHERTYPE_ARP {
        // ARP is ignored
    } else {
        // unsupported EtherType: only the network-layer plugins for it
        let t3 = ThreeTuple { l3_proto: ethertype, src: IpAddr::V4(0), dst: IpAddr::V4(0) };
        run_plugins_v2_network(packet, data, &t3, 0, analyzer);
    }
}

/// Record a checksum warning when checksums are enabled and the stored one
/// differs from the computed one.
fn record_checksum(analyzer: &mut Analyzer, kind: ChecksumKind, computed: u16, stored: u16, pcap_index: usize)
    requires
        old(analyzer).wf(),
        old(analyzer).do_checksums,
    ensures
        Analyzer::step(old(analyzer), final(analyzer)),
        *final(analyzer) == (Analyzer { warnings: final(analyzer).warnings, ..*old(analyzer) }),
        final(analyzer).warnings@ == if computed != stored {
            old(analyzer).warnings@.push(
                ChecksumMismatch { kind, pcap_index, computed, stored },
            )
        } else {
            old(analyzer).warnings@
        },
{
    proof {
        Analyzer::lemma_step_refl(old(analyzer));
    }
    if let Some(w) = checksum_warning(kind, computed, stored, pcap_index) {
        analyzer.warnings.push(w);
        proof {
            assert(analyzer.warnings@.drop_last() =~= old(analyzer).warnings@);
            Analyzer::lemma_push_warning(old(analyzer), old(analyzer), analyzer);
        }
    }
}

/// The first event recorded after `old` is the network-layer event of the
/// IPv4 packet `b` (cut to its total length).
pub open spec fn ipv4_network_first(old: &Analyzer, new: &Analyzer, b: Seq<u8>, pcap_index: usize) -> bool {
    let h = ipv4_spec(b);
    &&& new.events@.len() > old.events@.len()
    &&& new.events@[old.events@.len() as int] matches Event::Network {
        plugins,
        pcap_index: pi,
        three_tuple,
        l4_proto,
        data,
    } && plugins@ == dispatch_list(old.registry@, LAYER_NETWORK, ETHERTYPE_IPV4) && pi == pcap_index
        && three_tuple == (ThreeTuple {
        l3_proto: ETHERTYPE_IPV4,
        src: IpAddr::V4(h.src),
        dst: IpAddr::V4(h.dst),
    }) && l4_proto == h.proto && data@ == ipv4_trimmed(b)
}

/// The bytes over which the IPv4 header checksum is computed: at most the
/// largest header (60 bytes) of the packet.
pub open spec fn ipv4_header_bytes(b: Seq<u8>) -> Seq<u8> {
    b.subrange(0, if b.len() < 60 { b.len() as int } else { 60 })
}

/// What the IPv4 layer, entered with `depth` levels left, does with the
/// packet `data`.
pub open spec fn ipv4_effect(old: &Analyzer, new: &Analyzer, packet: &Packet, data: Seq<u8>, depth: u32) -> bool {
    depth > 0 && ipv4_valid(data) ==> {
        let h = ipv4_spec(data);
        let d = ipv4_trimmed(data);
        let hdr = ipv4_header_bytes(d);
        let payload = d.subrange(h.header_len as int, d.len() as int);
        let key = FragKey {
            id: h.identification as u32,
            src: IpAddr::V4(h.src),
            dst: IpAddr::V4(h.dst),
            proto: h.proto,
        };
        &&& ipv4_network_first(old, new, data, packet.pcap_index)
        &&& old.do_checksums && ipv4_checksum_of(hdr) != h.checksum ==> new.warnings@.len() > old.warnings@.len() && new.warnings@[old.warnings@.len() as int] == (ChecksumMismatch {
            kind: ChecksumKind::Ipv4,
            pcap_index: packet.pcap_index,
            computed: ipv4_checksum_of(hdr),
            stored: h.checksum,
        })
        // not a fragment: the payload (after the header, up to the total
        // length) goes on to the transport layer
        &&& 20 <= h.header_len <= d.len() && !(h.more_fragments || h.frag_offset != 0) ==> exists|a: Analyzer|
            #[trigger] common_first(&a, new, payload, L3Info {
                l4_proto: h.proto,
                three_tuple: ThreeTuple { l3_proto: ETHERTYPE_IPV4, src: IpAddr::V4(h.src), dst: IpAddr::V4(h.dst) },
            }, packet, (depth - 1) as u32) && a.events@.len() == old.events@.len() + 1
                && a.flows@ == old.flows@
        &&& (h.header_len < 20 || h.header_len > d.len()) ==> new.events@.len()
            == old.events@.len() + 1 && new.flows@ == old.flows@
        &&& 20 <= h.header_len <= d.len() && (h.more_fragments || h.frag_offset != 0) ==> exists|
            r: Fragment,
            mid: IPDefragEngine,
        |
            #[trigger] IPDefragEngine::update_spec(
                old.ipv4_defrag,
                mid,
                key,
                h.frag_offset,
                h.more_fragments,
                payload,
                packet.ts,
                r,
            ) && ((r is Incomplete || r is Error) ==> new.ipv4_defrag == mid
                && new.events@.len() == old.events@.len() + 1 && new.flows@ == old.flows@)
                // a completed datagram goes on to the transport layer
                && (r is Complete ==> exists|a: Analyzer|
                #[trigger] common_first(&a, new, r->Complete_0@, L3Info {
                    l4_proto: h.proto,
                    three_tuple: ThreeTuple { l3_proto: ETHERTYPE_IPV4, src: IpAddr::V4(h.src), dst: IpAddr::V4(h.dst) },
                }, packet, (depth - 1) as u32) && a.ipv4_defrag == mid && a.flows@ == old.flows@)
    }
}

/// IPv4: strip Ethernet padding (a total length of 0 means segmentation
/// offload: the payload runs to the end), check the header checksum if
/// enabled, show the packet to the network-layer plugins, reassemble
/// fragments, and go on by protocol.
pub fn handle_l3_ipv4(packet: &Packet, data: &[u8], analyzer: &mut Analyzer, depth: u32)
    requires
        old(analyzer).wf(),
    ensures
        Analyzer::step(old(analyzer), final(analyzer)),
        depth == 0 || !ipv4_valid(data@) ==> *final(analyzer) == *old(analyzer),
        ipv4_effect(old(analyzer), final(analyzer), packet, data@, depth),
    decreases depth,
{
    proof {
        Analyzer::lemma_step_refl(old(analyzer));
    }
    if depth == 0 {
        return;
    }
    let h = match parse_ipv4(data) {
        Some(h) => h,
        None => {
            return;
        },
    };
    let ip_len = h.total_length as usize;
    if ip_len > 0 && ip_len < 20 {
        return;
    }
    // remove padding
    let data = if ip_len < data.len() && ip_len > 0 {
        subslice(data, 0, ip_len)
    } else {
        data
    };
    let t3 = ThreeTuple { l3_proto: ETHERTYPE_IPV4, src: IpAddr::V4(h.src), dst: IpAddr::V4(h.dst) };
    if analyzer.do_checksums {
        let header_end = if data.len() < 60 {
            data.len()
        } else {
            60
        };
        let cksum = ipv4_header_checksum(subslice(data, 0, header_end));
        let ghost s = *analyzer;
        record_checksum(analyzer, ChecksumKind::Ipv4, cksum, h.checksum, packet.pcap_index);
        proof {
            Analyzer::lemma_step_trans(old(analyzer), &s, analyzer);
        }
    }
    let ghost after_check = *analyzer;
    proof {
        Analyzer::lemma_step_refl(&after_check);
    }
    run_plugins_v2_network(packet, data, &t3, h.proto, analyzer);
    let ghost after_net = *analyzer;
    proof {
        Analyzer::lemma_step_trans(old(analyzer), &after_check, analyzer);
        Analyzer::lemma_step_trans(&after_check, &after_check, analyzer);
        Analyzer::lemma_step_refl(&after_net);
    }
    let start = h.header_len;
    if start < 20 || start > data.len() {
        return;
    }
    let payload = subslice(data, start, data.len());
    let l3_info = L3Info { l4_proto: h.proto, three_tuple: t3 };
    if h.frag_offset != 0 || h.more_fragments {
        let key = FragKey {
            id: h.identification as u32,
            src: IpAddr::V4(h.src),
            dst: IpAddr::V4(h.dst),
            proto: h.proto,
        };
        let ghost s = *analyzer;
        let defrag = analyzer.ipv4_defrag.update(key, h.frag_offset, h.more_fragments, payload, packet.ts);
        let ghost gr = defrag;
        let ghost mid = analyzer.ipv4_defrag;
        proof {
            Analyzer::lemma_step_trans(old(analyzer), &s, analyzer);
            Analyzer::lemma_step_trans(&after_check, &s, analyzer);
            assert(IPDefragEngine::update_spec(old(analyzer).ipv4_defrag, mid, key, h.frag_offset,
                h.more_fragments, payload@, packet.ts, gr));
        }
        match defrag {
            Fragment::Complete(v) => {
                let ghost s = *analyzer;
                handle_l3_common(packet, v.as_slice(), &l3_info, analyzer, depth - 1);
                proof {
                    Analyzer::lemma_step_trans(old(analyzer), &s, analyzer);
                    Analyzer::lemma_step_trans(&after_check, &s, analyzer);
                    assert(common_first(&s, analyzer, v@, l3_info, packet, (depth - 1) as u32));
                    assert(gr->Complete_0@ == v@);
                }
            },
            Fragment::NoFrag => {
                let ghost s = *analyzer;
                handle_l3_common(packet, payload, &l3_info, analyzer, depth - 1);
                proof {
                    Analyzer::lemma_step_trans(old(analyzer), &s, analyzer);
                    Analyzer::lemma_step_trans(&after_check, &s, analyzer);
                }
            },
            _ => {},
        }
    } else {
        let ghost s = *analyzer;
        handle_l3_common(packet, payload, &l3_info, analyzer, depth - 1);
        proof {
            Analyzer::lemma_step_trans(old(analyzer), &s, analyzer);
            Analyzer::lemma_step_trans(&after_check, &s, analyzer);
            assert(common_first(&s, analyzer, payload@, l3_info, packet, (depth - 1) as u32));
        }
    }
}

/// What an IPv6 fragment does: the IPv6 defragmenter takes it, and while the
/// datagram is incomplete (or in error) nothing else changes.
pub open spec fn ipv6_fragment_effect(
    old: &Analyzer,
    new: &Analyzer,
    f: Ipv6Fragment,
    l3: L3Info,
    data: Seq<u8>,
    packet: &Packet,
    depth: u32,
) -> bool {
    let key = FragKey { id: f.id, src: l3.three_tuple.src, dst: l3.three_tuple.dst, proto: l3.l4_proto };
    exists|r: Fragment, mid: IPDefragEngine|
        #[trigger] IPDefragEngine::update_spec(
            old.ipv6_defrag,
            mid,
            key,
            f.offset,
            f.more_fragments,
            data,
            packet.ts,
            r,
        ) && ((r is Incomplete || r is Error) ==> *new == (Analyzer { ipv6_defrag: mid, ..*old }))
            // a completed datagram goes on to the transport layer
            && (r is Complete ==> exists|a: Analyzer|
            #[trigger] common_first(&a, new, r->Complete_0@, l3, packet, depth)
                && a == (Analyzer { ipv6_defrag: mid, ..*old }))
            // an atomic fragment goes on as it is
            && (r is NoFrag ==> exists|a: Analyzer|
            #[trigger] common_first(&a, new, data, l3, packet, depth)
                && a == (Analyzer { ipv6_defrag: mid, ..*old }))
}

/// The first event recorded after `old` is the network-layer event of
/// `three_tuple`, `l4_proto` and `data`.
pub open spec fn network_first(
    old: &Analyzer,
    new: &Analyzer,
    t3: ThreeTuple,
    proto: u8,
    d: Seq<u8>,
    pcap_index: usize,
) -> bool {
    &&& new.events@.len() > old.events@.len()
    &&& new.events@[old.events@.len() as int] matches Event::Network {
        plugins,
        pcap_index: pi,
        three_tuple,
        l4_proto,
        data,
    } && plugins@ == dispatch_list(old.registry@, LAYER_NETWORK, t3.l3_proto) && pi == pcap_index
        && three_tuple == t3 && l4_proto == proto && data@ == d
}

/// What the IPv6 layer, entered with `depth` levels left, does with the
/// packet `data`.
pub open spec fn ipv6_effect(old: &Analyzer, new: &Analyzer, packet: &Packet, data: Seq<u8>, depth: u32) -> bool {
    depth > 0 && data.len() >= 40 ==> {
        let h = ipv6_spec(data);
        let t3 = ThreeTuple { l3_proto: ETHERTYPE_IPV6, src: IpAddr::V6(h.src), dst: IpAddr::V6(h.dst) };
        match ipv6_walk(h.next_header, ipv6_payload(data), None) {
            // a header cut short, or two fragment headers: dropped
            None => *new == *old,
            Some((proto, pl, frag)) => ipv6_after_walk(old, new, packet, depth, t3, proto, pl, frag),
        }
    }
}

/// The IPv6 layer after its extension headers: protocol `proto`, payload
/// `pl`, and the fragment header met, if any.
pub open spec fn ipv6_after_walk(
    old: &Analyzer,
    new: &Analyzer,
    packet: &Packet,
    depth: u32,
    t3: ThreeTuple,
    proto: u8,
    pl: Seq<u8>,
    frag: Option<Ipv6Fragment>,
) -> bool {
    &&& network_first(old, new, t3, proto, pl, packet.pcap_index)
    // no next header: nothing more
    &&& proto == IPPROTO_IPV6_NONXT ==> new.events@.len() == old.events@.len() + 1
        && *new == (Analyzer { events: new.events, ..*old })
    // otherwise the payload goes on to the transport layer
    &&& depth > 0 && proto != IPPROTO_IPV6_NONXT && frag is None ==> exists|a: Analyzer|
        #[trigger] common_first(&a, new, pl, L3Info { l4_proto: proto, three_tuple: t3 }, packet, (depth - 1) as u32)
            && a.events@.len() == old.events@.len() + 1 && a.flows@ == old.flows@
    // a fragment goes to the IPv6 defragmenter
    &&& proto != IPPROTO_IPV6_NONXT && depth > 1 && frag is Some ==> exists|a: Analyzer|
        #[trigger] ipv6_fragment_effect(&a, new, frag->Some_0, L3Info { l4_proto: proto, three_tuple: t3 }, pl, packet, (depth - 2) as u32)
            && a == (Analyzer { events: a.events, ..*old }) && a.events@.len() == old.events@.len() + 1
}


/// IPv6: a payload length of 0 means a jumbogram (the payload runs to the
/// end); walk the extension headers (at most one fragment header), show the
/// packet to the network-layer plugins, stop at "no next header", reassemble
/// fragments, and go on by protocol.
#[verifier::rlimit(100)]
pub fn handle_l3_ipv6(packet: &Packet, data: &[u8], analyzer: &mut Analyzer, depth: u32)
    requires
        old(analyzer).wf(),
    ensures
        Analyzer::step(old(analyzer), final(analyzer)),
        depth == 0 || data@.len() < 40 ==> *final(analyzer) == *old(analyzer),
        ipv6_effect(old(analyzer), final(analyzer), packet, data@, depth),
    decreases depth,
{
    proof {
        Analyzer::lemma_step_refl(old(analyzer));
    }
    if depth == 0 {
        return;
    }
    let h = match parse_ipv6(data) {
        Some(h) => h,
        None => {
            return;
        },
    };
    let plen = h.payload_length as usize;
    let end = if plen <= data.len() - 40 {
        40 + plen
    } else {
        data.len()
    };
    let mut payload = subslice(data, 40, end);
    if payload.len() == 0 {
        // jumbogram (rfc2675)
        payload = subslice(data, 40, data.len());
    }
    assert(payload@ == ipv6_payload(data@));
    let mut l4_proto = h.next_header;
    let mut frag: Option<Ipv6Fragment> = None;
    while is_ipv6_opt(l4_proto)
        invariant
            Analyzer::step(old(analyzer), analyzer),
            *analyzer == *old(analyzer),
            old(analyzer).wf(),
            depth > 0,
            ipv6_walk(l4_proto, payload@, frag) == ipv6_walk(h.next_header, ipv6_payload(data@), None),
            h == ipv6_spec(data@),
            data@.len() >= 40,
        decreases payload@.len(),
    {
        let n = match ipv6_ext_len(l4_proto, payload) {
            Some(n) => n,
            None => {
                assert(ipv6_walk(l4_proto, payload@, frag) is None);
                return;
            },
        };
        let ghost before_frag = frag;
        if l4_proto == IPPROTO_IPV6_FRAG {
            if frag.is_some() {
                // multiple fragment headers
                assert(ipv6_walk(l4_proto, payload@, frag) is None);
                return;
            }
            frag = Some(parse_ipv6_frag(payload));
        }
        let ghost before_payload = payload@;
        l4_proto = payload[0];
        payload = subslice(payload, n, payload.len());
        assert(ipv6_walk(before_payload[0], payload@, frag) == ipv6_walk(
            before_payload[0],
            before_payload.subrange(n as int, before_payload.len() as int),
            frag,
        ));
    }
    let t3 = ThreeTuple { l3_proto: ETHERTYPE_IPV6, src: IpAddr::V6(h.src), dst: IpAddr::V6(h.dst) };
    let ghost s = *analyzer;
    run_plugins_v2_network(packet, payload, &t3, l4_proto, analyzer);
    let ghost after_net = *analyzer;
    proof {
        Analyzer::lemma_step_trans(old(analyzer), &s, analyzer);
        Analyzer::lemma_step_refl(&after_net);
    }
    if l4_proto == IPPROTO_IPV6_NONXT {
        return;
    }
    let l3_info = L3Info { l4_proto, three_tuple: t3 };
    match frag {
        Some(f) => {
            let ghost s = *analyzer;
            handle_l4_ipv6frag(packet, &f, payload, &l3_info, analyzer, depth - 1);
            proof {
                Analyzer::lemma_step_trans(old(analyzer), &s, analyzer);
                Analyzer::lemma_step_trans(&after_net, &s, analyzer);
                if depth > 1 {
                    assert(ipv6_fragment_effect(&after_net, analyzer, f, l3_info, payload@, packet, (depth - 2) as u32));
                    assert(after_net == (Analyzer { events: after_net.events, ..*old(analyzer) }));
                    assert(after_net.events@.len() == old(analyzer).events@.len() + 1);
                    assert(l3_info == (L3Info { l4_proto, three_tuple: t3 }));
                    assert(exists|a: Analyzer|
                        #[trigger] ipv6_fragment_effect(&a, analyzer, f, L3Info { l4_proto, three_tuple: t3 }, payload@, packet, (depth - 2) as u32)
                            && a == (Analyzer { events: a.events, ..*old(analyzer) }) && a.events@.len()
                            == old(analyzer).events@.len() + 1);
                }
                assert(ipv6_walk(h.next_header, ipv6_payload(data@), None) == Some((l4_proto, payload@, frag)));
                if depth > 1 {
                    assert(ipv6_fragment_effect(&after_net, analyzer, frag->Some_0, L3Info { l4_proto, three_tuple: t3 }, payload@, packet, (depth - 2) as u32));
                }
                assert(ipv6_after_walk(old(analyzer), analyzer, packet, depth, t3, l4_proto, payload@, frag));
            }
        },
        None => {
            let ghost before_common = *analyzer;
            handle_l3_common(packet, payload, &l3_info, analyzer, depth - 1);
            proof {
                Analyzer::lemma_step_trans(old(analyzer), &before_common, analyzer);
                Analyzer::lemma_step_trans(&after_net, &before_common, analyzer);
                assert(common_first(&before_common, analyzer, payload@, l3_info, packet, (depth - 1) as u32));
                assert(before_common.flows@ == old(analyzer).flows@);
            }
        },
    }
}

/// The flow of `t` exists afterwards (when it existed already, or the table
/// had room for it) and, unless
/// the packet went to TCP reassembly, the last event shows it, with
/// `payload`, to the transport-layer plugins.
pub open spec fn transport_seen(
    old: &Analyzer,
    new: &Analyzer,
    t: FiveTuple,
    payload: Option<Seq<u8>>,
    reassembled: bool,
) -> bool {
    (old.flows.has_flow(t) || old.flows@.len() < usize::MAX) ==> new.flows.has_flow(t) && (!reassembled ==> (
    new.events@.last() matches Event::Transport { info, .. } && info.five_tuple == t && match payload {
        Some(p) => info.l4_payload matches Some(q) && q@ == p,
        None => info.l4_payload is None,
    }))
}

/// A PPP frame without its address and control bytes (0xff 0x03), if any.
pub open spec fn ppp_body(d: Seq<u8>) -> Seq<u8> {
    if d.len() >= 2 && d[0] == 0xff && d[1] == 0x03 {
        d.subrange(2, d.len() as int)
    } else {
        d
    }
}

/// What PPP does with frame `d`, as far as the first event recorded.
pub open spec fn ppp_first(old: &Analyzer, new: &Analyzer, d: Seq<u8>, pcap_index: usize, depth: u32) -> bool {
    let b = ppp_body(d);
    &&& (b.len() < 2 || (be16_at(b, 0) != PPP_IPV4 && be16_at(b, 0) != PPP_IPV6)) ==> *new == *old
    &&& depth > 1 && b.len() >= 2 && be16_at(b, 0) == PPP_IPV4 && ipv4_valid(b.subrange(2, b.len() as int)) ==> ipv4_network_first(old, new, b.subrange(2, b.len() as int), pcap_index)
}

/// 802.1Q: skip the 4-byte tag, go on with the inner EtherType.
pub fn handle_l3_vlan_801q(packet: &Packet, data: &[u8], analyzer: &mut Analyzer, depth: u32)
    requires
        old(analyzer).wf(),
    ensures
        Analyzer::step(old(analyzer), final(analyzer)),
        depth > 1 && data@.len() >= 4 ==> l3_first(old(analyzer), final(analyzer), data@.subrange(4, data@.len() as int), be16_at(data@, 2), packet, (depth - 1) as u32),
        depth == 0 || data@.len() < 4 ==> *final(analyzer) == *old(analyzer),
    decreases depth,
{
    proof {
        Analyzer::lemma_step_refl(old(analyzer));
    }
    if depth == 0 {
        return;
    }
    if data.len() < 4 {
        return;
    }
    let next_ethertype = read_be16(data, 2);
    handle_l3(packet, subslice(data, 4, data.len()), next_ethertype, analyzer, depth - 1);
}

/// ERSPAN: skip the 8-byte header, go on with the inner Ethernet frame.
pub fn handle_l3_erspan(packet: &Packet, data: &[u8], analyzer: &mut Analyzer, depth: u32)
    requires
        old(analyzer).wf(),
    ensures
        Analyzer::step(old(analyzer), final(analyzer)),
        depth > 1 && data@.len() >= 8 ==> physical_first(old(analyzer), final(analyzer), packet, data@.subrange(8, data@.len() as int)),
        depth == 0 || data@.len() < 8 ==> *final(analyzer) == *old(analyzer),
    decreases depth,
{
    proof {
        Analyzer::lemma_step_refl(old(analyzer));
    }
    if depth == 0 {
        return;
    }
    if data.len() < 8 {
        return;
    }
    handle_l2(packet, subslice(data, 8, data.len()), analyzer, depth - 1);
}

/// PPPoE session: skip the 6-byte header, go on with PPP.
pub fn handle_l3_pppoesession(packet: &Packet, data: &[u8], analyzer: &mut Analyzer, depth: u32)
    requires
        old(analyzer).wf(),
    ensures
        Analyzer::step(old(analyzer), final(analyzer)),
        depth > 1 && data@.len() >= 6 ==> ppp_first(old(analyzer), final(analyzer), data@.subrange(6, data@.len() as int), packet.pcap_index, (depth - 1) as u32),
        depth == 0 || data@.len() < 6 ==> *final(analyzer) == *old(analyzer),
    decreases depth,
{
    proof {
        Analyzer::lemma_step_refl(old(analyzer));
    }
    if depth == 0 {
        return;
    }
    if data.len() < 6 {
        return;
    }
    handle_l3_ppp(packet, subslice(data, 6, data.len()), analyzer, depth - 1);
}

/// PPP: skip an address/control prefix (0xff 0x03) if present, read the
/// 2-byte protocol, go on with IPv4 or IPv6.
pub fn handle_l3_ppp(packet: &Packet, data: &[u8], analyzer: &mut Analyzer, depth: u32)
    requires
        old(analyzer).wf(),
    ensures
        Analyzer::step(old(analyzer), final(analyzer)),
        depth > 0 ==> ppp_first(old(analyzer), final(analyzer), data@, packet.pcap_index, depth),
    decreases depth,
{
    proof {
        Analyzer::lemma_step_refl(old(analyzer));
    }
    if depth == 0 {
        return;
    }
    let data = if data.len() >= 2 && data[0] == 0xff && data[1] == 0x03 {
        subslice(data, 2, data.len())
    } else {
        data
    };
    if data.len() < 2 {
        return;
    }
    let proto = read_be16(data, 0);
    let payload = subslice(data, 2, data.len());
    if proto == PPP_IPV4 {
        handle_l3_ipv4(packet, payload, analyzer, depth - 1);
    } else if proto == PPP_IPV6 {
        handle_l3_ipv6(packet, payload, analyzer, depth - 1);
    }
}

/// Which IP protocols the transport layer handles by name.
pub open spec fn known_l4_proto(p: u8) -> bool {
    p == IPPROTO_TCP || p == IPPROTO_UDP || p == IPPROTO_ICMP || p == IPPROTO_ICMPV6 || p
        == IPPROTO_GRE || p == IPPROTO_IPV4 || p == IPPROTO_IPV6
}

/// What the transport layer, entered with `depth` levels left, does with the
/// bytes `d` of a packet with network identity `l3`.
pub open spec fn common_first(old: &Analyzer, new: &Analyzer, d: Seq<u8>, l3: L3Info, packet: &Packet, depth: u32) -> bool {
    let p = l3.l4_proto;
    let t = |sp: u16, dp: u16| FiveTuple::from_three_tuple_spec(l3.three_tuple, sp, dp, p);
    &&& depth > 1 && p == IPPROTO_TCP && d.len() >= 20 && (d[12] >> 4u8) as int * 4 >= 20 && (d[12]
        >> 4u8) as int * 4 <= d.len() ==> transport_seen(old, new, t(be16_at(d, 0), be16_at(d, 2)), None, true)
    &&& depth > 1 && p == IPPROTO_UDP && d.len() >= 8 && be16_at(d, 0) != VXLAN_PORT && be16_at(d, 2)
        != VXLAN_PORT ==> transport_seen(old, new, t(be16_at(d, 0), be16_at(d, 2)), Some(d.subrange(8, d.len() as int)), false)
    &&& depth > 1 && p == IPPROTO_ICMP && d.len() >= 4 ==> transport_seen(old, new, t(d[0] as u16, d[1] as u16), Some(d.subrange(4, d.len() as int)), false)
    &&& depth > 1 && p == IPPROTO_ICMPV6 && d.len() >= 4 ==> transport_seen(old, new, t(0, 0), Some(d.subrange(4, d.len() as int)), false)
    &&& depth > 1 && p == IPPROTO_IPV4 ==> l3_first_shallow(old, new, d, ETHERTYPE_IPV4, packet, (depth - 1) as u32)
    &&& depth > 1 && p == IPPROTO_IPV6 ==> l3_first_shallow(old, new, d, ETHERTYPE_IPV6, packet, (depth - 1) as u32)
    &&& depth > 1 && !known_l4_proto(p) ==> transport_seen(old, new, t(0, 0), None, false)
}

/// Transport layer, by IP protocol; IP-in-IP goes back to the network layer.
pub fn handle_l3_common(packet: &Packet, data: &[u8], l3_info: &L3Info, analyzer: &mut Analyzer, depth: u32)
    requires
        old(analyzer).wf(),
    ensures
        Analyzer::step(old(analyzer), final(analyzer)),
        depth == 0 ==> *final(analyzer) == *old(analyzer),
        common_first(old(analyzer), final(analyzer), data@, *l3_info, packet, depth),
    decreases depth,
{
    proof {
        Analyzer::lemma_step_refl(old(analyzer));
    }
    if depth == 0 {
        return;
    }
    let p = l3_info.l4_proto;
    if p == IPPROTO_TCP {
        handle_l4_tcp(packet, data, l3_info, analyzer, depth - 1);
    } else if p == IPPROTO_UDP {
        handle_l4_udp(packet, data, l3_info, analyzer, depth - 1);
    } else if p == IPPROTO_ICMP {
        handle_l4_icmp(packet, data, l3_info, analyzer, depth - 1);
    } else if p == IPPROTO_ICMPV6 {
        handle_l4_icmpv6(packet, data, l3_info, analyzer, depth - 1);
    } else if p == IPPROTO_GRE {
        handle_l4_gre(packet, data, l3_info, analyzer, depth - 1);
    } else if p == IPPROTO_IPV4 {
        let ghost s = *analyzer;
        handle_l3(packet, data, ETHERTYPE_IPV4, analyzer, depth - 1);
        proof {
            if depth > 1 {
                lemma_l3_first_shallow(&s, analyzer, data@, ETHERTYPE_IPV4, packet, (depth - 1) as u32);
            }
        }
    } else if p == IPPROTO_IPV6 {
        let ghost s = *analyzer;
        handle_l3(packet, data, ETHERTYPE_IPV6, analyzer, depth - 1);
        proof {
            if depth > 1 {
                lemma_l3_first_shallow(&s, analyzer, data@, ETHERTYPE_IPV6, packet, (depth - 1) as u32);
            }
        }
    } else if p == IPPROTO_ESP {
        // the payload is encrypted
        handle_l4_generic(packet, data, l3_info, analyzer, depth - 1);
    } else {
        // protocols with no known payload
        handle_l4_generic(packet, data, l3_info, analyzer, depth - 1);
    }
}

/// TCP: read the ports and hand the segment to the flow and its reassembly.
pub fn handle_l4_tcp(packet: &Packet, data: &[u8], l3_info: &L3Info, analyzer: &mut Analyzer, depth: u32)
    requires
        old(analyzer).wf(),
    ensures
        Analyzer::step(old(analyzer), final(analyzer)),
        depth > 0 && data@.len() >= 20 && (data@[12] >> 4u8) as int * 4 >= 20 && (data@[12] >> 4u8) as int * 4 <= data@.len() ==> transport_seen(old(analyzer), final(analyzer), FiveTuple::from_three_tuple_spec(l3_info.three_tuple, be16_at(data@, 0), be16_at(data@, 2), l3_info.l4_proto), None, true),
        depth == 0 || data@.len() < 20 ==> *final(analyzer) == *old(analyzer),
    decreases depth,
{
    proof {
        Analyzer::lemma_step_refl(old(analyzer));
    }
    if depth == 0 {
        return;
    }
    let tcp = match parse_tcp(data) {
        Some(t) => t,
        None => {
            return;
        },
    };
    let payload = subslice(data, tcp.header_len, data.len());
    handle_l4_common(packet, data, l3_info, tcp.src_port, tcp.dst_port, Some(payload), Some(&tcp), analyzer);
}

/// UDP: VXLAN (either port 4789) is decapsulated without showing the outer
/// datagram to transport plugins.
pub fn handle_l4_udp(packet: &Packet, data: &[u8], l3_info: &L3Info, analyzer: &mut Analyzer, depth: u32)
    requires
        old(analyzer).wf(),
    ensures
        Analyzer::step(old(analyzer), final(analyzer)),
        depth > 0 && data@.len() >= 8 && be16_at(data@, 0) != VXLAN_PORT && be16_at(data@, 2) != VXLAN_PORT ==> transport_seen(old(analyzer), final(analyzer), FiveTuple::from_three_tuple_spec(l3_info.three_tuple, be16_at(data@, 0), be16_at(data@, 2), l3_info.l4_proto), Some(data@.subrange(8, data@.len() as int)), false),
        // VXLAN: the inner frame goes back to the link layer, and the outer datagram is not shown
        depth > 2 && data@.len() >= 16 && (be16_at(data@, 0) == VXLAN_PORT || be16_at(data@, 2) == VXLAN_PORT) ==> physical_first(old(analyzer), final(analyzer), packet, data@.subrange(16, data@.len() as int)),
        depth == 0 || data@.len() < 8 ==> *final(analyzer) == *old(analyzer),
    decreases depth,
{
    proof {
        Analyzer::lemma_step_refl(old(analyzer));
    }
    if depth == 0 {
        return;
    }
    if data.len() < 8 {
        return;
    }
    let src_port = read_be16(data, 0);
    let dst_port = read_be16(data, 2);
    let payload = subslice(data, 8, data.len());
    if src_port == VXLAN_PORT || dst_port == VXLAN_PORT {
        handle_l4_vxlan(packet, data, l3_info, payload, analyzer, depth - 1);
        if data.len() >= 16 {
            assert(payload@.subrange(8, payload@.len() as int) =~= data@.subrange(16, data@.len() as int));
        }
        return;
    }
    handle_l4_common(packet, data, l3_info, src_port, dst_port, Some(payload), None, analyzer);
}

/// ICMP: the type and code stand for the ports.
pub fn handle_l4_icmp(packet: &Packet, data: &[u8], l3_info: &L3Info, analyzer: &mut Analyzer, depth: u32)
    requires
        old(analyzer).wf(),
    ensures
        Analyzer::step(old(analyzer), final(analyzer)),
        depth > 0 && data@.len() >= 4 ==> transport_seen(old(analyzer), final(analyzer), FiveTuple::from_three_tuple_spec(l3_info.three_tuple, data@[0] as u16, data@[1] as u16, l3_info.l4_proto), Some(data@.subrange(4, data@.len() as int)), false),
        depth > 0 && data@.len() >= 4 && data@.len() <= 65535 && old(analyzer).do_checksums && icmp_checksum_of(data@) != be16_at(data@, 2) ==> final(analyzer).warnings@.len() > old(analyzer).warnings@.len() && final(analyzer).warnings@[old(analyzer).warnings@.len() as int] == (ChecksumMismatch { kind: ChecksumKind::Icmp, pcap_index: packet.pcap_index, computed: icmp_checksum_of(data@), stored: be16_at(data@, 2) }),
        depth == 0 || data@.len() < 4 ==> *final(analyzer) == *old(analyzer),
    decreases depth,
{
    proof {
        Analyzer::lemma_step_refl(old(analyzer));
    }
    if depth == 0 {
        return;
    }
    if data.len() < 4 {
        return;
    }
    let src_port = data[0] as u16;
    let dst_port = data[1] as u16;
    if analyzer.do_checksums && data.len() <= 65535 {
        let cksum = icmp_message_checksum(data);
        let ghost s = *analyzer;
    record_checksum(analyzer, ChecksumKind::Icmp, cksum, read_be16(data, 2), packet.pcap_index);
    proof {
        Analyzer::lemma_step_trans(old(analyzer), &s, analyzer);
    }
    }
    let payload = subslice(data, 4, data.len());
    let ghost s = *analyzer;
    handle_l4_common(packet, data, l3_info, src_port, dst_port, Some(payload), None, analyzer);
    proof {
        Analyzer::lemma_step_trans(old(analyzer), &s, analyzer);
    }
}

/// ICMPv6: ports are 0; the checksum covers the IPv6 pseudo-header.
pub fn handle_l4_icmpv6(packet: &Packet, data: &[u8], l3_info: &L3Info, analyzer: &mut Analyzer, depth: u32)
    requires
        old(analyzer).wf(),
    ensures
        Analyzer::step(old(analyzer), final(analyzer)),
        depth > 0 && data@.len() >= 4 ==> transport_seen(old(analyzer), final(analyzer), FiveTuple::from_three_tuple_spec(l3_info.three_tuple, 0, 0, l3_info.l4_proto), Some(data@.subrange(4, data@.len() as int)), false),
        depth > 0 && data@.len() >= 4 && data@.len() <= 65535 && old(analyzer).do_checksums ==> match (l3_info.three_tuple.src, l3_info.three_tuple.dst) {
            (IpAddr::V6(src), IpAddr::V6(dst)) => icmpv6_checksum_of(data@, src, dst) != be16_at(data@, 2) ==> final(analyzer).warnings@.len() > old(analyzer).warnings@.len() && final(analyzer).warnings@[old(analyzer).warnings@.len() as int] == (ChecksumMismatch { kind: ChecksumKind::Icmpv6, pcap_index: packet.pcap_index, computed: icmpv6_checksum_of(data@, src, dst), stored: be16_at(data@, 2) }),
            _ => true,
        },
        depth == 0 || data@.len() < 4 ==> *final(analyzer) == *old(analyzer),
    decreases depth,
{
    proof {
        Analyzer::lemma_step_refl(old(analyzer));
    }
    if depth == 0 {
        return;
    }
    if data.len() < 4 {
        return;
    }
    if analyzer.do_checksums && data.len() <= 65535 {
        if let (IpAddr::V6(src), IpAddr::V6(dst)) = (l3_info.three_tuple.src, l3_info.three_tuple.dst) {
            let cksum = icmpv6_message_checksum(data, src, dst);
            let ghost s = *analyzer;
    record_checksum(analyzer, ChecksumKind::Icmpv6, cksum, read_be16(data, 2), packet.pcap_index);
    proof {
        Analyzer::lemma_step_trans(old(analyzer), &s, analyzer);
    }
        }
    }
    let payload = subslice(data, 4, data.len());
    let ghost s = *analyzer;
    handle_l4_common(packet, data, l3_info, 0, 0, Some(payload), None, analyzer);
    proof {
        Analyzer::lemma_step_trans(old(analyzer), &s, analyzer);
    }
}

/// GRE: skip the header and its optional words, go on with the carried
/// EtherType.
pub fn handle_l4_gre(packet: &Packet, data: &[u8], l3_info: &L3Info, analyzer: &mut Analyzer, depth: u32)
    requires
        old(analyzer).wf(),
    ensures
        Analyzer::step(old(analyzer), final(analyzer)),
        depth > 0 && !(data@.len() >= 4 && data@[0] & 0x40 == 0 && gre_offset_spec(data@) <= data@.len()) ==> *final(analyzer) == *old(analyzer),
        depth > 1 && data@.len() >= 4 && data@[0] & 0x40 == 0 && gre_offset_spec(data@) <= data@.len() ==> l3_first(old(analyzer), final(analyzer), data@.subrange(gre_offset_spec(data@), data@.len() as int), be16_at(data@, 2), packet, (depth - 1) as u32),
        depth == 0 || data@.len() < 4 ==> *final(analyzer) == *old(analyzer),
    decreases depth,
{
    proof {
        Analyzer::lemma_step_refl(old(analyzer));
    }
    if depth == 0 {
        return;
    }
    let offset = match gre_payload_offset(data) {
        Some(o) => o,
        None => {
            return;
        },
    };
    let next_proto = read_be16(data, 2);
    handle_l3(packet, subslice(data, offset, data.len()), next_proto, analyzer, depth - 1);
}

/// VXLAN: skip the 8-byte header, go on with the inner Ethernet frame.
pub fn handle_l4_vxlan(
    packet: &Packet,
    data: &[u8],
    l3_info: &L3Info,
    l4_data: &[u8],
    analyzer: &mut Analyzer,
    depth: u32,
)
    requires
        old(analyzer).wf(),
    ensures
        Analyzer::step(old(analyzer), final(analyzer)),
        depth > 1 && l4_data@.len() >= 8 ==> physical_first(old(analyzer), final(analyzer), packet, l4_data@.subrange(8, l4_data@.len() as int)),
        depth == 0 || l4_data@.len() < 8 ==> *final(analyzer) == *old(analyzer),
    decreases depth,
{
    proof {
        Analyzer::lemma_step_refl(old(analyzer));
    }
    if depth == 0 {
        return;
    }
    if l4_data.len() < 8 {
        return;
    }
    handle_l2(packet, subslice(l4_data, 8, l4_data.len()), analyzer, depth - 1);
}

/// An IPv6 fragment: reassemble, then go on by protocol.
pub fn handle_l4_ipv6frag(
    packet: &Packet,
    frag_info: &Ipv6Fragment,
    data: &[u8],
    l3_info: &L3Info,
    analyzer: &mut Analyzer,
    depth: u32,
)
    requires
        old(analyzer).wf(),
    ensures
        Analyzer::step(old(analyzer), final(analyzer)),
        depth == 0 ==> *final(analyzer) == *old(analyzer),
        depth > 0 ==> ipv6_fragment_effect(old(analyzer), final(analyzer), *frag_info, *l3_info, data@, packet, (depth - 1) as u32),
    decreases depth,
{
    proof {
        Analyzer::lemma_step_refl(old(analyzer));
    }
    if depth == 0 {
        return;
    }
    let key = FragKey {
        id: frag_info.id,
        src: l3_info.three_tuple.src,
        dst: l3_info.three_tuple.dst,
        proto: l3_info.l4_proto,
    };
    let ghost s = *analyzer;
    let defrag = analyzer.ipv6_defrag.update(key, frag_info.offset, frag_info.more_fragments, data, packet.ts);
    let ghost gr = defrag;
    let ghost mid = analyzer.ipv6_defrag;
    proof {
        Analyzer::lemma_step_trans(old(analyzer), &s, analyzer);
        assert(IPDefragEngine::update_spec(old(analyzer).ipv6_defrag, mid, key, frag_info.offset,
            frag_info.more_fragments, data@, packet.ts, gr));
    }
    match defrag {
        Fragment::Complete(v) => {
            let ghost before_common = *analyzer;
            handle_l3_common(packet, v.as_slice(), l3_info, analyzer, depth - 1);
            proof {
                Analyzer::lemma_step_trans(old(analyzer), &before_common, analyzer);
                assert(common_first(&before_common, analyzer, v@, *l3_info, packet, (depth - 1) as u32));
                assert(gr->Complete_0@ == v@);
            }
        },
        Fragment::NoFrag => {
            let ghost before_common = *analyzer;
            handle_l3_common(packet, data, l3_info, analyzer, depth - 1);
            proof {
                Analyzer::lemma_step_trans(old(analyzer), &before_common, analyzer);
                assert(common_first(&before_common, analyzer, data@, *l3_info, packet, (depth - 1) as u32));
            }
        },
        _ => {},
    }
}

/// A protocol whose payload is not known: the flow is still tracked, with
/// ports 0.
pub fn handle_l4_generic(packet: &Packet, data: &[u8], l3_info: &L3Info, analyzer: &mut Analyzer, depth: u32)
    requires
        old(analyzer).wf(),
    ensures
        Analyzer::step(old(analyzer), final(analyzer)),
        depth > 0 ==> transport_seen(old(analyzer), final(analyzer), FiveTuple::from_three_tuple_spec(l3_info.three_tuple, 0, 0, l3_info.l4_proto), None, false),
    decreases depth,
{
    proof {
        Analyzer::lemma_step_refl(old(analyzer));
    }
    if depth == 0 {
        return;
    }
    handle_l4_common(packet, data, l3_info, 0, 0, None, None, analyzer);
}

/// What a plugin callback returns: nothing, an error, or bytes to feed back
/// into the analyzer at some layer (for tunnels that plugins decode).
pub enum PluginResult {
    /// Nothing to feed back
    Done,
    Error(crate::Error),
    /// Feed back as a network-layer packet of this EtherType
    L2(u16, Vec<u8>),
    /// Feed back as a transport-layer packet with this network identity
    L3(L3Info, Vec<u8>),
    /// Feed back as the payload of this transport conversation
    L4(FiveTuple, Vec<u8>),
}

impl Analyzer {
    /// Parse a link-layer frame of `packet`.
    pub fn handle_l2(&mut self, packet: &Packet, data: &[u8])
        requires
            old(self).wf(),
        ensures
            Analyzer::step(old(self), final(self)),
            physical_first(old(self), final(self), packet, data@),
            l2_rest(old(self), final(self), packet, data@, MAX_DEPTH),
    {
        handle_l2(packet, data, self, MAX_DEPTH);
    }

    /// Start of analysis: plugins get their pre-processing call.
    pub fn init(&mut self) -> (r: Result<(), Error>)
        requires
            old(self).wf(),
        ensures
            Analyzer::step(old(self), final(self)),
            final(self).events@ == old(self).events@.push(Event::PreProcess),
            r is Ok,
    {
        self.events.push(Event::PreProcess);
        proof {
            assert(self.events@.drop_last() =~= old(self).events@);
            Analyzer::lemma_step_refl(old(self));
            Analyzer::lemma_push_event(old(self), old(self), self);
        }
        Ok(())
    }

    /// Dispatch a packet by the layer its bytes start at. Transport-layer
    /// and unknown framings are not supported and give an error.
    pub fn handle_packet(&mut self, packet: &Packet) -> (r: Result<(), Error>)
        requires
            old(self).wf(),
        ensures
            Analyzer::step(old(self), final(self)),
            r is Ok <==> (packet.data is L2 || packet.data is L3),
            match packet.data {
                PacketData::L2(d) => physical_first(old(self), final(self), packet, d@) && l2_rest(old(self), final(self), packet, d@, MAX_DEPTH),
                PacketData::L3(et, d) => l3_first(old(self), final(self), d@, et, packet, MAX_DEPTH),
                _ => r == Err::<(), Error>(Error::Generic("Unsupported data format")) && *final(self) == *old(self),
            },
    {
        match &packet.data {
            PacketData::L2(data) => {
                handle_l2(packet, data.as_slice(), self, MAX_DEPTH);
                Ok(())
            },
            PacketData::L3(ethertype, data) => {
                handle_l3(packet, data.as_slice(), *ethertype, self, MAX_DEPTH);
                Ok(())
            },
            _ => {
                proof {
                    Analyzer::lemma_step_refl(old(self));
                }
                Err(Error::Generic("Unsupported data format"))
            },
        }
    }

    /// Feed back what a plugin returned for an event of `packet`: bytes for
    /// the network layer, for the transport layer with a known network
    /// identity, or as the payload of a transport conversation. An error
    /// from a plugin does not stop the analysis.
    pub fn handle_plugin_result(&mut self, packet: &Packet, result: &PluginResult)
        requires
            old(self).wf(),
        ensures
            Analyzer::step(old(self), final(self)),
            result is Done || result is Error ==> *final(self) == *old(self),
            match *result {
                PluginResult::L2(et, p) => l3_first(old(self), final(self), p@, et, packet, MAX_DEPTH),
                PluginResult::L3(l3, p) => common_first(old(self), final(self), p@, l3, packet, MAX_DEPTH),
                PluginResult::L4(t5, p) => transport_seen(old(self), final(self), t5, Some(p@), false),
                _ => true,
            },
    {
        proof {
            Analyzer::lemma_step_refl(old(self));
        }
        match result {
            PluginResult::L2(ethertype, payload) => {
                handle_l3(packet, payload.as_slice(), *ethertype, self, MAX_DEPTH);
            },
            PluginResult::L3(l3_info, payload) => {
                handle_l3_common(packet, payload.as_slice(), l3_info, self, MAX_DEPTH);
            },
            PluginResult::L4(t5, payload) => {
                let l3_info = L3Info {
                    l4_proto: t5.l4_proto,
                    three_tuple: ThreeTuple { l3_proto: t5.l3_proto, src: t5.src, dst: t5.dst },
                };
                handle_l4_common(
                    packet,
                    payload.as_slice(),
                    &l3_info,
                    t5.src_port,
                    t5.dst_port,
                    Some(payload.as_slice()),
                    None,
                    self,
                );
            },
            _ => {},
        }
    }

    /// End of analysis: TCP streams are dropped (undelivered data with
    /// them), plugins are told of the end of every flow in creation order,
    /// the flow table is emptied, and plugins get their post-processing call.
    pub fn teardown(&mut self)
        requires
            old(self).wf(),
        ensures
            final(self).wf(),
            final(self).flows@.len() == 0,
            final(self).tcp_defrag.m@.len() == 0,
            final(self).events@.len() == old(self).events@.len() + old(self).flows@.len() + 1,
            forall|k: int|
                0 <= k < old(self).events@.len() ==> #[trigger] final(self).events@[k] == old(
                    self,
                ).events@[k],
            forall|k: int|
                0 <= k < old(self).flows@.len() ==> #[trigger] final(self).events@[old(
                    self,
                ).events@.len() + k] == Event::FlowDestroyed(old(self).flows@[k]),
            final(self).events@.last() == Event::PostProcess,
            final(self).do_checksums == old(self).do_checksums,
            final(self).registry@ == old(self).registry@,
    {
        finalize_tcp_streams(self);
        let n = self.flows.len();
        let mut i: usize = 0;
        while i < n
            invariant
                self.wf(),
                n == self.flows@.len(),
                self.flows@ == old(self).flows@,
                0 <= i <= n,
                self.events@.len() == old(self).events@.len() + i,
                forall|k: int|
                    0 <= k < old(self).events@.len() ==> #[trigger] self.events@[k] == old(
                        self,
                    ).events@[k],
                forall|k: int|
                    0 <= k < i ==> #[trigger] self.events@[old(self).events@.len() + k]
                        == Event::FlowDestroyed(old(self).flows@[k]),
                self.tcp_defrag.m@.len() == 0,
                self.do_checksums == old(self).do_checksums,
                self.registry@ == old(self).registry@,
            decreases n - i,
        {
            let f = self.flows.values()[i];
            self.events.push(Event::FlowDestroyed(f));
            i = i + 1;
        }
        let ghost before = self.events@;
        self.flows.clear();
        self.events.push(Event::PostProcess);
        proof {
            assert forall|k: int| 0 <= k < old(self).flows@.len() implies #[trigger] self.events@[old(
                self,
            ).events@.len() + k] == Event::FlowDestroyed(old(self).flows@[k]) by {
                assert(self.events@[old(self).events@.len() + k] == before[old(self).events@.len() + k]);
            }
        }
    }
}

} // verus!
