use pcap_analyzer::analyzer::{Analyzer, Config, Packet, PacketData, PluginResult};
use pcap_analyzer::error::Error;
use pcap_analyzer::plugin::{Event, PluginRegistry, LAYER_PHYSICAL, LAYER_TRANSPORT};
use pcap_analyzer::tuple::{Duration, IpAddr};

fn ones_complement_sum(b: &[u8]) -> u16 {
    let mut sum: u32 = 0;
    let mut i = 0;
    while i + 1 < b.len() {
        sum += ((b[i] as u32) << 8) | b[i + 1] as u32;
        i += 2;
    }
    if i < b.len() {
        sum += (b[i] as u32) << 8;
    }
    while sum >> 16 != 0 {
        sum = (sum >> 16) + (sum & 0xffff);
    }
    !(sum as u16)
}

fn eth(ethertype: u16, payload: &[u8]) -> Vec<u8> {
    let mut v = vec![0x00, 0x11, 0x22, 0x33, 0x44, 0x55, 0x66, 0x77, 0x88, 0x99, 0xaa, 0xbb];
    v.extend_from_slice(&ethertype.to_be_bytes());
    v.extend_from_slice(payload);
    v
}

fn ipv4(src: [u8; 4], dst: [u8; 4], proto: u8, id: u16, frag: u16, payload: &[u8]) -> Vec<u8> {
    let total = (20 + payload.len()) as u16;
    let mut h = vec![0x45, 0];
    h.extend_from_slice(&total.to_be_bytes());
    h.extend_from_slice(&id.to_be_bytes());
    h.extend_from_slice(&frag.to_be_bytes());
    h.push(64);
    h.push(proto);
    h.extend_from_slice(&[0, 0]);
    h.extend_from_slice(&src);
    h.extend_from_slice(&dst);
    let c = ones_complement_sum(&h);
    h[10] = (c >> 8) as u8;
    h[11] = c as u8;
    h.extend_from_slice(payload);
    h
}

fn udp(sport: u16, dport: u16, payload: &[u8]) -> Vec<u8> {
    let mut v = Vec::new();
    v.extend_from_slice(&sport.to_be_bytes());
    v.extend_from_slice(&dport.to_be_bytes());
    v.extend_from_slice(&((8 + payload.len()) as u16).to_be_bytes());
    v.extend_from_slice(&[0, 0]);
    v.extend_from_slice(payload);
    v
}

fn tcp(sport: u16, dport: u16, seq: u32, ack: u32, flags: u8, payload: &[u8]) -> Vec<u8> {
    let mut v = Vec::new();
    v.extend_from_slice(&sport.to_be_bytes());
    v.extend_from_slice(&dport.to_be_bytes());
    v.extend_from_slice(&seq.to_be_bytes());
    v.extend_from_slice(&ack.to_be_bytes());
    v.push(0x50);
    v.push(flags);
    v.extend_from_slice(&[0xff, 0xff, 0, 0, 0, 0]);
    v.extend_from_slice(payload);
    v
}

fn icmp_echo(payload: &[u8]) -> Vec<u8> {
    let mut v = vec![8, 0, 0, 0, 0, 1, 0, 1];
    v.extend_from_slice(payload);
    let c = ones_complement_sum(&v);
    v[2] = (c >> 8) as u8;
    v[3] = c as u8;
    v
}

fn l2_packet(frame: Vec<u8>, secs: u64, index: usize) -> Packet {
    Packet {
        interface: 0,
        caplen: frame.len() as u32,
        origlen: frame.len() as u32,
        ts: Duration { secs, micros: 0 },
        data: PacketData::L2(frame),
        pcap_index: index,
    }
}

const FIN: u8 = 0x01;
const SYN: u8 = 0x02;
const RST: u8 = 0x04;
const PSH: u8 = 0x08;
const ACK: u8 = 0x10;

const CLIENT: [u8; 4] = [10, 0, 0, 1];
const SERVER: [u8; 4] = [10, 0, 0, 2];

fn client_tcp(seq: u32, ack: u32, flags: u8, payload: &[u8], index: usize) -> Packet {
    let seg = tcp(40000, 80, seq, ack, flags, payload);
    l2_packet(eth(0x0800, &ipv4(CLIENT, SERVER, 6, index as u16, 0x4000, &seg)), 1, index)
}

fn server_tcp(seq: u32, ack: u32, flags: u8, payload: &[u8], index: usize) -> Packet {
    let seg = tcp(80, 40000, seq, ack, flags, payload);
    l2_packet(eth(0x0800, &ipv4(SERVER, CLIENT, 6, index as u16, 0x4000, &seg)), 1, index)
}

fn transport_payloads(events: &[Event]) -> Vec<(Vec<u8>, usize, bool)> {
    let mut r = Vec::new();
    for e in events {
        if let Event::Transport { info, .. } = e {
            r.push((info.l4_payload.clone().unwrap_or_default(), info.pcap_index, info.to_server));
        }
    }
    r
}

fn count_flow_created(events: &[Event]) -> usize {
    events.iter().filter(|e| matches!(e, Event::FlowCreated(_))).count()
}

fn new_analyzer() -> Analyzer {
    Analyzer::new(PluginRegistry::new(), &Config::default())
}

#[test]
fn single_unfragmented_tcp_flow() {
    let mut a = new_analyzer();
    assert!(a.init().is_ok());
    let packets = vec![
        client_tcp(1000, 0, SYN, b"", 1),
        server_tcp(9000, 1001, SYN | ACK, b"", 2),
        client_tcp(1001, 9001, ACK, b"", 3),
        client_tcp(1001, 9001, PSH | ACK, b"HELLO", 4),
        server_tcp(9001, 1006, ACK, b"", 5),
        client_tcp(1006, 9001, FIN | ACK, b"", 6),
    ];
    for p in &packets {
        assert!(a.handle_packet(p).is_ok());
    }
    let events = a.take_events();
    assert!(matches!(events[0], Event::PreProcess));
    assert_eq!(count_flow_created(&events), 1);
    let payloads = transport_payloads(&events);
    assert_eq!(payloads.len(), 1);
    assert_eq!(payloads[0].0, b"HELLO".to_vec());
    assert_eq!(payloads[0].1, 4);
    // data from the client goes towards the server
    assert!(payloads[0].2);
    a.teardown();
    let events = a.take_events();
    assert_eq!(events.len(), 2);
    assert!(matches!(events[0], Event::FlowDestroyed(_)));
    assert!(matches!(events[1], Event::PostProcess));
}

#[test]
fn ipv4_two_fragments_out_of_order_give_one_l4_dispatch() {
    let mut a = new_analyzer();
    let datagram = udp(5000, 6000, b"0123456789abcdef");
    assert_eq!(datagram.len(), 24);
    // fragment B: offset 16 (2 units of 8), no more fragments
    let b = l2_packet(eth(0x0800, &ipv4(CLIENT, SERVER, 17, 42, 2, &datagram[16..])), 1, 1);
    // fragment A: offset 0, more fragments
    let af = l2_packet(eth(0x0800, &ipv4(CLIENT, SERVER, 17, 42, 0x2000, &datagram[..16])), 1, 2);
    a.handle_packet(&b).unwrap();
    assert_eq!(transport_payloads(&a.take_events()).len(), 0);
    a.handle_packet(&af).unwrap();
    let events = a.take_events();
    let payloads = transport_payloads(&events);
    assert_eq!(payloads.len(), 1);
    assert_eq!(payloads[0].0, b"0123456789abcdef".to_vec());
    assert_eq!(a.flows.len(), 1);
}

#[test]
fn vxlan_encapsulated_ping() {
    let mut registry = PluginRegistry::new();
    registry.register_layer(0, LAYER_PHYSICAL, 0);
    registry.register_layer(1, LAYER_TRANSPORT, 0);
    let mut a = Analyzer::new(registry, &Config::default());
    let inner = eth(0x0800, &ipv4([192, 168, 0, 1], [192, 168, 0, 2], 1, 7, 0, &icmp_echo(b"ping")));
    let mut vxlan = vec![0x08, 0, 0, 0, 0, 0, 0x2a, 0];
    vxlan.extend_from_slice(&inner);
    let outer = eth(0x0800, &ipv4(CLIENT, SERVER, 17, 1, 0, &udp(12345, 4789, &vxlan)));
    a.handle_packet(&l2_packet(outer, 1, 1)).unwrap();
    let events = a.take_events();
    let physical: Vec<&Event> = events.iter().filter(|e| matches!(e, Event::Physical { .. })).collect();
    // L2 re-entered once for the inner frame
    assert_eq!(physical.len(), 2);
    if let Event::Physical { plugins, .. } = physical[0] {
        assert_eq!(plugins, &vec![0]);
    }
    let mut transports = Vec::new();
    for e in &events {
        if let Event::Transport { plugins, info } = e {
            assert_eq!(plugins, &vec![1]);
            transports.push(info.five_tuple);
        }
    }
    // only the inner ICMP packet reaches transport plugins
    assert_eq!(transports.len(), 1);
    assert_eq!(transports[0].l4_proto, 1);
    assert_eq!(transports[0].src_port, 8);
    assert_eq!(transports[0].dst_port, 0);
}

#[test]
fn reverse_direction_attaches_to_flow() {
    let mut a = new_analyzer();
    let request = l2_packet(eth(0x0800, &ipv4(CLIENT, SERVER, 17, 1, 0, &udp(1000, 53, b"q"))), 1, 1);
    let reply = l2_packet(eth(0x0800, &ipv4(SERVER, CLIENT, 17, 2, 0, &udp(53, 1000, b"r"))), 2, 2);
    a.handle_packet(&request).unwrap();
    a.handle_packet(&reply).unwrap();
    assert_eq!(a.flows.len(), 1);
    let f = a.flows.get_flow(0).unwrap();
    assert_eq!(f.flow_id, 0);
    assert_eq!(f.five_tuple.src, IpAddr::V4(0x0a000001));
    assert_eq!(f.five_tuple.src_port, 1000);
    assert_eq!(f.five_tuple.dst_port, 53);
    assert_eq!(f.last_seen, Duration { secs: 2, micros: 0 });
    assert_eq!(a.flows.lookup_flow(&f.five_tuple), Some(0));
    assert_eq!(a.flows.lookup_flow(&f.five_tuple.get_reverse()), Some(0));
    let events = a.take_events();
    let mut dirs = Vec::new();
    for e in &events {
        if let Event::Transport { info, .. } = e {
            dirs.push(info.to_server);
            assert_eq!(info.flow.unwrap().flow_id, 0);
        }
    }
    assert_eq!(dirs, vec![true, false]);
}

#[test]
fn checksum_gating_changes_only_warnings() {
    let mut frames = Vec::new();
    let mut bad = eth(0x0800, &ipv4(CLIENT, SERVER, 17, 1, 0, &udp(1000, 53, b"q")));
    bad[14 + 10] ^= 0xff;
    frames.push(bad);
    let mut bad_icmp = eth(0x0800, &ipv4(CLIENT, SERVER, 1, 2, 0, &icmp_echo(b"x")));
    let n = bad_icmp.len();
    bad_icmp[n - 1] ^= 0x55;
    frames.push(bad_icmp);
    frames.push(eth(0x0800, &ipv4(SERVER, CLIENT, 17, 3, 0, &udp(53, 1000, b"r"))));

    let run = |do_checksums: bool| {
        let config = Config { do_checksums: Some(do_checksums), tcp_timeout_secs: None };
        let mut a = Analyzer::new(PluginRegistry::new(), &config);
        for (i, f) in frames.iter().enumerate() {
            a.handle_packet(&l2_packet(f.clone(), 1, i)).unwrap();
        }
        let events = a.take_events();
        (events.len(), transport_payloads(&events), a.warnings.len(), a.flows.len())
    };
    let on = run(true);
    let off = run(false);
    assert_eq!(on.0, off.0);
    assert_eq!(on.1, off.1);
    assert_eq!(on.3, off.3);
    assert_eq!(on.2, 2);
    assert_eq!(off.2, 0);
}

#[test]
fn valid_checksums_give_no_warning() {
    let mut a = new_analyzer();
    let f = eth(0x0800, &ipv4(CLIENT, SERVER, 1, 9, 0, &icmp_echo(b"abc")));
    a.handle_packet(&l2_packet(f, 1, 1)).unwrap();
    assert_eq!(a.warnings.len(), 0);
}

#[test]
fn unsupported_framing_is_an_error() {
    let mut a = new_analyzer();
    let p = Packet {
        interface: 0,
        caplen: 4,
        origlen: 4,
        ts: Duration { secs: 0, micros: 0 },
        data: PacketData::Unsupported(vec![1, 2, 3, 4]),
        pcap_index: 0,
    };
    assert!(a.handle_packet(&p).is_err());
    let transport_packet = Packet {
        interface: 0,
        caplen: 4,
        origlen: 4,
        ts: Duration { secs: 0, micros: 0 },
        data: PacketData::L4(6, vec![1, 2, 3, 4]),
        pcap_index: 0,
    };
    assert!(a.handle_packet(&transport_packet).is_err());
}

#[test]
fn cisco_control_and_short_frames_stop_after_physical_layer() {
    let mut a = new_analyzer();
    let mut cdp = vec![0x01, 0x00, 0x0c, 0xcc, 0xcc, 0xcc, 0, 1, 2, 3, 4, 5, 0, 40];
    cdp.extend_from_slice(&[0u8; 40]);
    a.handle_packet(&l2_packet(cdp, 1, 1)).unwrap();
    a.handle_packet(&l2_packet(vec![1, 2, 3], 1, 2)).unwrap();
    let events = a.take_events();
    assert_eq!(events.len(), 2);
    assert!(events.iter().all(|e| matches!(e, Event::Physical { .. })));
}

#[test]
fn frame_trimmed_to_captured_length() {
    let mut a = new_analyzer();
    let frame = eth(0x0800, &ipv4(CLIENT, SERVER, 17, 1, 0, &udp(1, 2, b"abcd")));
    let mut p = l2_packet(frame.clone(), 1, 1);
    p.caplen = 10;
    a.handle_packet(&p).unwrap();
    let events = a.take_events();
    assert_eq!(events.len(), 1);
    if let Event::Physical { data, .. } = &events[0] {
        assert_eq!(data, &frame[..10].to_vec());
    } else {
        panic!("expected a physical-layer event");
    }
}

#[test]
fn vlan_and_ip_in_ip_are_decapsulated() {
    let mut a = new_analyzer();
    let inner = ipv4([1, 1, 1, 1], [2, 2, 2, 2], 17, 5, 0, &udp(7, 9, b"in"));
    let outer = ipv4(CLIENT, SERVER, 4, 6, 0, &inner);
    let mut tag = vec![0x00, 0x05, 0x08, 0x00];
    tag.extend_from_slice(&outer);
    a.handle_packet(&l2_packet(eth(0x8100, &tag), 1, 1)).unwrap();
    let events = a.take_events();
    let payloads = transport_payloads(&events);
    assert_eq!(payloads.len(), 1);
    assert_eq!(payloads[0].0, b"in".to_vec());
    let f = a.flows.get_flow(0).unwrap();
    assert_eq!(f.five_tuple.src, IpAddr::V4(0x01010101));
}

#[test]
fn gre_tunnel_is_decapsulated() {
    let mut a = new_analyzer();
    let inner = ipv4([1, 1, 1, 1], [2, 2, 2, 2], 17, 5, 0, &udp(7, 9, b"gre"));
    // key present: 4 more bytes
    let mut gre = vec![0x20, 0x00, 0x08, 0x00, 0, 0, 0, 9];
    gre.extend_from_slice(&inner);
    a.handle_packet(&l2_packet(eth(0x0800, &ipv4(CLIENT, SERVER, 47, 1, 0, &gre)), 1, 1))
        .unwrap();
    let payloads = transport_payloads(&a.take_events());
    assert_eq!(payloads.len(), 1);
    assert_eq!(payloads[0].0, b"gre".to_vec());
}

#[test]
fn unknown_protocol_still_makes_a_flow_with_zero_ports() {
    let mut a = new_analyzer();
    a.handle_packet(&l2_packet(eth(0x0800, &ipv4(CLIENT, SERVER, 132, 1, 0, b"sctp")), 1, 1))
        .unwrap();
    let f = a.flows.get_flow(0).unwrap();
    assert_eq!(f.five_tuple.src_port, 0);
    assert_eq!(f.five_tuple.dst_port, 0);
    assert_eq!(f.five_tuple.l4_proto, 132);
}

#[test]
fn flow_ids_are_distinct_and_not_reused() {
    let mut a = new_analyzer();
    for i in 0..5u16 {
        let f = eth(0x0800, &ipv4(CLIENT, SERVER, 17, i, 0, &udp(1000 + i, 53, b"q")));
        a.handle_packet(&l2_packet(f, 1, i as usize)).unwrap();
    }
    assert_eq!(a.flows.len(), 5);
    for i in 0..5u64 {
        assert_eq!(a.flows.get_flow(i).unwrap().flow_id, i);
    }
    assert!(a.flows.get_flow(5).is_none());
}

#[test]
fn ipv6_fragments_are_reassembled() {
    let mut a = new_analyzer();
    let datagram = udp(5000, 6000, b"0123456789abcdef");
    let build = |offset: u16, more: bool, part: &[u8]| {
        let mut frag = vec![17, 0];
        let v = (offset << 3) | if more { 1 } else { 0 };
        frag.extend_from_slice(&v.to_be_bytes());
        frag.extend_from_slice(&77u32.to_be_bytes());
        frag.extend_from_slice(part);
        let mut ip = vec![0x60, 0, 0, 0];
        ip.extend_from_slice(&(frag.len() as u16).to_be_bytes());
        ip.push(44);
        ip.push(64);
        ip.extend_from_slice(&[0xfe, 0x80, 0, 0, 0, 0, 0, 0, 0, 0, 0, 0, 0, 0, 0, 1]);
        ip.extend_from_slice(&[0xfe, 0x80, 0, 0, 0, 0, 0, 0, 0, 0, 0, 0, 0, 0, 0, 2]);
        ip.extend_from_slice(&frag);
        eth(0x86dd, &ip)
    };
    a.handle_packet(&l2_packet(build(2, false, &datagram[16..]), 1, 1)).unwrap();
    a.handle_packet(&l2_packet(build(0, true, &datagram[..16]), 1, 2)).unwrap();
    let payloads = transport_payloads(&a.take_events());
    assert_eq!(payloads.len(), 1);
    assert_eq!(payloads[0].0, b"0123456789abcdef".to_vec());
}

#[test]
fn teardown_reports_every_flow_then_post_process() {
    let mut a = new_analyzer();
    for i in 0..3u16 {
        let f = eth(0x0800, &ipv4(CLIENT, SERVER, 17, i, 0, &udp(2000 + i, 53, b"q")));
        a.handle_packet(&l2_packet(f, 1, i as usize)).unwrap();
    }
    a.take_events();
    a.teardown();
    let events = a.take_events();
    assert_eq!(events.len(), 4);
    for (i, e) in events.iter().take(3).enumerate() {
        match e {
            Event::FlowDestroyed(f) => assert_eq!(f.flow_id, i as u64),
            _ => panic!("expected flow_destroyed"),
        }
    }
    assert!(matches!(events[3], Event::PostProcess));
    assert_eq!(a.flows.len(), 0);
}

#[test]
fn plugin_results_are_fed_back() {
    let mut a = new_analyzer();
    let p = l2_packet(vec![0u8; 4], 1, 9);
    a.handle_plugin_result(&p, &PluginResult::Done);
    a.handle_plugin_result(&p, &PluginResult::Error(pcap_analyzer::Error));
    assert!(a.take_events().is_empty());
    let inner = ipv4(CLIENT, SERVER, 17, 1, 0, &udp(1, 2, b"tunnelled"));
    a.handle_plugin_result(&p, &PluginResult::L2(0x0800, inner));
    let payloads = transport_payloads(&a.take_events());
    assert_eq!(payloads.len(), 1);
    assert_eq!(payloads[0].0, b"tunnelled".to_vec());
    assert_eq!(payloads[0].1, 9);
}

#[test]
fn generic_error_from_str() {
    match Error::from("boom") {
        Error::Generic(s) => assert_eq!(s, "boom"),
        _ => panic!("expected a generic error"),
    }
}

#[test]
fn config_defaults_and_overrides() {
    let a = new_analyzer();
    assert!(a.do_checksums);
    assert_eq!(a.tcp_defrag.timeout, Duration { secs: 120, micros: 0 });
    let c = Config { do_checksums: Some(false), tcp_timeout_secs: Some(30) };
    let b = Analyzer::new(PluginRegistry::new(), &c);
    assert!(!b.do_checksums);
    assert_eq!(b.tcp_defrag.timeout, Duration { secs: 30, micros: 0 });
}

#[test]
fn tcp_partial_ack_through_the_analyzer() {
    let mut a = new_analyzer();
    let data: Vec<u8> = (0..100u8).collect();
    let packets = vec![
        client_tcp(0, 0, SYN, b"", 1),
        server_tcp(500, 1, SYN | ACK, b"", 2),
        client_tcp(1, 501, ACK, b"", 3),
        client_tcp(1, 501, PSH | ACK, &data, 4),
        server_tcp(501, 51, ACK, b"", 5),
        server_tcp(501, 101, ACK, b"", 6),
    ];
    for p in &packets {
        a.handle_packet(p).unwrap();
    }
    let payloads = transport_payloads(&a.take_events());
    assert_eq!(payloads.len(), 2);
    assert_eq!(payloads[0].0, data[..50].to_vec());
    assert_eq!(payloads[1].0, data[50..].to_vec());
    assert_eq!(payloads[0].1, 4);
    assert_eq!(payloads[1].1, 4);
}

#[test]
fn unsupported_ethertype_reaches_only_network_plugins() {
    let mut registry = PluginRegistry::new();
    registry.register_layer(5, pcap_analyzer::plugin::LAYER_NETWORK, 0x88cc);
    let mut a = Analyzer::new(registry, &Config::default());
    a.handle_packet(&l2_packet(eth(0x88cc, &[1, 2, 3, 4]), 1, 1)).unwrap();
    let events = a.take_events();
    assert_eq!(events.len(), 3);
    match &events[2] {
        Event::Network { plugins, three_tuple, l4_proto, data, .. } => {
            assert_eq!(plugins, &vec![5]);
            assert_eq!(three_tuple.l3_proto, 0x88cc);
            assert_eq!(*l4_proto, 0);
            assert_eq!(data, &vec![1, 2, 3, 4]);
        }
        _ => panic!("expected a network-layer event"),
    }
    assert_eq!(a.flows.len(), 0);
    // ARP is ignored
    a.handle_packet(&l2_packet(eth(0x0806, &[0u8; 28]), 1, 2)).unwrap();
    assert_eq!(a.take_events().len(), 2);
}
