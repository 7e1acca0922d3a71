use pcap_analyzer::flow::Flow;
use pcap_analyzer::ip_defrag::{FragKey, Fragment, IPDefragEngine};
use pcap_analyzer::layers::TcpHeader;
use pcap_analyzer::plugin::PluginRegistry;
use pcap_analyzer::seq::{seq_add, seq_lt, seq_sub};
use pcap_analyzer::tcp_reassembly::{
    queue_segment, send_peer_segments, TcpPeer, TcpSegment, TcpStatus, TcpStream,
    TcpStreamError, TcpStreamReassembly, TCP_ACK, TCP_FIN, TCP_RST, TCP_SYN,
};
use pcap_analyzer::tuple::{Duration, FiveTuple, IpAddr};

fn seg(rel_seq: u32, data: &[u8], flags: u16, pcap_index: usize) -> TcpSegment {
    TcpSegment { rel_seq, rel_ack: 0, flags, data: data.to_vec(), pcap_index }
}

fn established_peer() -> TcpPeer {
    let mut p = TcpPeer::new(&IpAddr::V4(1), 1000);
    p.next_rel_seq = 1;
    p.last_rel_ack = 1;
    p.status = TcpStatus::Established;
    p
}

fn bytes(n: usize) -> Vec<u8> {
    (0..n).map(|i| (i % 251) as u8).collect()
}

#[test]
fn partial_ack_splits_and_keeps_pcap_index() {
    let mut peer = established_peer();
    let data = bytes(100);
    queue_segment(&mut peer, seg(1, &data, TCP_ACK, 7));
    let mut out = Vec::new();
    send_peer_segments(&mut peer, 51, &mut out);
    assert_eq!(out.len(), 1);
    assert_eq!(out[0].data, data[..50].to_vec());
    assert_eq!(out[0].rel_seq, 1);
    assert_eq!(peer.next_rel_seq, 51);
    assert_eq!(peer.segments.len(), 1);
    assert_eq!(peer.segments[0].rel_seq, 51);
    assert_eq!(peer.segments[0].data, data[50..].to_vec());
    send_peer_segments(&mut peer, 101, &mut out);
    assert_eq!(out.len(), 2);
    assert_eq!(out[1].data, data[50..].to_vec());
    assert_eq!(out[1].pcap_index, 7);
    assert_eq!(peer.next_rel_seq, 101);
    assert_eq!(peer.last_rel_ack, 101);
    assert!(peer.segments.is_empty());
}

#[test]
fn duplicate_ack_delivers_nothing() {
    let mut peer = established_peer();
    queue_segment(&mut peer, seg(1, b"abcdef", TCP_ACK, 1));
    let mut out = Vec::new();
    // same rel_ack as the last one
    send_peer_segments(&mut peer, 1, &mut out);
    assert!(out.is_empty());
    assert_eq!(peer.segments.len(), 1);
    send_peer_segments(&mut peer, 7, &mut out);
    assert_eq!(out.len(), 1);
    send_peer_segments(&mut peer, 7, &mut out);
    assert_eq!(out.len(), 1);
}

#[test]
fn replayed_data_is_not_delivered_again() {
    let mut peer = established_peer();
    queue_segment(&mut peer, seg(1, b"hello", TCP_ACK, 1));
    let mut out = Vec::new();
    send_peer_segments(&mut peer, 6, &mut out);
    assert_eq!(out.len(), 1);
    // the same segment again, then new data
    queue_segment(&mut peer, seg(1, b"hello", TCP_ACK, 2));
    queue_segment(&mut peer, seg(6, b"world", TCP_ACK, 3));
    send_peer_segments(&mut peer, 11, &mut out);
    assert_eq!(out.len(), 2);
    assert_eq!(out[1].data, b"world".to_vec());
    assert_eq!(out[1].pcap_index, 3);
    assert!(peer.segments.is_empty());
}

#[test]
fn overlapping_retransmission_delivers_only_new_bytes() {
    let mut peer = established_peer();
    queue_segment(&mut peer, seg(1, b"abcd", TCP_ACK, 1));
    let mut out = Vec::new();
    send_peer_segments(&mut peer, 5, &mut out);
    queue_segment(&mut peer, seg(3, b"cdefgh", TCP_ACK, 2));
    send_peer_segments(&mut peer, 9, &mut out);
    assert_eq!(out.len(), 2);
    assert_eq!(out[1].data, b"efgh".to_vec());
    assert_eq!(out[1].rel_seq, 5);
}

#[test]
fn segments_are_delivered_in_sequence_order() {
    let mut peer = established_peer();
    queue_segment(&mut peer, seg(4, b"def", TCP_ACK, 2));
    queue_segment(&mut peer, seg(1, b"abc", TCP_ACK, 1));
    let mut out = Vec::new();
    send_peer_segments(&mut peer, 7, &mut out);
    let all: Vec<u8> = out.iter().flat_map(|s| s.data.clone()).collect();
    assert_eq!(all, b"abcdef".to_vec());
}

#[test]
fn ack_not_ahead_delivers_nothing() {
    let mut peer = established_peer();
    peer.next_rel_seq = 10;
    queue_segment(&mut peer, seg(10, b"xyz", TCP_ACK, 1));
    let mut out = Vec::new();
    send_peer_segments(&mut peer, 5, &mut out);
    assert!(out.is_empty());
    assert_eq!(peer.last_rel_ack, 5);
    assert_eq!(peer.segments.len(), 1);
}

#[test]
fn empty_segment_without_fin_is_not_queued() {
    let mut peer = established_peer();
    queue_segment(&mut peer, seg(1, b"", TCP_ACK, 1));
    assert!(peer.segments.is_empty());
    queue_segment(&mut peer, seg(1, b"", TCP_FIN | TCP_ACK, 1));
    assert_eq!(peer.segments.len(), 1);
    let mut out = Vec::new();
    send_peer_segments(&mut peer, 2, &mut out);
    assert_eq!(out.len(), 1);
    assert_eq!(peer.next_rel_seq, 2);
}

#[test]
fn sequence_comparison_across_wrap() {
    assert!(seq_lt(0xffff_fff0, 0x10));
    assert!(!seq_lt(0x10, 0xffff_fff0));
    assert!(seq_lt(1, 2));
    assert!(!seq_lt(5, 5));
    assert_eq!(seq_sub(0x10, 0xffff_fff0), 0x20);
    assert_eq!(seq_add(0xffff_ffff, 2), 1);
}

fn flow() -> Flow {
    let t = FiveTuple {
        l3_proto: 0x0800,
        src: IpAddr::V4(0x0a000001),
        dst: IpAddr::V4(0x0a000002),
        src_port: 40000,
        dst_port: 80,
        l4_proto: 6,
    };
    Flow::new(&t, 100, 0)
}

fn hdr(seq: u32, ack: u32, flags: u16) -> TcpHeader {
    TcpHeader { src_port: 0, dst_port: 0, seq, ack, flags, header_len: 20 }
}

#[test]
fn sequence_wrap_stream_is_delivered_whole() {
    let mut stream = TcpStream::new(&flow());
    let isn: u32 = 0xffff_ff00;
    let sisn: u32 = 5000;
    let mut out = Vec::new();
    assert!(stream.handle_new_connection(&hdr(isn, 0, TCP_SYN), true).is_ok());
    assert!(stream
        .handle_new_connection(&hdr(sisn, isn.wrapping_add(1), TCP_SYN | TCP_ACK), false)
        .is_ok());
    assert!(stream.handle_new_connection(&hdr(isn.wrapping_add(1), sisn + 1, TCP_ACK), true).is_ok());
    assert_eq!(stream.status, TcpStatus::Established);
    let data = bytes(512);
    stream
        .handle_established_connection(&hdr(isn.wrapping_add(1), sisn + 1, TCP_ACK), &data[..256], true, 10, &mut out)
        .unwrap();
    stream
        .handle_established_connection(&hdr(isn.wrapping_add(257), sisn + 1, TCP_ACK), &data[256..], true, 11, &mut out)
        .unwrap();
    // the server acknowledges everything: the ack number wraps past 2^32
    let ack = isn.wrapping_add(513);
    assert!(ack < isn);
    stream.handle_established_connection(&hdr(sisn + 1, ack, TCP_ACK), b"", false, 12, &mut out).unwrap();
    let all: Vec<u8> = out.iter().flat_map(|s| s.data.clone()).collect();
    assert_eq!(all, data);
    // the client's data was acknowledged up to 513, past the wrap of the
    // absolute ack number
    assert_eq!(stream.client.last_rel_ack, 513);
    assert_eq!(stream.client.next_rel_seq, 513);
    assert_eq!(stream.server.last_rel_ack, 1);
}

#[test]
fn handshake_needs_a_syn_first() {
    let mut stream = TcpStream::new(&flow());
    assert_eq!(
        stream.handle_new_connection(&hdr(1, 0, TCP_ACK), true),
        Err(TcpStreamError::HandshakeFailed)
    );
    assert_eq!(stream.client.status, TcpStatus::Closed);
    assert!(stream.handle_new_connection(&hdr(1, 0, TCP_RST), true).is_ok());
}

#[test]
fn handshake_rejects_a_wrong_ack() {
    let mut stream = TcpStream::new(&flow());
    stream.handle_new_connection(&hdr(100, 0, TCP_SYN), true).unwrap();
    assert_eq!(stream.client.status, TcpStatus::SynSent);
    assert_eq!(stream.server.status, TcpStatus::Listen);
    assert_eq!(stream.server.ian, 100);
    assert_eq!(
        stream.handle_new_connection(&hdr(900, 555, TCP_SYN | TCP_ACK), false),
        Err(TcpStreamError::HandshakeFailed)
    );
    stream.handle_new_connection(&hdr(900, 101, TCP_SYN | TCP_ACK), false).unwrap();
    assert_eq!(stream.server.status, TcpStatus::SynRcv);
    assert_eq!(stream.status, TcpStatus::SynRcv);
    assert_eq!(
        stream.handle_new_connection(&hdr(101, 5, TCP_ACK), true),
        Err(TcpStreamError::HandshakeFailed)
    );
    stream.handle_new_connection(&hdr(101, 901, TCP_ACK), true).unwrap();
    assert_eq!(stream.client.status, TcpStatus::Established);
    assert_eq!(stream.server.status, TcpStatus::Established);
}

#[test]
fn stream_expires_after_timeout() {
    let mut r = TcpStreamReassembly::default();
    let mut f = flow();
    let mut out = Vec::new();
    assert!(r.update(&f, &hdr(1, 0, TCP_SYN), b"", true, 1, &mut out).is_ok());
    f.last_seen = Duration { secs: 100 + 121, micros: 0 };
    assert_eq!(
        r.update(&f, &hdr(2, 0, TCP_ACK), b"", true, 2, &mut out),
        Err(TcpStreamError::Expired)
    );
    assert_eq!(r.m[0].client.status, TcpStatus::Closed);
    assert_eq!(r.m[0].server.status, TcpStatus::Closed);
    // the stream keeps the time of its last accepted packet
    assert_eq!(r.m[0].last_seen_ts, Duration { secs: 100, micros: 0 });
}

#[test]
fn idle_streams_are_closed_by_sweep() {
    let mut r = TcpStreamReassembly::default();
    let f = flow();
    let mut out = Vec::new();
    r.update(&f, &hdr(1, 0, TCP_SYN), b"", true, 1, &mut out).unwrap();
    r.check_expired_connections(Duration { secs: 150, micros: 0 });
    assert_eq!(r.m[0].client.status, TcpStatus::SynSent);
    r.check_expired_connections(Duration { secs: 221, micros: 1 });
    assert_eq!(r.m[0].client.status, TcpStatus::Closed);
}

#[test]
fn fin_moves_established_sender_to_fin_wait() {
    let mut r = TcpStreamReassembly::default();
    let f = flow();
    let mut out = Vec::new();
    r.update(&f, &hdr(10, 0, TCP_SYN), b"", true, 1, &mut out).unwrap();
    r.update(&f, &hdr(50, 11, TCP_SYN | TCP_ACK), b"", false, 2, &mut out).unwrap();
    r.update(&f, &hdr(11, 51, TCP_ACK), b"", true, 3, &mut out).unwrap();
    r.update(&f, &hdr(11, 51, TCP_ACK), b"data", true, 4, &mut out).unwrap();
    r.update(&f, &hdr(15, 51, TCP_FIN | TCP_ACK), b"", true, 5, &mut out).unwrap();
    assert_eq!(r.m[0].client.status, TcpStatus::FinWait1);
    r.update(&f, &hdr(51, 16, TCP_ACK), b"", false, 6, &mut out).unwrap();
    assert_eq!(out.len(), 2);
    assert_eq!(out[0].data, b"data".to_vec());
    assert_eq!(r.m[0].client.next_rel_seq, 6);
}

#[test]
fn rst_closes_the_sender() {
    let mut r = TcpStreamReassembly::default();
    let f = flow();
    let mut out = Vec::new();
    r.update(&f, &hdr(10, 0, TCP_SYN), b"", true, 1, &mut out).unwrap();
    r.update(&f, &hdr(50, 11, TCP_SYN | TCP_ACK), b"", false, 2, &mut out).unwrap();
    r.update(&f, &hdr(11, 51, TCP_ACK), b"", true, 3, &mut out).unwrap();
    r.update(&f, &hdr(51, 11, TCP_RST), b"", false, 4, &mut out).unwrap();
    assert_eq!(r.m[0].server.status, TcpStatus::Closed);
}

fn key() -> FragKey {
    FragKey { id: 42, src: IpAddr::V4(1), dst: IpAddr::V4(2), proto: 17 }
}

fn now() -> Duration {
    Duration { secs: 10, micros: 0 }
}

#[test]
fn defrag_two_fragments_reverse_order() {
    let mut e = IPDefragEngine::new();
    let orig = bytes(24);
    assert!(matches!(e.update(key(), 16, false, &orig[16..], now()), Fragment::Incomplete));
    match e.update(key(), 0, true, &orig[..16], now()) {
        Fragment::Complete(v) => assert_eq!(v, orig),
        _ => panic!("expected a complete datagram"),
    }
    assert!(e.buffers.is_empty());
}

#[test]
fn defrag_any_arrival_order_gives_the_datagram() {
    let orig = bytes(40);
    let parts = [(0usize, 16usize, true), (16, 32, true), (32, 40, false)];
    let orders = [[0, 1, 2], [2, 1, 0], [1, 2, 0], [2, 0, 1]];
    for order in orders.iter() {
        let mut e = IPDefragEngine::new();
        let mut result = None;
        for &i in order.iter() {
            let (a, b, more) = parts[i];
            if let Fragment::Complete(v) = e.update(key(), a, more, &orig[a..b], now()) {
                result = Some(v);
            }
        }
        assert_eq!(result, Some(orig.clone()));
    }
}

#[test]
fn defrag_unfragmented_passes_through() {
    let mut e = IPDefragEngine::new();
    assert!(matches!(e.update(key(), 0, false, b"abc", now()), Fragment::NoFrag));
    assert!(e.buffers.is_empty());
}

#[test]
fn defrag_overlap_is_an_error() {
    let mut e = IPDefragEngine::new();
    let orig = bytes(32);
    assert!(matches!(e.update(key(), 0, true, &orig[..16], now()), Fragment::Incomplete));
    assert!(matches!(e.update(key(), 8, true, &orig[8..24], now()), Fragment::Error));
    assert!(e.buffers.is_empty());
}

#[test]
fn defrag_buffer_times_out() {
    let mut e = IPDefragEngine::new();
    let orig = bytes(24);
    assert!(matches!(e.update(key(), 0, true, &orig[..16], now()), Fragment::Incomplete));
    let later = Duration { secs: 10 + 31, micros: 0 };
    // the old first fragment is gone: the last one alone is incomplete
    assert!(matches!(e.update(key(), 16, false, &orig[16..], later), Fragment::Incomplete));
}

#[test]
fn registry_lists_specific_then_catch_all_plugins() {
    let mut r = PluginRegistry::new();
    r.register_layer(0, 3, 0);
    r.register_layer(1, 3, 0x0800);
    r.register_layer(2, 3, 0x86dd);
    r.register_layer(3, 3, 0x0800);
    r.register_layer(4, 4, 0);
    assert_eq!(r.get_plugins_for_layer(3, 0x0800), vec![1, 3]);
    assert_eq!(r.plugins_to_run(3, 0x0800), vec![1, 3, 0]);
    assert_eq!(r.plugins_to_run(3, 0), vec![0]);
    assert_eq!(r.plugins_to_run(4, 6), vec![4]);
    assert!(r.plugins_to_run(1, 0).is_empty());
}

#[test]
fn handshake_from_a_half_open_peer_is_an_anomaly() {
    let mut stream = TcpStream::new(&flow());
    stream.handle_new_connection(&hdr(100, 0, TCP_SYN), true).unwrap();
    stream.handle_new_connection(&hdr(900, 101, TCP_SYN | TCP_ACK), false).unwrap();
    // the server, now in SynRcv, sends again before the handshake ends
    assert_eq!(
        stream.handle_new_connection(&hdr(900, 101, TCP_SYN | TCP_ACK), false),
        Err(TcpStreamError::Anomaly)
    );
    assert_eq!(stream.status, TcpStatus::SynRcv);
}

#[test]
fn default_status_is_closed() {
    assert_eq!(TcpStatus::default(), TcpStatus::Closed);
    let r = TcpStreamReassembly::default();
    assert_eq!(r.timeout, Duration { secs: 120, micros: 0 });
    assert!(r.m.is_empty());
}

#[test]
fn head_past_a_hole_waits_for_its_ack() {
    let mut peer = established_peer();
    queue_segment(&mut peer, seg(11, b"later", TCP_ACK, 1));
    let mut out = Vec::new();
    // the ACK reaches exactly the start of the queued segment
    send_peer_segments(&mut peer, 11, &mut out);
    assert!(out.is_empty());
    assert_eq!(peer.segments.len(), 1);
    assert_eq!(peer.next_rel_seq, 1);
    // an ACK past its start skips the unseen hole
    send_peer_segments(&mut peer, 16, &mut out);
    assert_eq!(out.len(), 1);
    assert_eq!(out[0].data, b"later".to_vec());
    assert_eq!(peer.next_rel_seq, 16);
}

#[test]
fn ack_half_the_sequence_space_ahead_counts_as_ahead() {
    assert!(seq_lt(0xffff_fff0, 0x7fff_fff0));
    let mut peer = established_peer();
    peer.next_rel_seq = 0xffff_fff0;
    peer.last_rel_ack = 0xffff_fff0;
    queue_segment(&mut peer, seg(0xffff_fff0, b"wrap", TCP_ACK, 3));
    let mut out = Vec::new();
    send_peer_segments(&mut peer, 0x7fff_fff0, &mut out);
    assert_eq!(out.len(), 1);
    assert_eq!(out[0].data, b"wrap".to_vec());
}
