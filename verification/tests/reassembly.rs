use std::collections::HashMap;

use metlo_agent::tcp_assembly::{
    calculate_hash, clean_map, mirror_key, parse_tcp_data, IpAddrContainer, MapKey, MapPayload,
    TcpConnection, TcpHeader,
};

fn client() -> IpAddrContainer {
    IpAddrContainer::new_ipv4(0x0A000001)
}

fn server() -> IpAddrContainer {
    IpAddrContainer::new_ipv4(0x0A000002)
}

fn key(src: IpAddrContainer, sport: u16, dst: IpAddrContainer, dport: u16) -> MapKey {
    MapKey { src_ip: src, src_port: sport, dest_ip: dst, dest_port: dport }
}

fn header(sport: u16, dport: u16, seq: u32) -> TcpHeader {
    TcpHeader {
        source_port: sport,
        dest_port: dport,
        sequence_no: seq,
        flag_syn: false,
        flag_fin: false,
        flag_rst: false,
    }
}

fn syn(sport: u16, dport: u16, seq: u32) -> TcpHeader {
    TcpHeader { flag_syn: true, ..header(sport, dport, seq) }
}

type Maps = (HashMap<u64, TcpConnection>, HashMap<u64, MapPayload>);

fn fresh() -> Maps {
    (HashMap::new(), HashMap::new())
}

/// Sixty bytes of data that never looks like HTTP, so the framer leaves it.
fn stream_bytes() -> Vec<u8> {
    (0..60u8).map(|i| b'a' + (i % 26)).collect()
}

#[test]
fn in_order_reassembly() {
    let (mut conns, mut pairs) = fresh();
    let data = stream_bytes();
    parse_tcp_data(&mut conns, &mut pairs, client(), server(), &syn(1000, 80, 99), &[], 1);
    for (i, chunk) in data.chunks(20).enumerate() {
        let h = header(1000, 80, 100 + 20 * i as u32);
        parse_tcp_data(&mut conns, &mut pairs, client(), server(), &h, chunk, 1);
    }
    let kh = calculate_hash(&key(client(), 1000, server(), 80));
    let conn = conns.get(&kh).expect("connection present");
    assert_eq!(conn.payload_buffer, data);
    assert_eq!(conn.next_seq, 160);
    assert!(!conn.is_dead);
}

#[test]
fn out_of_order_reassembly_permutation() {
    // segments [100:120), [120:140), [140:160) delivered as 140, 100, 120
    let (mut conns, mut pairs) = fresh();
    let data = stream_bytes();
    parse_tcp_data(&mut conns, &mut pairs, client(), server(), &syn(1000, 80, 99), &[], 1);
    let seg1 = &data[0..20];
    let seg2 = &data[20..40];
    let seg3 = &data[40..60];
    parse_tcp_data(&mut conns, &mut pairs, client(), server(), &header(1000, 80, 140), seg3, 1);
    parse_tcp_data(&mut conns, &mut pairs, client(), server(), &header(1000, 80, 100), seg1, 1);
    let kh = calculate_hash(&key(client(), 1000, server(), 80));
    // nothing contiguous past 120 yet: only the first segment landed
    assert_eq!(conns.get(&kh).unwrap().payload_buffer, seg1.to_vec());
    assert_eq!(conns.get(&kh).unwrap().buffer.len(), 1);
    // the gap closes and one drain cascade delivers the rest
    parse_tcp_data(&mut conns, &mut pairs, client(), server(), &header(1000, 80, 120), seg2, 1);
    let conn = conns.get(&kh).unwrap();
    assert_eq!(conn.payload_buffer, data);
    assert_eq!(conn.next_seq, 160);
    assert_eq!(conn.buffer.len(), 0);
}

#[test]
fn fully_reversed_delivery() {
    let (mut conns, mut pairs) = fresh();
    let data = stream_bytes();
    parse_tcp_data(&mut conns, &mut pairs, client(), server(), &syn(1000, 80, 99), &[], 1);
    for (i, chunk) in data.chunks(20).enumerate().rev() {
        let h = header(1000, 80, 100 + 20 * i as u32);
        parse_tcp_data(&mut conns, &mut pairs, client(), server(), &h, chunk, 1);
    }
    let kh = calculate_hash(&key(client(), 1000, server(), 80));
    let conn = conns.get(&kh).unwrap();
    assert_eq!(conn.payload_buffer, data);
    assert_eq!(conn.buffer.len(), 0);
}

#[test]
fn pure_ack_is_ignored() {
    let (mut conns, mut pairs) = fresh();
    parse_tcp_data(&mut conns, &mut pairs, client(), server(), &header(1000, 80, 500), &[], 1);
    assert!(conns.is_empty());
    assert!(pairs.is_empty());
}

#[test]
fn cap_kills_connection_on_101st_insertion() {
    let (mut conns, mut pairs) = fresh();
    parse_tcp_data(&mut conns, &mut pairs, client(), server(), &syn(1000, 80, 99), &[], 1);
    let kh = calculate_hash(&key(client(), 1000, server(), 80));
    let chunk = [b'x'; 10];
    for i in 0..100u32 {
        let h = header(1000, 80, 10_000 + 100 * i);
        parse_tcp_data(&mut conns, &mut pairs, client(), server(), &h, &chunk, 1);
    }
    {
        let conn = conns.get(&kh).unwrap();
        assert!(!conn.is_dead);
        assert_eq!(conn.buffer.len(), 100);
    }
    // the 101st out-of-order insertion attempt kills the connection
    parse_tcp_data(&mut conns, &mut pairs, client(), server(), &header(1000, 80, 99_999), &chunk, 1);
    {
        let conn = conns.get(&kh).unwrap();
        assert!(conn.is_dead);
        assert_eq!(conn.buffer.len(), 0);
    }
    // while dead, further segments are ignored
    parse_tcp_data(&mut conns, &mut pairs, client(), server(), &header(1000, 80, 50_000), &chunk, 1);
    {
        let conn = conns.get(&kh).unwrap();
        assert!(conn.is_dead);
        assert_eq!(conn.buffer.len(), 0);
        assert!(conn.payload_buffer.is_empty());
    }
    // a new SYN resets the stream and revives the connection
    parse_tcp_data(&mut conns, &mut pairs, client(), server(), &syn(1000, 80, 7), &[], 1);
    assert!(!conns.get(&kh).unwrap().is_dead);
}

#[test]
fn fin_removes_connection() {
    let (mut conns, mut pairs) = fresh();
    parse_tcp_data(&mut conns, &mut pairs, client(), server(), &syn(1000, 80, 99), &[], 1);
    let fin = TcpHeader { flag_fin: true, ..header(1000, 80, 100) };
    parse_tcp_data(&mut conns, &mut pairs, client(), server(), &fin, b"zzzz", 1);
    assert!(conns.is_empty());
}

#[test]
fn fin_with_pending_buffered_segment_closes() {
    let (mut conns, mut pairs) = fresh();
    parse_tcp_data(&mut conns, &mut pairs, client(), server(), &syn(1000, 80, 99), &[], 1);
    // a later segment is parked out of order, without termination
    parse_tcp_data(&mut conns, &mut pairs, client(), server(), &header(1000, 80, 120), b"later", 1);
    // the in-order segment carries FIN: the stream has terminated, so the
    // entry is removed even though something was still buffered
    let fin = TcpHeader { flag_fin: true, ..header(1000, 80, 100) };
    parse_tcp_data(&mut conns, &mut pairs, client(), server(), &fin, &[b'y'; 20], 1);
    assert!(conns.is_empty(), "the arriving FIN closes the connection");
}

#[test]
fn drained_fin_closes_connection() {
    let (mut conns, mut pairs) = fresh();
    parse_tcp_data(&mut conns, &mut pairs, client(), server(), &syn(1000, 80, 99), &[], 1);
    // the FIN segment arrives first, out of order, and is parked
    let fin = TcpHeader { flag_fin: true, ..header(1000, 80, 120) };
    parse_tcp_data(&mut conns, &mut pairs, client(), server(), &fin, b"tail", 1);
    // the gap closes: the drain cascade reaches the parked FIN segment and
    // the connection is removed
    parse_tcp_data(&mut conns, &mut pairs, client(), server(), &header(1000, 80, 100), &[b'x'; 20], 1);
    assert!(conns.is_empty(), "the drained FIN closes the connection");
}

#[test]
fn sweeper_liveness() {
    let (mut conns, mut pairs) = fresh();
    parse_tcp_data(&mut conns, &mut pairs, client(), server(), &syn(1000, 80, 99), &[], 1000);
    parse_tcp_data(&mut conns, &mut pairs, client(), server(), &syn(2000, 80, 99), &[], 1005);
    let old_key = calculate_hash(&key(client(), 1000, server(), 80));
    let new_key = calculate_hash(&key(client(), 2000, server(), 80));
    clean_map(&mut conns, &mut pairs, 1011);
    assert!(conns.get(&old_key).is_none(), "entry older than the threshold is evicted");
    assert!(conns.get(&new_key).is_some(), "entry within the threshold is retained");
}

#[test]
fn hash_is_deterministic_and_direction_sensitive() {
    let k = key(client(), 1000, server(), 80);
    let m = mirror_key(&k);
    assert_eq!(calculate_hash(&k), calculate_hash(&k));
    assert_eq!(calculate_hash(&m), calculate_hash(&mirror_key(&k)));
    assert_ne!(calculate_hash(&k), calculate_hash(&m));
}

#[test]
fn addr_rendering() {
    assert_eq!(IpAddrContainer::new_ipv4(0x01020304).to_string(), "1.2.3.4");
    assert_eq!(IpAddrContainer::new_ipv4(0).to_string(), "0.0.0.0");
    // IPv6: lower-case hex groups, longest zero run compressed, leftmost on a tie
    assert_eq!(
        IpAddrContainer::new_ipv6(0x2001_0db8_0000_0000_0000_0000_0000_0001).to_string(),
        "2001:db8::1"
    );
    assert_eq!(IpAddrContainer::new_ipv6(1).to_string(), "::1");
    assert_eq!(IpAddrContainer::new_ipv6(0).to_string(), "::");
    assert_eq!(
        IpAddrContainer::new_ipv6(0x0001_0000_0000_0000_0000_0000_0000_0000).to_string(),
        "1::"
    );
    assert_eq!(
        IpAddrContainer::new_ipv6(0x0001_0002_0003_0004_0005_0006_0007_0008).to_string(),
        "1:2:3:4:5:6:7:8"
    );
    // a single zero group is not compressed
    assert_eq!(
        IpAddrContainer::new_ipv6(0x0001_0000_0003_0004_0005_0006_0007_0008).to_string(),
        "1:0:3:4:5:6:7:8"
    );
    // two equal runs: the leftmost is compressed
    assert_eq!(
        IpAddrContainer::new_ipv6(0x0000_0000_0003_0000_0000_0006_0007_0008).to_string(),
        "::3:0:0:6:7:8"
    );
}

#[test]
fn syn_reset_drops_buffered_segments() {
    let (mut conns, mut pairs) = fresh();
    parse_tcp_data(&mut conns, &mut pairs, client(), server(), &syn(1000, 80, 99), &[], 1);
    // park a segment from the old sequence space out of order
    parse_tcp_data(&mut conns, &mut pairs, client(), server(), &header(1000, 80, 500), b"stale", 1);
    let kh = calculate_hash(&key(client(), 1000, server(), 80));
    assert_eq!(conns.get(&kh).unwrap().buffer.len(), 1);
    // a SYN at an unexpected sequence number is a fresh stream reset:
    // all buffers are cleared and the new stream starts
    parse_tcp_data(&mut conns, &mut pairs, client(), server(), &syn(1000, 80, 7000), b"zz", 1);
    let conn = conns.get(&kh).unwrap();
    assert_eq!(conn.buffer.len(), 0, "the out-of-order buffer is dropped");
    assert_eq!(conn.payload_buffer, b"zz".to_vec());
    assert_eq!(conn.next_seq, 7003);
    assert!(!conn.is_dead);
    assert_eq!(conn.body_content_len, None);
}
