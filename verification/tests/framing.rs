use std::collections::HashMap;

use metlo_agent::http_assembly::{get_payload_type, is_content_length, parse_content_length, PayloadType};
use metlo_agent::tcp_assembly::{
    calculate_hash, parse_tcp_data, IpAddrContainer, MapKey, MapPayload, TcpConnection, TcpHeader,
};
use metlo_agent::trace::ApiTrace;

fn client() -> IpAddrContainer {
    IpAddrContainer::new_ipv4(0x0A000001)
}

fn server() -> IpAddrContainer {
    IpAddrContainer::new_ipv4(0x0A000002)
}

fn header(sport: u16, dport: u16, seq: u32) -> TcpHeader {
    TcpHeader {
        source_port: sport,
        dest_port: dport,
        sequence_no: seq,
        flag_syn: false,
        flag_fin: false,
        flag_rst: false,
    }
}

fn syn(sport: u16, dport: u16, seq: u32) -> TcpHeader {
    TcpHeader { flag_syn: true, ..header(sport, dport, seq) }
}

type Maps = (HashMap<u64, TcpConnection>, HashMap<u64, MapPayload>);

fn fresh() -> Maps {
    (HashMap::new(), HashMap::new())
}

fn client_key() -> MapKey {
    MapKey { src_ip: client(), src_port: 1000, dest_ip: server(), dest_port: 80 }
}

fn server_key() -> MapKey {
    MapKey { src_ip: server(), src_port: 80, dest_ip: client(), dest_port: 1000 }
}

#[test]
fn sniffing_rules() {
    assert_eq!(get_payload_type(&b"GET /x HTTP/1.1".to_vec()), Some(PayloadType::Request));
    assert_eq!(get_payload_type(&b"POST /x HTTP/1.1".to_vec()), Some(PayloadType::Request));
    assert_eq!(get_payload_type(&b"DELETE /x HTTP/1.1".to_vec()), Some(PayloadType::Request));
    assert_eq!(get_payload_type(&b"PATCH /x HTTP/1.1".to_vec()), Some(PayloadType::Request));
    assert_eq!(get_payload_type(&b"HTTP/1.1 200 OK".to_vec()), Some(PayloadType::Response));
    assert_eq!(get_payload_type(&b"FOO bar baz".to_vec()), None);
    assert_eq!(get_payload_type(&b"GET".to_vec()), None);
    assert_eq!(get_payload_type(&b"nospacehere".to_vec()), None);
}

#[test]
fn content_length_value_parsing() {
    assert_eq!(parse_content_length(&b"123".to_vec()), Some(123));
    assert_eq!(parse_content_length(&b"+7".to_vec()), Some(7));
    assert_eq!(parse_content_length(&b"0".to_vec()), Some(0));
    assert_eq!(parse_content_length(&b"".to_vec()), None);
    assert_eq!(parse_content_length(&b"+".to_vec()), None);
    assert_eq!(parse_content_length(&b"12a".to_vec()), None);
    assert_eq!(parse_content_length(&b"99999999999999999999999999".to_vec()), None);
    assert!(is_content_length(&b"Content-Length".to_vec()));
    assert!(is_content_length(&b"CONTENT-LENGTH".to_vec()));
    assert!(!is_content_length(&b"Content-Type".to_vec()));
}

#[test]
fn request_without_body_completes_on_header_block() {
    let (mut conns, mut pairs) = fresh();
    let msg = b"GET /x HTTP/1.1\r\nHost: a\r\n\r\n";
    parse_tcp_data(&mut conns, &mut pairs, client(), server(), &syn(1000, 80, 0), &[], 1);
    let traces = parse_tcp_data(&mut conns, &mut pairs, client(), server(), &header(1000, 80, 1), msg, 1);
    assert!(traces.is_empty(), "no counterpart yet, so nothing is emitted");
    let parked = pairs.get(&calculate_hash(&client_key())).expect("half parked");
    assert_eq!(parked.buffer, msg.to_vec(), "the whole header block is consumed");
    assert!(parked.body_buffer.is_empty(), "no body");
    let kh = calculate_hash(&client_key());
    assert!(conns.get(&kh).unwrap().payload_buffer.is_empty());
}

#[test]
fn short_body_stays_incomplete_until_filled() {
    let (mut conns, mut pairs) = fresh();
    let head = b"HTTP/1.1 200 OK\r\nContent-Length: 5\r\n\r\nabc";
    parse_tcp_data(&mut conns, &mut pairs, server(), client(), &syn(80, 1000, 0), &[], 1);
    parse_tcp_data(&mut conns, &mut pairs, server(), client(), &header(80, 1000, 1), head, 1);
    let kh = calculate_hash(&server_key());
    assert!(pairs.is_empty(), "three of five body bytes: still incomplete");
    assert_eq!(conns.get(&kh).unwrap().body_content_len, Some(5));
    let at = 1 + head.len() as u32;
    parse_tcp_data(&mut conns, &mut pairs, server(), client(), &header(80, 1000, at), b"de", 1);
    let parked = pairs.get(&kh).expect("now complete and parked");
    assert_eq!(parked.body_buffer, b"abcde".to_vec());
    assert_eq!(conns.get(&kh).unwrap().body_content_len, None, "hint cleared on completion");
}

#[test]
fn pipelined_second_message_starts_the_buffer() {
    let (mut conns, mut pairs) = fresh();
    let msg1 = b"GET /a HTTP/1.1\r\n\r\n".to_vec();
    let partial2 = b"GET /b HT".to_vec();
    let mut both = msg1.clone();
    both.extend_from_slice(&partial2);
    parse_tcp_data(&mut conns, &mut pairs, client(), server(), &syn(1000, 80, 0), &[], 1);
    parse_tcp_data(&mut conns, &mut pairs, client(), server(), &header(1000, 80, 1), &both, 1);
    let kh = calculate_hash(&client_key());
    let parked = pairs.get(&kh).expect("first message parked");
    assert_eq!(parked.buffer, msg1, "exactly the first message's bytes were consumed");
    assert_eq!(conns.get(&kh).unwrap().payload_buffer, partial2, "the second message starts the buffer");
}

fn run_request(conns: &mut HashMap<u64, TcpConnection>, pairs: &mut HashMap<u64, MapPayload>) -> Vec<ApiTrace> {
    let msg = b"GET /x?a=1&b=2 HTTP/1.1\r\nHost: a\r\n\r\n";
    parse_tcp_data(conns, pairs, client(), server(), &syn(1000, 80, 0), &[], 1);
    parse_tcp_data(conns, pairs, client(), server(), &header(1000, 80, 1), msg, 1)
}

fn run_response(conns: &mut HashMap<u64, TcpConnection>, pairs: &mut HashMap<u64, MapPayload>) -> Vec<ApiTrace> {
    let msg = b"HTTP/1.1 200 OK\r\nContent-Length: 2\r\n\r\nhi";
    parse_tcp_data(conns, pairs, server(), client(), &syn(80, 1000, 0), &[], 1);
    parse_tcp_data(conns, pairs, server(), client(), &header(80, 1000, 1), msg, 1)
}

fn check_trace(t: &ApiTrace) {
    assert_eq!(t.request.method, "GET");
    assert_eq!(t.request.url.path, "/x");
    assert_eq!(t.request.url.host, "a");
    assert_eq!(t.request.url.parameters.len(), 2);
    assert_eq!(t.request.url.parameters[0].name, "a");
    assert_eq!(t.request.url.parameters[0].value, "1");
    assert_eq!(t.request.url.parameters[1].name, "b");
    assert_eq!(t.request.url.parameters[1].value, "2");
    assert_eq!(t.request.body, "");
    let resp = t.response.as_ref().expect("response half present");
    assert_eq!(resp.status, 200);
    assert_eq!(resp.body, "hi");
    let meta = t.meta.as_ref().expect("meta present");
    assert_eq!(meta.environment, "production");
    assert!(meta.incoming);
    assert_eq!(meta.source, "10.0.0.1");
    assert_eq!(meta.source_port, 1000);
    assert_eq!(meta.destination, "10.0.0.2");
    assert_eq!(meta.destination_port, 80);
}

#[test]
fn pairing_request_then_response() {
    let (mut conns, mut pairs) = fresh();
    let first = run_request(&mut conns, &mut pairs);
    assert!(first.is_empty());
    assert_eq!(pairs.len(), 1);
    let emitted = run_response(&mut conns, &mut pairs);
    assert_eq!(emitted.len(), 1, "exactly one trace");
    check_trace(&emitted[0]);
    assert!(pairs.is_empty(), "both halves removed");
}

#[test]
fn pairing_response_then_request_is_identical() {
    let (mut conns, mut pairs) = fresh();
    let first = run_response(&mut conns, &mut pairs);
    assert!(first.is_empty());
    let emitted = run_request(&mut conns, &mut pairs);
    assert_eq!(emitted.len(), 1);
    check_trace(&emitted[0]);
    assert!(pairs.is_empty());
}

#[test]
fn malformed_header_resets_message_state_only() {
    let (mut conns, mut pairs) = fresh();
    // sniffs as a request but the start line is not valid HTTP
    let bad = b"GET /x HTTP/1.1\rbroken\r\n\r\n";
    parse_tcp_data(&mut conns, &mut pairs, client(), server(), &syn(1000, 80, 0), &[], 1);
    parse_tcp_data(&mut conns, &mut pairs, client(), server(), &header(1000, 80, 1), bad, 1);
    let kh = calculate_hash(&client_key());
    let conn = conns.get(&kh).expect("connection survives");
    assert!(conn.payload_buffer.is_empty(), "the malformed message's bytes are dropped");
    assert!(!conn.is_dead);
    assert!(pairs.is_empty());
}
