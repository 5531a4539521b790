use std::collections::HashMap;

use metlo_agent::metlo_config::{initialize_metlo, MetloConfig};
use metlo_agent::open_api::get_split_path;
use metlo_agent::packet_decode::{
    parse_loopback_frame, parse_protocol_family, process_packet, InterfaceType, LoProtocolFamily,
};
use metlo_agent::process_trace::{insert_data_type, process_path, DataTypeMap};
use metlo_agent::sensitive_data::{
    compile_pattern, cpf_verifier_digit, default_sensitive_data_ls, detect_sensitive_data,
    detect_sensitive_in_path_data, validate_aadhar, validate_brazil_cpf, SensitiveData,
};
use metlo_agent::tcp_assembly::{calculate_hash, IpAddrContainer, MapKey, MapPayload, TcpConnection};
use metlo_agent::utils::{get_valid_path, is_graphql_endpoint};

// ---------------------------------------------------------------------------
// Frame decoding
// ---------------------------------------------------------------------------

fn ethernet_frame(src: [u8; 4], dst: [u8; 4], sport: u16, dport: u16, seq: u32, flags: u8, payload: &[u8]) -> Vec<u8> {
    let mut f: Vec<u8> = Vec::new();
    f.extend_from_slice(&[0u8; 6]); // destination MAC
    f.extend_from_slice(&[1u8; 6]); // source MAC
    f.extend_from_slice(&[0x08, 0x00]); // IPv4
    // IPv4 header, 20 bytes
    f.push(0x45);
    f.push(0);
    let total = (20 + 20 + payload.len()) as u16;
    f.extend_from_slice(&total.to_be_bytes());
    f.extend_from_slice(&[0, 0, 0, 0]); // id, flags/frag
    f.push(64); // ttl
    f.push(6); // TCP
    f.extend_from_slice(&[0, 0]); // checksum
    f.extend_from_slice(&src);
    f.extend_from_slice(&dst);
    // TCP header, 20 bytes
    f.extend_from_slice(&sport.to_be_bytes());
    f.extend_from_slice(&dport.to_be_bytes());
    f.extend_from_slice(&seq.to_be_bytes());
    f.extend_from_slice(&[0, 0, 0, 0]); // ack
    f.push(0x50); // data offset 5
    f.push(flags);
    f.extend_from_slice(&[0xff, 0xff]); // window
    f.extend_from_slice(&[0, 0]); // checksum
    f.extend_from_slice(&[0, 0]); // urgent
    f.extend_from_slice(payload);
    f
}

#[test]
fn process_packet_decodes_ethernet_ipv4_tcp() {
    let mut conns: HashMap<u64, TcpConnection> = HashMap::new();
    let mut pairs: HashMap<u64, MapPayload> = HashMap::new();
    let c = [10, 0, 0, 1];
    let s = [10, 0, 0, 2];
    let synf = ethernet_frame(c, s, 1000, 80, 0, 0x02, b"");
    let dataf = ethernet_frame(c, s, 1000, 80, 1, 0x18, b"GET /x HTTP/1.1\r\nHost: a\r\n\r\n");
    process_packet(&mut conns, &mut pairs, &synf, &InterfaceType::Ethernet, 1);
    process_packet(&mut conns, &mut pairs, &dataf, &InterfaceType::Ethernet, 1);
    let key = MapKey {
        src_ip: IpAddrContainer::new_ipv4(0x0A000001),
        src_port: 1000,
        dest_ip: IpAddrContainer::new_ipv4(0x0A000002),
        dest_port: 80,
    };
    assert!(conns.contains_key(&calculate_hash(&key)), "connection opened from the frames");
    assert_eq!(pairs.len(), 1, "the request half was framed and parked");
}

#[test]
fn garbage_frame_changes_nothing() {
    let mut conns: HashMap<u64, TcpConnection> = HashMap::new();
    let mut pairs: HashMap<u64, MapPayload> = HashMap::new();
    process_packet(&mut conns, &mut pairs, &[1, 2, 3], &InterfaceType::Ethernet, 1);
    process_packet(&mut conns, &mut pairs, &[1, 2, 3], &InterfaceType::Loopback, 1);
    process_packet(&mut conns, &mut pairs, &[1, 2, 3], &InterfaceType::Other, 1);
    assert!(conns.is_empty());
    assert!(pairs.is_empty());
}

#[test]
fn loopback_protocol_family() {
    assert_eq!(parse_protocol_family(&[0, 0, 0, 2]), Some((LoProtocolFamily::IPV4, 4)));
    assert_eq!(parse_protocol_family(&[2, 0, 0, 0]), Some((LoProtocolFamily::IPV4, 4)));
    assert_eq!(parse_protocol_family(&[30, 0, 0, 0]), Some((LoProtocolFamily::Other(30), 4)));
    assert_eq!(parse_protocol_family(&[0, 0]), None);
    let (frame, used) = parse_loopback_frame(&[0, 0, 0, 2, 9, 9]).unwrap();
    assert_eq!(frame.protocol_family, LoProtocolFamily::IPV4);
    assert_eq!(used, 4);
}

// ---------------------------------------------------------------------------
// Path helpers
// ---------------------------------------------------------------------------

#[test]
fn valid_path_normalization() {
    assert_eq!(get_valid_path("/").unwrap(), "/");
    assert_eq!(get_valid_path("/a/b").unwrap(), "/a/b");
    assert_eq!(get_valid_path("/a/b/").unwrap(), "/a/b");
    assert_eq!(get_valid_path("//a").unwrap(), "/a");
    assert_eq!(get_valid_path("").unwrap_err(), "No path provided");
    assert_eq!(get_valid_path("a/b").unwrap_err(), "Path does not start with a leading slash.");
    assert_eq!(
        get_valid_path("/a//b/").unwrap_err(),
        "Too many trailing or leading slashes in path."
    );
}

#[test]
fn graphql_endpoint_detection() {
    assert!(is_graphql_endpoint("/graphql"));
    assert!(is_graphql_endpoint("/api/graphql"));
    assert!(is_graphql_endpoint("/api/graphql///"));
    assert!(!is_graphql_endpoint("/graph"));
    assert!(!is_graphql_endpoint("/graphqlx"));
    assert!(!is_graphql_endpoint(""));
}

#[test]
fn split_path_drops_empty_segments() {
    assert_eq!(get_split_path("/a//b/"), vec!["a".to_string(), "b".to_string()]);
    assert_eq!(get_split_path("a/b"), vec!["a".to_string(), "b".to_string()]);
    assert_eq!(get_split_path("/"), Vec::<String>::new());
    assert_eq!(get_split_path(""), Vec::<String>::new());
}

// ---------------------------------------------------------------------------
// Sensitive data detection
// ---------------------------------------------------------------------------

#[test]
fn default_detectors_match_email_and_ip() {
    let list = default_sensitive_data_ls();
    let hits = detect_sensitive_data("write to test@example.com today", &list);
    assert_eq!(hits, vec!["Email".to_string()]);
    let hits = detect_sensitive_data("from 10.1.2.3 port 80", &list);
    assert_eq!(hits, vec!["IP Address".to_string()]);
    let hits = detect_sensitive_data("nothing to see", &list);
    assert!(hits.is_empty());
}

#[test]
fn aadhar_checksum() {
    assert!(validate_aadhar("234123412346"));
    assert!(validate_aadhar("2341-2341-2346"));
    assert!(!validate_aadhar("234123412345"));
    assert!(!validate_aadhar("1234"));
}

#[test]
fn cpf_checksum() {
    assert_eq!(cpf_verifier_digit(&vec![5, 2, 9, 9, 8, 2, 2, 4, 7]), 2);
    assert!(validate_brazil_cpf("529.982.247-25"));
    assert!(validate_brazil_cpf("52998224725"));
    assert!(!validate_brazil_cpf("52998224726"));
    assert!(!validate_brazil_cpf("123"));
}

#[test]
fn checksum_gates_detection() {
    let list = vec![SensitiveData {
        sensitive_data_type: "Brazil CPF".to_string(),
        regex: compile_pattern(r#"[0-9]"#),
        key_regex: None,
    }];
    assert_eq!(detect_sensitive_data("52998224725", &list), vec!["Brazil CPF".to_string()]);
    assert!(detect_sensitive_data("52998224726", &list).is_empty(), "checksum failure suppresses the hit");
}

#[test]
fn detection_reports_each_matching_kind_once() {
    let list = vec![
        SensitiveData {
            sensitive_data_type: "Email".to_string(),
            regex: compile_pattern("@"),
            key_regex: None,
        },
        SensitiveData {
            sensitive_data_type: "Brazil CPF".to_string(),
            regex: compile_pattern("[0-9]"),
            key_regex: None,
        },
        SensitiveData {
            sensitive_data_type: "Email".to_string(),
            regex: compile_pattern("@"),
            key_regex: None,
        },
        SensitiveData {
            sensitive_data_type: "Patternless".to_string(),
            regex: None,
            key_regex: None,
        },
    ];
    // every kind whose pattern matches and whose checksum passes is
    // reported, once, in detector order; a patternless entry never is
    assert_eq!(
        detect_sensitive_data("a@b 52998224725", &list),
        vec!["Email".to_string(), "Brazil CPF".to_string()]
    );
    assert_eq!(
        detect_sensitive_data("a@b 52998224726", &list),
        vec!["Email".to_string()],
        "a failed checksum suppresses the kind even on a match"
    );
    assert_eq!(detect_sensitive_data("nothing", &list), Vec::<String>::new());
}

#[test]
fn key_pattern_detection_and_process_path() {
    let list = vec![SensitiveData {
        sensitive_data_type: "Email".to_string(),
        regex: None,
        key_regex: compile_pattern("email"),
    }];
    assert_eq!(detect_sensitive_in_path_data("user_email", &list), vec!["Email".to_string()]);
    assert!(detect_sensitive_in_path_data("user_id", &list).is_empty());

    let mut map = DataTypeMap { entries: Vec::new() };
    process_path(&"user_email".to_string(), "resBody.user_email".to_string(), &mut map, &list);
    assert_eq!(map.entries.len(), 1);
    assert_eq!(map.entries[0].path, "resBody.user_email");
    assert_eq!(map.entries[0].types, vec!["Email".to_string()]);
    // a path that detects nothing leaves the map unchanged
    process_path(&"user_id".to_string(), "resBody.user_id".to_string(), &mut map, &list);
    assert_eq!(map.entries.len(), 1);
}

#[test]
fn insert_data_type_keeps_kinds_unique() {
    let mut map = DataTypeMap { entries: Vec::new() };
    insert_data_type(&mut map, "reqBody.a", "string".to_string());
    insert_data_type(&mut map, "reqBody.a", "string".to_string());
    insert_data_type(&mut map, "reqBody.a", "number".to_string());
    insert_data_type(&mut map, "reqBody.b", "null".to_string());
    assert_eq!(map.entries.len(), 2);
    assert_eq!(map.entries[0].path, "reqBody.a");
    assert_eq!(map.entries[0].types, vec!["string".to_string(), "number".to_string()]);
    assert_eq!(map.entries[1].path, "reqBody.b");
    assert_eq!(map.entries[1].types, vec!["null".to_string()]);
}

// ---------------------------------------------------------------------------
// Configuration
// ---------------------------------------------------------------------------

#[test]
fn initialize_metlo_records_settings() {
    let mut conf = MetloConfig { api_key: None, metlo_host: None, initialized: false };
    initialize_metlo(&mut conf, "https://collector".to_string(), "SECRET-REDACTED".to_string());
    assert_eq!(conf.metlo_host.as_deref(), Some("https://collector"));
    assert_eq!(conf.api_key.as_deref(), Some("SECRET-REDACTED"));
    assert!(conf.initialized);
}
