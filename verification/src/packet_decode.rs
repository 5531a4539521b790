//! Decoding a raw captured frame down to its TCP payload: link-layer
//! framing (Ethernet or loopback), the IPv4/IPv6 header, and the TCP
//! header, feeding the segment reassembler.

use vstd::prelude::*;

verus! {

use vstd::slice::slice_subrange;
use std::collections::HashMap;
use crate::tcp_assembly::ConnView;
use crate::tcp_assembly::IpAddrContainer;
use crate::tcp_assembly::MapPayload;
use crate::tcp_assembly::MapPayloadView;
use crate::tcp_assembly::TcpConnection;
use crate::tcp_assembly::TcpHeader;
use crate::tcp_assembly::TcpStep;
use crate::tcp_assembly::conn_map_view;
use crate::tcp_assembly::conn_map_wf;
use crate::tcp_assembly::parse_tcp_data;
use crate::tcp_assembly::payload_map_view;
use crate::tcp_assembly::spec_parse_tcp_data;
use crate::tcp_assembly::trace_views;
use crate::trace::ApiTrace;

/// The link-layer framing of the capture interface.
#[derive(Debug, Clone, Copy)]
pub enum InterfaceType {
    Ethernet,
    Loopback,
    Other,
}

/// The protocol family recorded in a loopback (null link-type) frame.
#[derive(Debug, Clone, Copy, PartialEq, Eq, Structural)]
pub enum LoProtocolFamily {
    IPV4,
    Other(u32),
}

/// A parsed loopback frame header.
#[derive(Debug, Clone, Copy)]
pub struct LoopbackFrame {
    pub protocol_family: LoProtocolFamily,
}

/// The protocol-family value of a loopback frame header: its first four
/// bytes, read big-endian when the first two bytes are zero and
/// little-endian otherwise.
pub open spec fn spec_protocol_family_value(b: Seq<u8>) -> u32 {
    if b[0] == 0 && b[1] == 0 {
        (b[0] * 0x1000000 + b[1] * 0x10000 + b[2] * 0x100 + b[3]) as u32
    } else {
        (b[3] * 0x1000000 + b[2] * 0x10000 + b[1] * 0x100 + b[0]) as u32
    }
}

/// What parsing the protocol family of a loopback frame yields: the family
/// (2 is IPv4) and the four bytes consumed; nothing on a short input.
pub open spec fn spec_parse_protocol_family(b: Seq<u8>) -> Option<(LoProtocolFamily, int)> {
    if b.len() < 4 {
        None
    } else {
        let v = spec_protocol_family_value(b);
        if v == 2 {
            Some((LoProtocolFamily::IPV4, 4))
        } else {
            Some((LoProtocolFamily::Other(v), 4))
        }
    }
}

/// Reads the protocol family off the front of a loopback frame.
pub fn parse_protocol_family(input: &[u8]) -> (r: Option<(LoProtocolFamily, usize)>)
    ensures
        (match r {
            Some((f, off)) => spec_parse_protocol_family(input@) == Some((f, off as int)),
            None => spec_parse_protocol_family(input@) is None,
        }),
{
    if input.len() < 4 {
        return None;
    }
    let b0 = input[0];
    let b1 = input[1];
    let b2 = input[2];
    let b3 = input[3];
    let v: u32 = if b0 == 0 && b1 == 0 {
        (b0 as u32) * 0x1000000 + (b1 as u32) * 0x10000 + (b2 as u32) * 0x100 + (b3 as u32)
    } else {
        (b3 as u32) * 0x1000000 + (b2 as u32) * 0x10000 + (b1 as u32) * 0x100 + (b0 as u32)
    };
    if v == 2 {
        Some((LoProtocolFamily::IPV4, 4))
    } else {
        Some((LoProtocolFamily::Other(v), 4))
    }
}

/// Parses the loopback frame header.
pub fn parse_loopback_frame(input: &[u8]) -> (r: Option<(LoopbackFrame, usize)>)
    ensures
        (match r {
            Some((f, off)) => spec_parse_protocol_family(input@) == Some((
                f.protocol_family,
                off as int,
            )),
            None => spec_parse_protocol_family(input@) is None,
        }),
{
    match parse_protocol_family(input) {
        Some((protocol_family, off)) => Some((LoopbackFrame { protocol_family }, off)),
        None => None,
    }
}

// ---------------------------------------------------------------------------
// Ethernet, IP and TCP headers
// ---------------------------------------------------------------------------

/// The network protocol an Ethernet frame carries, as far as decoding
/// cares.
#[derive(Debug, Clone, Copy, PartialEq, Eq, Structural)]
pub enum EtherKind {
    Ipv4,
    Ipv6,
    Other,
}

/// A parsed IPv4 header, reduced to the fields decoding reads.
#[derive(Debug, Clone, Copy)]
pub struct Ipv4Head {
    pub source_addr: u32,
    pub dest_addr: u32,
    pub is_tcp: bool,
}

/// A parsed IPv6 header, reduced to the fields decoding reads.
#[derive(Debug, Clone, Copy)]
pub struct Ipv6Head {
    pub source_addr: u128,
    pub dest_addr: u128,
    pub is_tcp: bool,
}

/// What parsing an Ethernet frame header yields: the carried protocol and
/// the offset of the frame's payload; nothing on a short input.  The
/// result depends on the frame bytes alone.
pub uninterp spec fn eth_frame_parse(b: Seq<u8>) -> Option<(EtherKind, int)>;

/// What parsing an IPv4 header yields: addresses, whether the protocol is
/// TCP, and the offset of the carried payload.  The result depends on the
/// header bytes alone.
pub uninterp spec fn ipv4_header_parse(b: Seq<u8>) -> Option<(Ipv4Head, int)>;

/// What parsing an IPv6 header yields: addresses, whether the next header
/// is TCP, and the offset of the carried payload.  The result depends on
/// the header bytes alone.
pub uninterp spec fn ipv6_header_parse(b: Seq<u8>) -> Option<(Ipv6Head, int)>;

/// What parsing a TCP header yields: ports, sequence number, flags, and
/// the offset of the segment payload.  The result depends on the header
/// bytes alone.
pub uninterp spec fn tcp_header_parse(b: Seq<u8>) -> Option<(TcpHeader, int)>;

/// Relies on `pktparse::ethernet::parse_ethernet_frame`: the outcome
/// depends on the input bytes alone, and what remains after the header is
/// a suffix of the input.
#[verifier::external_body]
fn parse_eth(input: &[u8]) -> (r: Option<(EtherKind, usize)>)
    ensures
        (match r {
            Some((k, off)) => eth_frame_parse(input@) == Some((k, off as int)) && off
                <= input@.len(),
            None => eth_frame_parse(input@) is None,
        }),
{
    match pktparse::ethernet::parse_ethernet_frame(input) {
        Ok((rest, frame)) => {
            let kind = match frame.ethertype {
                pktparse::ethernet::EtherType::IPv4 => EtherKind::Ipv4,
                pktparse::ethernet::EtherType::IPv6 => EtherKind::Ipv6,
                _ => EtherKind::Other,
            };
            Some((kind, input.len() - rest.len()))
        },
        Err(_) => None,
    }
}

/// Relies on `pktparse::ipv4::parse_ipv4_header`: the outcome depends on
/// the input bytes alone, and what remains after the header is a suffix of
/// the input.
#[verifier::external_body]
fn parse_ipv4(input: &[u8]) -> (r: Option<(Ipv4Head, usize)>)
    ensures
        (match r {
            Some((h, off)) => ipv4_header_parse(input@) == Some((h, off as int)) && off
                <= input@.len(),
            None => ipv4_header_parse(input@) is None,
        }),
{
    match pktparse::ipv4::parse_ipv4_header(input) {
        Ok((rest, h)) => Some((
            Ipv4Head {
                source_addr: u32::from(h.source_addr),
                dest_addr: u32::from(h.dest_addr),
                is_tcp: matches!(h.protocol, pktparse::ip::IPProtocol::TCP),
            },
            input.len() - rest.len(),
        )),
        Err(_) => None,
    }
}

/// Relies on `pktparse::ipv6::parse_ipv6_header`: the outcome depends on
/// the input bytes alone, and what remains after the header is a suffix of
/// the input.
#[verifier::external_body]
fn parse_ipv6(input: &[u8]) -> (r: Option<(Ipv6Head, usize)>)
    ensures
        (match r {
            Some((h, off)) => ipv6_header_parse(input@) == Some((h, off as int)) && off
                <= input@.len(),
            None => ipv6_header_parse(input@) is None,
        }),
{
    match pktparse::ipv6::parse_ipv6_header(input) {
        Ok((rest, h)) => Some((
            Ipv6Head {
                source_addr: u128::from(h.source_addr),
                dest_addr: u128::from(h.dest_addr),
                is_tcp: matches!(h.next_header, pktparse::ip::IPProtocol::TCP),
            },
            input.len() - rest.len(),
        )),
        Err(_) => None,
    }
}

/// Relies on `pktparse::tcp::parse_tcp_header`: the outcome depends on the
/// input bytes alone, and what remains after the header and its options is
/// a suffix of the input.
#[verifier::external_body]
fn parse_tcp_head(input: &[u8]) -> (r: Option<(TcpHeader, usize)>)
    ensures
        (match r {
            Some((h, off)) => tcp_header_parse(input@) == Some((h, off as int)) && off
                <= input@.len(),
            None => tcp_header_parse(input@) is None,
        }),
{
    match pktparse::tcp::parse_tcp_header(input) {
        Ok((rest, h)) => Some((
            TcpHeader {
                source_port: h.source_port,
                dest_port: h.dest_port,
                sequence_no: h.sequence_no,
                flag_syn: h.flag_syn,
                flag_fin: h.flag_fin,
                flag_rst: h.flag_rst,
            },
            input.len() - rest.len(),
        )),
        Err(_) => None,
    }
}

// ---------------------------------------------------------------------------
// One full decode-and-reassemble pass
// ---------------------------------------------------------------------------

/// The step both tables take when an IPv4 packet's bytes `l2` reach the
/// reassembler.
pub open spec fn spec_process_ipv4(
    conns: Map<u64, ConnView>,
    rmap: Map<u64, MapPayloadView>,
    l2: Seq<u8>,
    now: u64,
) -> TcpStep {
    match ipv4_header_parse(l2) {
        Some((ih, o2)) => {
            if ih.is_tcp {
                let l3 = l2.subrange(o2, l2.len() as int);
                match tcp_header_parse(l3) {
                    Some((th, o3)) => spec_parse_tcp_data(
                        conns,
                        rmap,
                        IpAddrContainer { ipv4_addr: Some(ih.source_addr), ipv6_addr: None },
                        IpAddrContainer { ipv4_addr: Some(ih.dest_addr), ipv6_addr: None },
                        th,
                        l3.subrange(o3, l3.len() as int),
                        now,
                    ),
                    None => TcpStep { conns, pairs: rmap, emitted: Seq::empty() },
                }
            } else {
                TcpStep { conns, pairs: rmap, emitted: Seq::empty() }
            }
        },
        None => TcpStep { conns, pairs: rmap, emitted: Seq::empty() },
    }
}

/// The step both tables take when an IPv6 packet's bytes `l2` reach the
/// reassembler.
pub open spec fn spec_process_ipv6(
    conns: Map<u64, ConnView>,
    rmap: Map<u64, MapPayloadView>,
    l2: Seq<u8>,
    now: u64,
) -> TcpStep {
    match ipv6_header_parse(l2) {
        Some((ih, o2)) => {
            if ih.is_tcp {
                let l3 = l2.subrange(o2, l2.len() as int);
                match tcp_header_parse(l3) {
                    Some((th, o3)) => spec_parse_tcp_data(
                        conns,
                        rmap,
                        IpAddrContainer { ipv4_addr: None, ipv6_addr: Some(ih.source_addr) },
                        IpAddrContainer { ipv4_addr: None, ipv6_addr: Some(ih.dest_addr) },
                        th,
                        l3.subrange(o3, l3.len() as int),
                        now,
                    ),
                    None => TcpStep { conns, pairs: rmap, emitted: Seq::empty() },
                }
            } else {
                TcpStep { conns, pairs: rmap, emitted: Seq::empty() }
            }
        },
        None => TcpStep { conns, pairs: rmap, emitted: Seq::empty() },
    }
}

/// The step both tables take for one raw captured frame: decode the link
/// layer the interface uses, then the IP and TCP headers, and hand the
/// segment to the reassembler; a frame that fails to decode, or carries
/// anything but TCP, changes nothing.
pub open spec fn spec_process_packet(
    conns: Map<u64, ConnView>,
    rmap: Map<u64, MapPayloadView>,
    data: Seq<u8>,
    itype: InterfaceType,
    now: u64,
) -> TcpStep {
    match itype {
        InterfaceType::Ethernet => match eth_frame_parse(data) {
            Some((k, off)) => {
                let l2 = data.subrange(off, data.len() as int);
                match k {
                    EtherKind::Ipv4 => spec_process_ipv4(conns, rmap, l2, now),
                    EtherKind::Ipv6 => spec_process_ipv6(conns, rmap, l2, now),
                    EtherKind::Other => TcpStep { conns, pairs: rmap, emitted: Seq::empty() },
                }
            },
            None => TcpStep { conns, pairs: rmap, emitted: Seq::empty() },
        },
        InterfaceType::Loopback => match spec_parse_protocol_family(data) {
            Some((f, off)) => {
                if f == LoProtocolFamily::IPV4 {
                    spec_process_ipv4(conns, rmap, data.subrange(off, data.len() as int), now)
                } else {
                    TcpStep { conns, pairs: rmap, emitted: Seq::empty() }
                }
            },
            None => TcpStep { conns, pairs: rmap, emitted: Seq::empty() },
        },
        InterfaceType::Other => TcpStep { conns, pairs: rmap, emitted: Seq::empty() },
    }
}

fn process_ipv4(
    conn_map: &mut HashMap<u64, TcpConnection>,
    req_map: &mut HashMap<u64, MapPayload>,
    l2: &[u8],
    now: u64,
) -> (traces: Vec<ApiTrace>)
    requires
        l2@.len() <= u32::MAX,
        conn_map_wf(conn_map_view(old(conn_map)@)),
    ensures
        ({
            let s = spec_process_ipv4(
                conn_map_view(old(conn_map)@),
                payload_map_view(old(req_map)@),
                l2@,
                now,
            );
            &&& conn_map_view(final(conn_map)@) == s.conns
            &&& payload_map_view(final(req_map)@) == s.pairs
            &&& trace_views(traces@) == s.emitted
        }),
        conn_map_wf(conn_map_view(final(conn_map)@)),
{
    match parse_ipv4(l2) {
        Some((ih, o2)) => {
            if ih.is_tcp {
                let l3 = slice_subrange(l2, o2, l2.len());
                match parse_tcp_head(l3) {
                    Some((th, o3)) => {
                        let payload = slice_subrange(l3, o3, l3.len());
                        parse_tcp_data(
                            conn_map,
                            req_map,
                            IpAddrContainer::new_ipv4(ih.source_addr),
                            IpAddrContainer::new_ipv4(ih.dest_addr),
                            &th,
                            payload,
                            now,
                        )
                    },
                    None => Vec::new(),
                }
            } else {
                Vec::new()
            }
        },
        None => Vec::new(),
    }
}

fn process_ipv6(
    conn_map: &mut HashMap<u64, TcpConnection>,
    req_map: &mut HashMap<u64, MapPayload>,
    l2: &[u8],
    now: u64,
) -> (traces: Vec<ApiTrace>)
    requires
        l2@.len() <= u32::MAX,
        conn_map_wf(conn_map_view(old(conn_map)@)),
    ensures
        ({
            let s = spec_process_ipv6(
                conn_map_view(old(conn_map)@),
                payload_map_view(old(req_map)@),
                l2@,
                now,
            );
            &&& conn_map_view(final(conn_map)@) == s.conns
            &&& payload_map_view(final(req_map)@) == s.pairs
            &&& trace_views(traces@) == s.emitted
        }),
        conn_map_wf(conn_map_view(final(conn_map)@)),
{
    match parse_ipv6(l2) {
        Some((ih, o2)) => {
            if ih.is_tcp {
                let l3 = slice_subrange(l2, o2, l2.len());
                match parse_tcp_head(l3) {
                    Some((th, o3)) => {
                        let payload = slice_subrange(l3, o3, l3.len());
                        parse_tcp_data(
                            conn_map,
                            req_map,
                            IpAddrContainer::new_ipv6(ih.source_addr),
                            IpAddrContainer::new_ipv6(ih.dest_addr),
                            &th,
                            payload,
                            now,
                        )
                    },
                    None => Vec::new(),
                }
            } else {
                Vec::new()
            }
        },
        None => Vec::new(),
    }
}

/// Decodes one raw captured frame and hands its TCP segment, if it carries
/// one, to the reassembler, as `spec_process_packet` describes.  A frame
/// whose link, IP or TCP headers fail to decode is dropped with no state
/// change.
pub fn process_packet(
    conn_map: &mut HashMap<u64, TcpConnection>,
    req_map: &mut HashMap<u64, MapPayload>,
    packet_data: &[u8],
    interface_type: &InterfaceType,
    now: u64,
) -> (traces: Vec<ApiTrace>)
    requires
        packet_data@.len() <= u32::MAX,
        conn_map_wf(conn_map_view(old(conn_map)@)),
    ensures
        ({
            let s = spec_process_packet(
                conn_map_view(old(conn_map)@),
                payload_map_view(old(req_map)@),
                packet_data@,
                *interface_type,
                now,
            );
            &&& conn_map_view(final(conn_map)@) == s.conns
            &&& payload_map_view(final(req_map)@) == s.pairs
            &&& trace_views(traces@) == s.emitted
        }),
        conn_map_wf(conn_map_view(final(conn_map)@)),
{
    match interface_type {
        InterfaceType::Ethernet => match parse_eth(packet_data) {
            Some((k, off)) => {
                let l2 = slice_subrange(packet_data, off, packet_data.len());
                match k {
                    EtherKind::Ipv4 => process_ipv4(conn_map, req_map, l2, now),
                    EtherKind::Ipv6 => process_ipv6(conn_map, req_map, l2, now),
                    EtherKind::Other => Vec::new(),
                }
            },
            None => Vec::new(),
        },
        InterfaceType::Loopback => match parse_protocol_family(packet_data) {
            Some((f, off)) => match f {
                LoProtocolFamily::IPV4 => {
                    proof {
                        assert(off <= packet_data@.len());
                    }
                    let l2 = slice_subrange(packet_data, off, packet_data.len());
                    process_ipv4(conn_map, req_map, l2, now)
                },
                LoProtocolFamily::Other(_) => Vec::new(),
            },
            None => Vec::new(),
        },
        InterfaceType::Other => Vec::new(),
    }
}

} // verus!
