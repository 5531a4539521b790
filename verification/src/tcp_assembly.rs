//! Per-connection TCP stream reassembly: the connection table, segment
//! ordering and buffering, the hard memory caps, and the idle sweeper.

use vstd::prelude::*;

use std::collections::hash_map::DefaultHasher;
use std::collections::HashMap;
use std::hash::Hasher;

verus! {

use vstd::std_specs::hash::DefaultHasherAdditionalSpecFns;
use vstd::slice::slice_to_vec;
use crate::MAX_HTTP_SIZE;
use crate::trace::ApiTrace;
use crate::trace::ApiTraceView;
use crate::trace::trace_opt_view;
use crate::text::ascii_chars;
use crate::text::bytes_to_string;
use crate::text::dec_bytes;
use crate::text::hex_bytes;
use crate::text::is_ascii_seq;
use crate::text::push_ascii_byte;
use crate::text::push_dec_u32;
use crate::text::push_hex_u16;

// ---------------------------------------------------------------------------
// Addresses and connection keys
// ---------------------------------------------------------------------------

/// An IPv4 or IPv6 address, held as a plain integer in network byte order
/// (an IPv4 address as its 32-bit value, an IPv6 address as its 128-bit
/// value).
#[derive(Debug, Clone, Copy)]
pub struct IpAddrContainer {
    pub ipv4_addr: Option<u32>,
    pub ipv6_addr: Option<u128>,
}

/// The rendering of an IPv4 address: dotted decimal.
pub open spec fn v4_str_bytes(v: u32) -> Seq<u8> {
    dec_bytes(v as int / 0x1000000) + seq!['.' as u8] + dec_bytes((v as int / 0x10000) % 0x100)
        + seq!['.' as u8] + dec_bytes((v as int / 0x100) % 0x100) + seq!['.' as u8] + dec_bytes(
        v as int % 0x100,
    )
}

/// The eight 16-bit groups of an IPv6 address, most significant first.
pub open spec fn v6_groups(w: u128) -> Seq<u16> {
    seq![
        ((w as int / 0x10000000000000000000000000000) % 0x10000) as u16,
        ((w as int / 0x1000000000000000000000000) % 0x10000) as u16,
        ((w as int / 0x100000000000000000000) % 0x10000) as u16,
        ((w as int / 0x10000000000000000) % 0x10000) as u16,
        ((w as int / 0x1000000000000) % 0x10000) as u16,
        ((w as int / 0x100000000) % 0x10000) as u16,
        ((w as int / 0x10000) % 0x10000) as u16,
        (w as int % 0x10000) as u16,
    ]
}

/// The length of the run of zero groups starting at `i`.
pub open spec fn zero_run(gs: Seq<u16>, i: int) -> int
    decreases gs.len() - i,
{
    if i < 0 || i >= gs.len() || gs[i] != 0 {
        0
    } else {
        1 + zero_run(gs, i + 1)
    }
}

/// The leftmost longest run of zero groups at or after `i`: its start and
/// its length.
pub open spec fn best_zero_run(gs: Seq<u16>, i: int) -> (int, int)
    decreases gs.len() - i,
{
    if i < 0 || i >= gs.len() {
        (i, 0)
    } else {
        let rest = best_zero_run(gs, i + 1);
        let cur = zero_run(gs, i);
        if cur >= rest.1 {
            (i, cur)
        } else {
            rest
        }
    }
}

/// Groups `lo..hi` rendered in lower-case hexadecimal without leading
/// zeros, joined with colons.
pub open spec fn join_groups(gs: Seq<u16>, lo: int, hi: int) -> Seq<u8>
    decreases hi - lo,
{
    if lo < 0 || lo >= hi {
        Seq::empty()
    } else if lo == hi - 1 {
        hex_bytes(gs[lo] as int)
    } else {
        hex_bytes(gs[lo] as int) + seq![':' as u8] + join_groups(gs, lo + 1, hi)
    }
}

/// The rendering of an IPv6 address: its groups in lower-case hexadecimal
/// without leading zeros, with the leftmost longest run of two or more
/// zero groups compressed to `::`.
pub open spec fn v6_str_bytes(w: u128) -> Seq<u8> {
    let gs = v6_groups(w);
    let best = best_zero_run(gs, 0);
    if best.1 < 2 {
        join_groups(gs, 0, 8)
    } else {
        join_groups(gs, 0, best.0) + seq![':' as u8, ':' as u8] + join_groups(
            gs,
            best.0 + best.1,
            8,
        )
    }
}

proof fn lemma_zero_run_bound(gs: Seq<u16>, i: int)
    requires
        0 <= i <= gs.len(),
    ensures
        0 <= zero_run(gs, i) <= gs.len() - i,
    decreases gs.len() - i,
{
    if i < gs.len() && gs[i] == 0 {
        lemma_zero_run_bound(gs, i + 1);
    }
}

proof fn lemma_join_snoc(gs: Seq<u16>, lo: int, hi: int)
    requires
        0 <= lo <= hi < gs.len(),
    ensures
        join_groups(gs, lo, hi + 1) == join_groups(gs, lo, hi) + (if hi > lo {
            seq![':' as u8]
        } else {
            Seq::empty()
        }) + hex_bytes(gs[hi] as int),
    decreases hi - lo,
{
    if hi == lo {
        assert(join_groups(gs, lo, hi + 1) =~= join_groups(gs, lo, hi) + Seq::empty()
            + hex_bytes(gs[hi] as int));
    } else {
        lemma_join_snoc(gs, lo + 1, hi);
        assert(hex_bytes(gs[lo] as int) + seq![':' as u8] + (join_groups(gs, lo + 1, hi) + seq![
            ':' as u8,
        ] + hex_bytes(gs[hi] as int)) =~= (hex_bytes(gs[lo] as int) + seq![':' as u8]
            + join_groups(gs, lo + 1, hi)) + seq![':' as u8] + hex_bytes(gs[hi] as int));
    }
}

/// Appends groups `lo..hi`, colon-separated, in lower-case hexadecimal.
fn push_groups(out: &mut Vec<u8>, gs: &Vec<u16>, lo: usize, hi: usize)
    requires
        lo <= hi <= gs@.len(),
    ensures
        final(out)@ == old(out)@ + join_groups(gs@, lo as int, hi as int),
        is_ascii_seq(old(out)@) ==> is_ascii_seq(final(out)@),
{
    let ghost base = out@;
    let mut j: usize = lo;
    proof {
        assert(base + join_groups(gs@, lo as int, lo as int) =~= base);
    }
    while j < hi
        invariant
            lo <= j <= hi,
            hi <= gs@.len(),
            out@ == base + join_groups(gs@, lo as int, j as int),
            is_ascii_seq(base) ==> is_ascii_seq(out@),
        decreases hi - j,
    {
        if j > lo {
            push_ascii_byte(out, ':' as u8);
        }
        push_hex_u16(out, gs[j]);
        proof {
            lemma_join_snoc(gs@, lo as int, j as int);
            assert(out@ =~= base + join_groups(gs@, lo as int, j + 1));
        }
        j = j + 1;
    }
}

/// The textual rendering of an address; the empty string when neither
/// family is set.
pub open spec fn addr_str_bytes(a: IpAddrContainer) -> Seq<u8> {
    match a.ipv4_addr {
        Some(v) => v4_str_bytes(v),
        None => match a.ipv6_addr {
            Some(w) => v6_str_bytes(w),
            None => Seq::empty(),
        },
    }
}

/// The textual rendering of an address, as characters.
pub open spec fn spec_addr_string(a: IpAddrContainer) -> Seq<char> {
    ascii_chars(addr_str_bytes(a))
}

impl IpAddrContainer {
    pub fn new_ipv4(ipv4_addr: u32) -> (r: Self)
        ensures
            r == (IpAddrContainer { ipv4_addr: Some(ipv4_addr), ipv6_addr: None }),
    {
        IpAddrContainer { ipv4_addr: Some(ipv4_addr), ipv6_addr: None }
    }

    pub fn new_ipv6(ipv6_addr: u128) -> (r: Self)
        ensures
            r == (IpAddrContainer { ipv4_addr: None, ipv6_addr: Some(ipv6_addr) }),
    {
        IpAddrContainer { ipv4_addr: None, ipv6_addr: Some(ipv6_addr) }
    }

    /// Renders the address as text, for the trace metadata.
    pub fn to_string(&self) -> (r: String)
        ensures
            r@ == spec_addr_string(*self),
    {
        let mut bytes: Vec<u8> = Vec::new();
        match self.ipv4_addr {
            Some(v) => {
                push_dec_u32(&mut bytes, v / 0x1000000);
                push_ascii_byte(&mut bytes, '.' as u8);
                push_dec_u32(&mut bytes, (v / 0x10000) % 0x100);
                push_ascii_byte(&mut bytes, '.' as u8);
                push_dec_u32(&mut bytes, (v / 0x100) % 0x100);
                push_ascii_byte(&mut bytes, '.' as u8);
                push_dec_u32(&mut bytes, v % 0x100);
                proof {
                    assert(bytes@ =~= addr_str_bytes(*self));
                }
            },
            None => match self.ipv6_addr {
                Some(w) => {
                    let mut gs: Vec<u16> = Vec::new();
                    gs.push((w / 0x10000000000000000000000000000) as u16);
                    gs.push(((w / 0x1000000000000000000000000) % 0x10000) as u16);
                    gs.push(((w / 0x100000000000000000000) % 0x10000) as u16);
                    gs.push(((w / 0x10000000000000000) % 0x10000) as u16);
                    gs.push(((w / 0x1000000000000) % 0x10000) as u16);
                    gs.push(((w / 0x100000000) % 0x10000) as u16);
                    gs.push(((w / 0x10000) % 0x10000) as u16);
                    gs.push((w % 0x10000) as u16);
                    proof {
                        assert(gs@ =~= v6_groups(w));
                    }
                    // find the leftmost longest run of zero groups
                    let mut zr: usize = 0;
                    let mut bs: usize = 8;
                    let mut bl: usize = 0;
                    let mut i: usize = 8;
                    while i > 0
                        invariant
                            0 <= i <= 8,
                            gs@.len() == 8,
                            gs@ == v6_groups(w),
                            zr == zero_run(gs@, i as int),
                            zr <= 8 - i,
                            (bs as int, bl as int) == best_zero_run(gs@, i as int),
                            bs + bl <= 8,
                            i <= bs,
                        decreases i,
                    {
                        i = i - 1;
                        if gs[i] == 0 {
                            zr = zr + 1;
                        } else {
                            zr = 0;
                        }
                        if zr >= bl {
                            bs = i;
                            bl = zr;
                        }
                    }
                    if bl < 2 {
                        push_groups(&mut bytes, &gs, 0, 8);
                    } else {
                        push_groups(&mut bytes, &gs, 0, bs);
                        push_ascii_byte(&mut bytes, ':' as u8);
                        push_ascii_byte(&mut bytes, ':' as u8);
                        push_groups(&mut bytes, &gs, bs + bl, 8);
                    }
                    proof {
                        assert(bytes@ =~= addr_str_bytes(*self));
                    }
                },
                None => {
                    proof {
                        assert(bytes@ =~= addr_str_bytes(*self));
                    }
                },
            },
        }
        proof {
            assert(is_ascii_seq(bytes@));
        }
        bytes_to_string(bytes.as_slice())
    }
}

/// One direction of a TCP connection: source address and port, destination
/// address and port.
#[derive(Debug, Clone, Copy)]
pub struct MapKey {
    pub src_ip: IpAddrContainer,
    pub src_port: u16,
    pub dest_ip: IpAddrContainer,
    pub dest_port: u16,
}

/// The mirror of a connection key: source and destination swapped.  The
/// response to a request seen on key `k` travels on key `mirror_of(k)`.
pub open spec fn mirror_of(k: MapKey) -> MapKey {
    MapKey { src_ip: k.dest_ip, src_port: k.dest_port, dest_ip: k.src_ip, dest_port: k.src_port }
}

pub fn mirror_key(k: &MapKey) -> (r: MapKey)
    ensures
        r == mirror_of(*k),
{
    MapKey { src_ip: k.dest_ip, src_port: k.dest_port, dest_ip: k.src_ip, dest_port: k.src_port }
}

// ---------------------------------------------------------------------------
// Hashing a connection key to the fixed-width table key
// ---------------------------------------------------------------------------

/// Big-endian bytes of a 16-bit value.
pub open spec fn be2(v: u16) -> Seq<u8> {
    seq![(v / 0x100) as u8, (v % 0x100) as u8]
}

/// Big-endian bytes of a 32-bit value.
pub open spec fn be4(v: u32) -> Seq<u8> {
    seq![
        (v / 0x1000000) as u8,
        ((v / 0x10000) % 0x100) as u8,
        ((v / 0x100) % 0x100) as u8,
        (v % 0x100) as u8,
    ]
}

/// Big-endian bytes of a 128-bit value.
pub open spec fn be16(v: u128) -> Seq<u8> {
    be4((v / 0x1000000000000000000000000) as u32) + be4(((v / 0x10000000000000000) % 0x100000000) as u32)
        + be4(((v / 0x100000000) % 0x100000000) as u32) + be4((v % 0x100000000) as u32)
}

/// The byte encoding of an address that feeds the key hash: a tag byte for
/// the address family, then the address bytes.
pub open spec fn addr_bytes(a: IpAddrContainer) -> Seq<u8> {
    match a.ipv4_addr {
        Some(v) => seq![1u8] + be4(v),
        None => match a.ipv6_addr {
            Some(w) => seq![2u8] + be16(w),
            None => seq![0u8],
        },
    }
}

/// The byte encoding of a connection key that feeds the key hash.
pub open spec fn key_encoding(k: MapKey) -> Seq<u8> {
    addr_bytes(k.src_ip) + be2(k.src_port) + addr_bytes(k.dest_ip) + be2(k.dest_port)
}

/// The fixed-width table key of a connection key: the digest of its byte
/// encoding.  Collisions are accepted as a known limitation.
pub open spec fn spec_key_hash(k: MapKey) -> u64 {
    DefaultHasher::spec_finish(seq![key_encoding(k)])
}

fn push_be2(out: &mut Vec<u8>, v: u16)
    ensures
        final(out)@ == old(out)@ + be2(v),
{
    out.push((v / 0x100) as u8);
    out.push((v % 0x100) as u8);
    proof {
        assert(out@ =~= old(out)@ + be2(v));
    }
}

fn push_be4(out: &mut Vec<u8>, v: u32)
    ensures
        final(out)@ == old(out)@ + be4(v),
{
    out.push((v / 0x1000000) as u8);
    out.push(((v / 0x10000) % 0x100) as u8);
    out.push(((v / 0x100) % 0x100) as u8);
    out.push((v % 0x100) as u8);
    proof {
        assert(out@ =~= old(out)@ + be4(v));
    }
}

fn push_be16(out: &mut Vec<u8>, v: u128)
    ensures
        final(out)@ == old(out)@ + be16(v),
{
    push_be4(out, (v / 0x1000000000000000000000000) as u32);
    push_be4(out, ((v / 0x10000000000000000) % 0x100000000) as u32);
    push_be4(out, ((v / 0x100000000) % 0x100000000) as u32);
    push_be4(out, (v % 0x100000000) as u32);
    proof {
        assert(out@ =~= old(out)@ + be16(v));
    }
}

fn push_addr_bytes(out: &mut Vec<u8>, a: &IpAddrContainer)
    ensures
        final(out)@ == old(out)@ + addr_bytes(*a),
{
    match a.ipv4_addr {
        Some(v) => {
            out.push(1u8);
            push_be4(out, v);
        }
        None => match a.ipv6_addr {
            Some(w) => {
                out.push(2u8);
                push_be16(out, w);
            }
            None => {
                out.push(0u8);
            }
        },
    }
    proof {
        assert(out@ =~= old(out)@ + addr_bytes(*a));
    }
}

/// Reduces a connection key to the fixed-width integer that both tables are
/// keyed by.  The same key always hashes to the same value, and the encoding
/// distinguishes source from destination, so a key and its mirror hash
/// independently.
pub fn calculate_hash(k: &MapKey) -> (r: u64)
    ensures
        r == spec_key_hash(*k),
{
    let mut bytes: Vec<u8> = Vec::new();
    push_addr_bytes(&mut bytes, &k.src_ip);
    push_be2(&mut bytes, k.src_port);
    push_addr_bytes(&mut bytes, &k.dest_ip);
    push_be2(&mut bytes, k.dest_port);
    proof {
        assert(bytes@ =~= key_encoding(*k));
    }
    let mut hasher = DefaultHasher::new();
    hasher.write(bytes.as_slice());
    proof {
        assert(hasher@ =~= seq![key_encoding(*k)]);
    }
    hasher.finish()
}

// ---------------------------------------------------------------------------
// Per-connection reassembly state
// ---------------------------------------------------------------------------

/// One buffered out-of-order segment: its payload bytes and whether it
/// carried connection termination (FIN or RST).
#[derive(Debug, Clone)]
pub struct TcpPacket {
    pub data: Vec<u8>,
    pub is_fin: bool,
}

/// Spec-level state of one connection.
#[verifier::ext_equal]
pub struct ConnView {
    /// Buffered out-of-order segments, keyed by sequence number.
    pub buffer: Map<u32, (Seq<u8>, bool)>,
    /// The in-order reassembled bytes of the current in-flight message.
    pub payload: Seq<u8>,
    /// The body length learned from `Content-Length`, once known.
    pub content_len: Option<usize>,
    /// The next sequence number this connection expects.
    pub next_seq: u32,
    pub dead: bool,
    pub last_seen: u64,
    pub src: IpAddrContainer,
    pub sport: u16,
    pub dst: IpAddrContainer,
    pub dport: u16,
    /// Every byte ever accepted in order on this connection, in stream
    /// order.  The framer consumes from `payload` but never from here.
    pub delivered: Seq<u8>,
}

/// Reassembly state of one live connection.
pub struct TcpConnection {
    pub buffer: HashMap<u32, TcpPacket>,
    pub payload_buffer: Vec<u8>,
    pub body_content_len: Option<usize>,
    pub next_seq: u32,
    pub is_dead: bool,
    pub last_seen: u64,
    pub source_addr: IpAddrContainer,
    pub source_port: u16,
    pub dest_addr: IpAddrContainer,
    pub dest_port: u16,
    /// Ghost record of all bytes accepted in order, for the reassembly laws.
    pub delivered: Ghost<Seq<u8>>,
}

/// Spec-level contents of the out-of-order buffer.
pub open spec fn pkt_map_view(m: Map<u32, TcpPacket>) -> Map<u32, (Seq<u8>, bool)> {
    m.map_values(|p: TcpPacket| (p.data@, p.is_fin))
}

impl View for TcpConnection {
    type V = ConnView;

    open spec fn view(&self) -> ConnView {
        ConnView {
            buffer: pkt_map_view(self.buffer@),
            payload: self.payload_buffer@,
            content_len: self.body_content_len,
            next_seq: self.next_seq,
            dead: self.is_dead,
            last_seen: self.last_seen,
            src: self.source_addr,
            sport: self.source_port,
            dst: self.dest_addr,
            dport: self.dest_port,
            delivered: self.delivered@,
        }
    }
}

/// The connection invariant: the reassembled buffer never exceeds the hard
/// cap, and every buffered segment is small enough for 32-bit sequence
/// arithmetic.
pub open spec fn conn_wf(c: ConnView) -> bool {
    &&& c.payload.len() <= MAX_HTTP_SIZE
    &&& forall|s: u32| c.buffer.contains_key(s) ==> (#[trigger] c.buffer[s]).0.len() <= u32::MAX
}

/// The connection key a connection's own identifying fields form.
pub open spec fn conn_key(c: ConnView) -> MapKey {
    MapKey { src_ip: c.src, src_port: c.sport, dest_ip: c.dst, dest_port: c.dport }
}

// ---------------------------------------------------------------------------
// A parked half of an exchange
// ---------------------------------------------------------------------------

/// Spec-level contents of a parked message half.
#[verifier::ext_equal]
pub struct MapPayloadView {
    pub buffer: Seq<u8>,
    pub body_buffer: Seq<u8>,
    pub last_seen: u64,
}

/// One completed message half parked in the pairing table until its
/// counterpart arrives: its header-block bytes, its body bytes, and when it
/// was parked.
#[derive(Debug, Clone)]
pub struct MapPayload {
    pub buffer: Vec<u8>,
    pub body_buffer: Vec<u8>,
    pub last_seen: u64,
}

impl View for MapPayload {
    type V = MapPayloadView;

    open spec fn view(&self) -> MapPayloadView {
        MapPayloadView {
            buffer: self.buffer@,
            body_buffer: self.body_buffer@,
            last_seen: self.last_seen,
        }
    }
}

/// Spec-level contents of the pairing table.
pub open spec fn payload_map_view(m: Map<u64, MapPayload>) -> Map<u64, MapPayloadView> {
    m.map_values(|p: MapPayload| p@)
}

// ---------------------------------------------------------------------------
// Buffer reset and in-order append
// ---------------------------------------------------------------------------

/// Effect of `reset_connection` on the connection state.
pub open spec fn spec_reset(c: ConnView, bytes_parsed: int, remaining: int) -> ConnView {
    ConnView {
        dead: false,
        content_len: None,
        payload: if remaining > 0 { c.payload.subrange(bytes_parsed, c.payload.len() as int) } else {
            Seq::empty()
        },
        ..c
    }
}

/// Clears the current message state of a connection: drops the first
/// `bytes_parsed` bytes of the reassembled buffer (all of it when
/// `remaining` is zero), forgets the body-length hint, and revives the
/// connection.
pub fn reset_connection(conn: &mut TcpConnection, bytes_parsed: usize, remaining: usize)
    requires
        remaining > 0 ==> bytes_parsed + remaining == old(conn).payload_buffer@.len(),
    ensures
        final(conn)@ == spec_reset(old(conn)@, bytes_parsed as int, remaining as int),
        conn_wf(old(conn)@) ==> conn_wf(final(conn)@),
{
    conn.is_dead = false;
    conn.body_content_len = None;
    if remaining > 0 {
        let tail = conn.payload_buffer.split_off(bytes_parsed);
        conn.payload_buffer = tail;
    } else {
        conn.payload_buffer = Vec::new();
    }
}

/// Effect of accepting `data` as the next in-order bytes: append, unless the
/// connection is dead (ignored) or the hard cap would be exceeded (the
/// connection is killed and its buffer dropped).
pub open spec fn spec_analyze(c: ConnView, data: Seq<u8>) -> ConnView {
    if c.dead {
        c
    } else if c.payload.len() + data.len() > MAX_HTTP_SIZE {
        ConnView { payload: Seq::empty(), dead: true, ..c }
    } else {
        ConnView { payload: c.payload + data, delivered: c.delivered + data, ..c }
    }
}

/// Accepts the next in-order payload bytes of a connection, subject to the
/// hard cap on the reassembled buffer.
pub fn analyze_data(conn: &mut TcpConnection, data: &[u8])
    requires
        conn_wf(old(conn)@),
    ensures
        final(conn)@ == spec_analyze(old(conn)@, data@),
        conn_wf(final(conn)@),
{
    if conn.is_dead {
        return ;
    }
    if data.len() > MAX_HTTP_SIZE - conn.payload_buffer.len() {
        conn.is_dead = true;
        conn.payload_buffer = Vec::new();
        return ;
    }
    conn.payload_buffer.extend_from_slice(data);
    conn.delivered = Ghost(conn.delivered@ + data@);
}

// ---------------------------------------------------------------------------
// The connection table: accepting one TCP segment
// ---------------------------------------------------------------------------

/// One parsed TCP header, reduced to the fields reassembly reads.
#[derive(Debug, Clone, Copy)]
pub struct TcpHeader {
    pub source_port: u16,
    pub dest_port: u16,
    pub sequence_no: u32,
    pub flag_syn: bool,
    pub flag_fin: bool,
    pub flag_rst: bool,
}

/// 32-bit sequence-number addition, wrapping.  Meaningful for `0 <= b <=
/// u32::MAX + 1`, which covers a segment's length plus the SYN byte.
pub open spec fn wrap_add32(a: u32, b: int) -> u32 {
    if a + b > u32::MAX {
        (a + b - 0x100000000) as u32
    } else {
        (a + b) as u32
    }
}

/// Spec-level contents of the connection table.
pub open spec fn conn_map_view(m: Map<u64, TcpConnection>) -> Map<u64, ConnView> {
    m.map_values(|c: TcpConnection| c@)
}

/// Every connection in the table is well formed.
pub open spec fn conn_map_wf(m: Map<u64, ConnView>) -> bool {
    forall|k: u64| m.contains_key(k) ==> conn_wf(#[trigger] m[k])
}

/// The emitted traces of one pass, as views.
pub open spec fn trace_views(s: Seq<ApiTrace>) -> Seq<ApiTraceView> {
    s.map_values(|t: ApiTrace| t@)
}

/// An optional emitted trace as a sequence of zero or one traces.
pub open spec fn opt_view_seq(o: Option<ApiTraceView>) -> Seq<ApiTraceView> {
    match o {
        Some(t) => seq![t],
        None => Seq::empty(),
    }
}

/// Result of draining contiguous buffered segments.
#[verifier::ext_equal]
pub struct DrainResult {
    pub conn: ConnView,
    pub map: Map<u64, MapPayloadView>,
    pub emitted: Seq<ApiTraceView>,
    pub next_seq: u32,
    pub finished: bool,
}

/// Draining the out-of-order buffer after an in-order append: while the
/// buffer holds a segment at the expected sequence number and the stream
/// has not terminated, take the segment out, append it, re-run the
/// framer, and advance.  The cascade stops at a drained segment that
/// carried termination, so `finished` ends true exactly when the arriving
/// segment or any drained segment carried FIN or RST.  `fuel` bounds the
/// number of steps; one fuel per buffered segment drains everything
/// contiguous.
pub open spec fn spec_drain(
    c: ConnView,
    rmap: Map<u64, MapPayloadView>,
    key: u64,
    next_seq: u32,
    finished: bool,
    now: u64,
    fuel: nat,
) -> DrainResult
    decreases fuel,
{
    if fuel == 0 || finished || !c.buffer.contains_key(next_seq) {
        DrainResult { conn: c, map: rmap, emitted: Seq::empty(), next_seq, finished }
    } else {
        let (data, fin) = c.buffer[next_seq];
        let nn = wrap_add32(next_seq, data.len() as int);
        let c1 = ConnView { buffer: c.buffer.remove(next_seq), ..c };
        let c2 = spec_analyze(c1, data);
        let rp = crate::http_assembly::spec_run_payload(c2, rmap, key, now);
        let rest = spec_drain(rp.conn, rp.map, key, nn, fin, now, (fuel - 1) as nat);
        DrainResult {
            conn: rest.conn,
            map: rest.map,
            emitted: opt_view_seq(rp.emitted) + rest.emitted,
            next_seq: rest.next_seq,
            finished: rest.finished,
        }
    }
}

/// Result of accepting one segment: both tables as they stand afterwards,
/// and the traces emitted along the way.
#[verifier::ext_equal]
pub struct TcpStep {
    pub conns: Map<u64, ConnView>,
    pub pairs: Map<u64, MapPayloadView>,
    pub emitted: Seq<ApiTraceView>,
}

/// Accepting one TCP segment, as the segment reassembler does it:
/// - a pure acknowledgment (no bytes, no SYN/FIN/RST) is ignored;
/// - on a dead connection, FIN or RST removes the entry;
/// - a segment at the expected sequence number is appended, the framer
///   runs, and contiguous buffered segments drain until the stream
///   terminates;
/// - a SYN at an unexpected sequence number is a fresh stream reset: all
///   buffers are dropped and the new stream starts with this segment;
/// - anything else out of order is buffered, subject to the segment cap,
///   whose excess kills the connection and clears both buffers;
/// - a segment for an unknown key opens a fresh entry: a clean start on
///   SYN, otherwise the segment is parked in the out-of-order buffer;
/// - the framer runs once more before the pass ends, and the connection
///   is closed if the arriving segment or any drained segment carried
///   FIN or RST.
#[verifier::opaque]
pub open spec fn spec_parse_tcp_data(
    conns: Map<u64, ConnView>,
    rmap: Map<u64, MapPayloadView>,
    src: IpAddrContainer,
    dst: IpAddrContainer,
    hdr: TcpHeader,
    data: Seq<u8>,
    now: u64,
) -> TcpStep {
    let fin_rst = hdr.flag_fin || hdr.flag_rst;
    if data.len() == 0 && !fin_rst && !hdr.flag_syn {
        TcpStep { conns, pairs: rmap, emitted: Seq::empty() }
    } else {
        let key = spec_key_hash(
            MapKey {
                src_ip: src,
                src_port: hdr.source_port,
                dest_ip: dst,
                dest_port: hdr.dest_port,
            },
        );
        let nsq0 = if hdr.flag_syn {
            wrap_add32(hdr.sequence_no, data.len() as int + 1)
        } else {
            wrap_add32(hdr.sequence_no, data.len() as int)
        };
        if conns.contains_key(key) {
            let c = conns[key];
            if c.dead && fin_rst {
                TcpStep { conns: conns.remove(key), pairs: rmap, emitted: Seq::empty() }
            } else if hdr.sequence_no == c.next_seq {
                let c1 = spec_analyze(c, data);
                let rp1 = crate::http_assembly::spec_run_payload(c1, rmap, key, now);
                let dr = spec_drain(
                    rp1.conn,
                    rp1.map,
                    key,
                    nsq0,
                    fin_rst,
                    now,
                    rp1.conn.buffer.dom().len(),
                );
                let c2 = ConnView { next_seq: dr.next_seq, last_seen: now, ..dr.conn };
                let rp2 = crate::http_assembly::spec_run_payload(c2, dr.map, key, now);
                TcpStep {
                    conns: if dr.finished {
                        conns.remove(key)
                    } else {
                        conns.insert(key, rp2.conn)
                    },
                    pairs: rp2.map,
                    emitted: opt_view_seq(rp1.emitted) + dr.emitted + opt_view_seq(rp2.emitted),
                }
            } else if hdr.flag_syn {
                let c0 = ConnView { buffer: Map::empty(), ..spec_reset(c, 0, 0) };
                let c1 = spec_analyze(c0, data);
                let c2 = ConnView { next_seq: nsq0, last_seen: now, ..c1 };
                let rp = crate::http_assembly::spec_run_payload(c2, rmap, key, now);
                TcpStep {
                    conns: conns.insert(key, rp.conn),
                    pairs: rp.map,
                    emitted: opt_view_seq(rp.emitted),
                }
            } else if !c.dead {
                let c1 = if c.buffer.dom().len() >= crate::MAX_BUFFERED_SEGMENTS {
                    ConnView {
                        buffer: Map::empty(),
                        payload: Seq::empty(),
                        content_len: None,
                        dead: true,
                        ..c
                    }
                } else {
                    ConnView { buffer: c.buffer.insert(hdr.sequence_no, (data, fin_rst)), ..c }
                };
                let c2 = ConnView { last_seen: now, ..c1 };
                let rp = crate::http_assembly::spec_run_payload(c2, rmap, key, now);
                TcpStep {
                    conns: conns.insert(key, rp.conn),
                    pairs: rp.map,
                    emitted: opt_view_seq(rp.emitted),
                }
            } else {
                let c2 = ConnView { last_seen: now, ..c };
                let rp = crate::http_assembly::spec_run_payload(c2, rmap, key, now);
                TcpStep {
                    conns: conns.insert(key, rp.conn),
                    pairs: rp.map,
                    emitted: opt_view_seq(rp.emitted),
                }
            }
        } else {
            let fresh = ConnView {
                buffer: Map::empty(),
                payload: Seq::empty(),
                content_len: None,
                next_seq: nsq0,
                dead: false,
                last_seen: now,
                src,
                sport: hdr.source_port,
                dst,
                dport: hdr.dest_port,
                delivered: Seq::empty(),
            };
            if hdr.flag_syn {
                let c1 = spec_analyze(fresh, data);
                let rp = crate::http_assembly::spec_run_payload(c1, rmap, key, now);
                TcpStep {
                    conns: conns.insert(key, rp.conn),
                    pairs: rp.map,
                    emitted: opt_view_seq(rp.emitted),
                }
            } else {
                let c1 = ConnView {
                    buffer: map![hdr.sequence_no => (data, fin_rst)],
                    ..fresh
                };
                TcpStep { conns: conns.insert(key, c1), pairs: rmap, emitted: Seq::empty() }
            }
        }
    }
}

proof fn lemma_cmv_insert(m: Map<u64, TcpConnection>, k: u64, v: TcpConnection)
    ensures
        conn_map_view(m.insert(k, v)) == conn_map_view(m).insert(k, v@),
{
    assert(conn_map_view(m.insert(k, v)) =~= conn_map_view(m).insert(k, v@));
}

proof fn lemma_cmv_remove(m: Map<u64, TcpConnection>, k: u64)
    ensures
        conn_map_view(m.remove(k)) == conn_map_view(m).remove(k),
{
    assert(conn_map_view(m.remove(k)) =~= conn_map_view(m).remove(k));
}

proof fn lemma_pkt_insert(m: Map<u32, TcpPacket>, k: u32, v: TcpPacket)
    ensures
        pkt_map_view(m.insert(k, v)) == pkt_map_view(m).insert(k, (v.data@, v.is_fin)),
{
    assert(pkt_map_view(m.insert(k, v)) =~= pkt_map_view(m).insert(k, (v.data@, v.is_fin)));
}

proof fn lemma_pkt_remove(m: Map<u32, TcpPacket>, k: u32)
    ensures
        pkt_map_view(m.remove(k)) == pkt_map_view(m).remove(k),
{
    assert(pkt_map_view(m.remove(k)) =~= pkt_map_view(m).remove(k));
}

/// Drains contiguous buffered segments after an in-order append, as
/// `spec_drain` describes, pushing any traces the framer emits; the
/// cascade stops once the stream terminates.  Returns the sequence number
/// reached and whether the arriving segment or any drained segment
/// carried FIN or RST.
#[verifier::rlimit(60)]
fn drain_buffered(
    v: &mut TcpConnection,
    req_map: &mut HashMap<u64, MapPayload>,
    key: u64,
    nsq0: u32,
    fin0: bool,
    now: u64,
    traces: &mut Vec<ApiTrace>,
) -> (r: (u32, bool))
    requires
        conn_wf(old(v)@),
    ensures
        ({
            let dr = spec_drain(
                old(v)@,
                payload_map_view(old(req_map)@),
                key,
                nsq0,
                fin0,
                now,
                old(v)@.buffer.dom().len(),
            );
            &&& final(v)@ == dr.conn
            &&& payload_map_view(final(req_map)@) == dr.map
            &&& trace_views(final(traces)@) == trace_views(old(traces)@) + dr.emitted
            &&& r.0 == dr.next_seq
            &&& r.1 == dr.finished
        }),
        conn_wf(final(v)@),
{
    let mut finished = fin0;
    let mut next_seq_no = nsq0;
    let count = v.buffer.len();
    let ghost c0 = v@;
    let ghost m0 = payload_map_view(req_map@);
    let ghost d = spec_drain(c0, m0, key, nsq0, fin0, now, count as nat);
    let ghost base = trace_views(traces@);
    proof {
        assert(c0.buffer.dom() =~= v.buffer@.dom());
        assert(count as nat == c0.buffer.dom().len());
    }
    let mut i: usize = 0;
    let mut done = false;
    while i < count && !done && !finished
        invariant
            0 <= i <= count,
            conn_wf(v@),
            done ==> !v@.buffer.contains_key(next_seq_no),
            ({
                let rest = spec_drain(
                    v@,
                    payload_map_view(req_map@),
                    key,
                    next_seq_no,
                    finished,
                    now,
                    (count - i) as nat,
                );
                &&& rest.conn == d.conn
                &&& rest.map == d.map
                &&& rest.next_seq == d.next_seq
                &&& rest.finished == d.finished
                &&& trace_views(traces@) + rest.emitted == base + d.emitted
            }),
        decreases count - i,
    {
        let ghost v_pre = v@;
        let ghost pktmap_pre = v.buffer@;
        let ghost m_pre = payload_map_view(req_map@);
        let ghost nsq_pre = next_seq_no;
        let ghost fin_pre = finished;
        let taken = v.buffer.remove(&next_seq_no);
        proof {
            lemma_pkt_remove(pktmap_pre, next_seq_no);
        }
        match taken {
            Some(item) => {
                proof {
                    assert(v_pre.buffer.contains_key(nsq_pre));
                    assert((item.data@, item.is_fin) == v_pre.buffer[nsq_pre]);
                    assert(item.data@.len() <= u32::MAX);
                }
                finished = item.is_fin;
                next_seq_no = next_seq_no.wrapping_add(item.data.len() as u32);
                proof {
                    assert(next_seq_no == wrap_add32(
                        nsq_pre,
                        v_pre.buffer[nsq_pre].0.len() as int,
                    ));
                    assert(v@ == (ConnView { buffer: v_pre.buffer.remove(nsq_pre), ..v_pre }));
                }
                analyze_data(v, item.data.as_slice());
                push_opt(
                    traces,
                    crate::http_assembly::run_payload(key, v, req_map, now),
                );
                proof {
                    let rest_new = spec_drain(
                        v@,
                        payload_map_view(req_map@),
                        key,
                        next_seq_no,
                        finished,
                        now,
                        (count - (i + 1)) as nat,
                    );
                    assert(trace_views(traces@) + rest_new.emitted =~= base + d.emitted);
                }
            },
            None => {
                done = true;
            },
        }
        i = i + 1;
    }
    proof {
        let rest = spec_drain(
            v@,
            payload_map_view(req_map@),
            key,
            next_seq_no,
            finished,
            now,
            (count - i) as nat,
        );
        assert(rest.emitted == Seq::<ApiTraceView>::empty());
        assert(trace_views(traces@) =~= base + d.emitted);
    }
    (next_seq_no, finished)
}

/// Accepts one decoded TCP segment into the connection table, reassembling
/// its connection's byte stream, framing any messages that complete, and
/// pairing them, as `spec_parse_tcp_data` describes.  Returns the traces
/// emitted by this pass, in the order their messages completed.
#[verifier::rlimit(100)]
pub fn parse_tcp_data(
    conn_map: &mut HashMap<u64, TcpConnection>,
    req_map: &mut HashMap<u64, MapPayload>,
    src_ip: IpAddrContainer,
    dst_ip: IpAddrContainer,
    tcp_header: &TcpHeader,
    data: &[u8],
    now: u64,
) -> (traces: Vec<ApiTrace>)
    requires
        data@.len() <= u32::MAX,
        conn_map_wf(conn_map_view(old(conn_map)@)),
    ensures
        ({
            let s = spec_parse_tcp_data(
                conn_map_view(old(conn_map)@),
                payload_map_view(old(req_map)@),
                src_ip,
                dst_ip,
                *tcp_header,
                data@,
                now,
            );
            &&& conn_map_view(final(conn_map)@) == s.conns
            &&& payload_map_view(final(req_map)@) == s.pairs
            &&& trace_views(traces@) == s.emitted
        }),
        conn_map_wf(conn_map_view(final(conn_map)@)),
{
    proof {
        reveal(spec_parse_tcp_data);
        reveal(crate::http_assembly::spec_run_payload);
    }
    let ghost s = spec_parse_tcp_data(
        conn_map_view(old(conn_map)@),
        payload_map_view(old(req_map)@),
        src_ip,
        dst_ip,
        *tcp_header,
        data@,
        now,
    );
    let fin_rst = tcp_header.flag_fin || tcp_header.flag_rst;
    if data.len() == 0 && !fin_rst && !tcp_header.flag_syn {
        return Vec::new();
    }
    let byte_len = data.len() as u32;
    let own_key = MapKey {
        src_ip,
        src_port: tcp_header.source_port,
        dest_ip: dst_ip,
        dest_port: tcp_header.dest_port,
    };
    let key = calculate_hash(&own_key);
    let nsq0 = if tcp_header.flag_syn {
        tcp_header.sequence_no.wrapping_add(byte_len).wrapping_add(1)
    } else {
        tcp_header.sequence_no.wrapping_add(byte_len)
    };
    proof {
        if tcp_header.flag_syn {
            assert(nsq0 == wrap_add32(tcp_header.sequence_no, data@.len() as int + 1));
        } else {
            assert(nsq0 == wrap_add32(tcp_header.sequence_no, data@.len() as int));
        }
    }
    let removed = conn_map.remove(&key);
    proof {
        lemma_cmv_remove(old(conn_map)@, key);
    }
    match removed {
        Some(mut v) => {
            proof {
                assert(conn_map_view(old(conn_map)@).contains_key(key));
                assert(v@ == conn_map_view(old(conn_map)@)[key]);
                assert(conn_wf(v@));
            }
            if v.is_dead && fin_rst {
                return Vec::new();
            }
            let mut traces: Vec<ApiTrace> = Vec::new();
            if tcp_header.sequence_no == v.next_seq {
                analyze_data(&mut v, data);
                push_opt(
                    &mut traces,
                    crate::http_assembly::run_payload(key, &mut v, req_map, now),
                );
                let dr = drain_buffered(&mut v, req_map, key, nsq0, fin_rst, now, &mut traces);
                let next_seq_no = dr.0;
                let finished = dr.1;
                v.next_seq = next_seq_no;
                v.last_seen = now;
                push_opt(
                    &mut traces,
                    crate::http_assembly::run_payload(key, &mut v, req_map, now),
                );
                if finished {
                    proof {
                        assert(conn_map_view(conn_map@) =~= s.conns);
                        assert(trace_views(traces@) =~= s.emitted);
                        assert(conn_map_wf(conn_map_view(conn_map@)));
                    }
                } else {
                    let ghost gv = v;
                    conn_map.insert(key, v);
                    proof {
                        lemma_cmv_insert(old(conn_map)@.remove(key), key, gv);
                        assert(conn_map_view(conn_map@) =~= s.conns);
                        assert(trace_views(traces@) =~= s.emitted);
                        assert(conn_map_wf(conn_map_view(conn_map@)));
                    }
                }
                traces
            } else if tcp_header.flag_syn {
                reset_connection(&mut v, 0, 0);
                v.buffer = HashMap::new();
                proof {
                    assert(v@.buffer =~= Map::<u32, (Seq<u8>, bool)>::empty());
                }
                analyze_data(&mut v, data);
                v.next_seq = nsq0;
                v.last_seen = now;
                push_opt(
                    &mut traces,
                    crate::http_assembly::run_payload(key, &mut v, req_map, now),
                );
                let ghost gv = v;
                conn_map.insert(key, v);
                proof {
                    lemma_cmv_insert(old(conn_map)@.remove(key), key, gv);
                    assert(conn_map_view(conn_map@) =~= s.conns);
                    assert(trace_views(traces@) =~= s.emitted);
                    assert(conn_map_wf(conn_map_view(conn_map@)));
                }
                traces
            } else if !v.is_dead {
                proof {
                    assert(v@.buffer.dom() =~= v.buffer@.dom());
                }
                if v.buffer.len() >= crate::MAX_BUFFERED_SEGMENTS {
                    v.buffer = HashMap::new();
                    v.payload_buffer = Vec::new();
                    v.body_content_len = None;
                    v.is_dead = true;
                    proof {
                        assert(v@.buffer =~= Map::<u32, (Seq<u8>, bool)>::empty());
                    }
                } else {
                    let pkt = TcpPacket { data: slice_to_vec(data), is_fin: fin_rst };
                    proof {
                        lemma_pkt_insert(v.buffer@, tcp_header.sequence_no, pkt);
                    }
                    v.buffer.insert(tcp_header.sequence_no, pkt);
                }
                v.last_seen = now;
                push_opt(
                    &mut traces,
                    crate::http_assembly::run_payload(key, &mut v, req_map, now),
                );
                let ghost gv = v;
                conn_map.insert(key, v);
                proof {
                    lemma_cmv_insert(old(conn_map)@.remove(key), key, gv);
                    assert(conn_map_view(conn_map@) =~= s.conns);
                    assert(trace_views(traces@) =~= s.emitted);
                    assert(conn_map_wf(conn_map_view(conn_map@)));
                }
                traces
            } else {
                v.last_seen = now;
                push_opt(
                    &mut traces,
                    crate::http_assembly::run_payload(key, &mut v, req_map, now),
                );
                let ghost gv = v;
                conn_map.insert(key, v);
                proof {
                    lemma_cmv_insert(old(conn_map)@.remove(key), key, gv);
                    assert(conn_map_view(conn_map@) =~= s.conns);
                    assert(trace_views(traces@) =~= s.emitted);
                    assert(conn_map_wf(conn_map_view(conn_map@)));
                }
                traces
            }
        },
        None => {
            let mut traces: Vec<ApiTrace> = Vec::new();
            let mut conn = TcpConnection {
                buffer: HashMap::new(),
                payload_buffer: Vec::new(),
                body_content_len: None,
                next_seq: nsq0,
                is_dead: false,
                last_seen: now,
                source_addr: src_ip,
                source_port: tcp_header.source_port,
                dest_addr: dst_ip,
                dest_port: tcp_header.dest_port,
                delivered: Ghost(Seq::empty()),
            };
            proof {
                assert(conn@.buffer =~= Map::<u32, (Seq<u8>, bool)>::empty());
                assert(conn_wf(conn@));
            }
            if tcp_header.flag_syn {
                analyze_data(&mut conn, data);
                push_opt(
                    &mut traces,
                    crate::http_assembly::run_payload(key, &mut conn, req_map, now),
                );
            } else {
                let pkt = TcpPacket { data: slice_to_vec(data), is_fin: fin_rst };
                proof {
                    lemma_pkt_insert(conn.buffer@, tcp_header.sequence_no, pkt);
                }
                conn.buffer.insert(tcp_header.sequence_no, pkt);
                proof {
                    assert(conn@.buffer =~= map![tcp_header.sequence_no => (data@, fin_rst)]);
                }
            }
            let ghost gconn = conn;
            conn_map.insert(key, conn);
            proof {
                lemma_cmv_insert(old(conn_map)@, key, gconn);
                assert(conn_map_view(conn_map@) =~= s.conns);
                assert(trace_views(traces@) =~= s.emitted);
                assert(conn_map_wf(conn_map_view(conn_map@)));
            }
            traces
        },
    }
}

// ---------------------------------------------------------------------------
// The sweeper
// ---------------------------------------------------------------------------

/// Whether an entry last seen at `last_seen` is still live at `now`: no
/// older than the idle threshold.  (A clock that moved backwards leaves the
/// entry live.)
pub open spec fn spec_is_live(last_seen: u64, now: u64) -> bool {
    now <= last_seen + crate::IDLE_TIMEOUT_SECS
}

/// Tests whether a connection entry is within the idle threshold.
fn conn_is_live(c: &TcpConnection, now: u64) -> (r: bool)
    ensures
        r == spec_is_live(c.last_seen, now),
{
    now < c.last_seen || now - c.last_seen <= crate::IDLE_TIMEOUT_SECS
}

/// Tests whether a parked half is within the idle threshold.
fn payload_is_live(p: &MapPayload, now: u64) -> (r: bool)
    ensures
        r == spec_is_live(p.last_seen, now),
{
    now < p.last_seen || now - p.last_seen <= crate::IDLE_TIMEOUT_SECS
}

/// Relies on `HashMap::retain`: it keeps exactly the entries the predicate
/// approves, their values unchanged, and drops the rest.
#[verifier::external_body]
fn retain_live_connections(m: &mut HashMap<u64, TcpConnection>, now: u64)
    ensures
        forall|k: u64| #![auto]
            final(m)@.contains_key(k) <==> (old(m)@.contains_key(k) && spec_is_live(
                old(m)@.index(k).last_seen,
                now,
            )),
        forall|k: u64| #![auto]
            final(m)@.contains_key(k) ==> final(m)@.index(k) == old(m)@.index(k),
{
    m.retain(|_k, v| conn_is_live(v, now));
}

/// Relies on `HashMap::retain`: it keeps exactly the entries the predicate
/// approves, their values unchanged, and drops the rest.
#[verifier::external_body]
fn retain_live_payloads(m: &mut HashMap<u64, MapPayload>, now: u64)
    ensures
        forall|k: u64| #![auto]
            final(m)@.contains_key(k) <==> (old(m)@.contains_key(k) && spec_is_live(
                old(m)@.index(k).last_seen,
                now,
            )),
        forall|k: u64| #![auto]
            final(m)@.contains_key(k) ==> final(m)@.index(k) == old(m)@.index(k),
{
    m.retain(|_k, v| payload_is_live(v, now));
}

/// The sweeper: evicts from both tables every entry idle longer than the
/// threshold, and nothing else.  An entry still within the threshold stays,
/// unchanged.  This is the sole source of eventual memory release for
/// abandoned or one-sided connections.
pub fn clean_map(
    conn_map: &mut HashMap<u64, TcpConnection>,
    req_map: &mut HashMap<u64, MapPayload>,
    now: u64,
)
    ensures
        forall|k: u64| #![auto]
            final(conn_map)@.contains_key(k) <==> (old(conn_map)@.contains_key(k) && spec_is_live(
                old(conn_map)@.index(k).last_seen,
                now,
            )),
        forall|k: u64| #![auto]
            final(conn_map)@.contains_key(k) ==> final(conn_map)@.index(k) == old(
                conn_map,
            )@.index(k),
        forall|k: u64| #![auto]
            final(req_map)@.contains_key(k) <==> (old(req_map)@.contains_key(k) && spec_is_live(
                old(req_map)@.index(k).last_seen,
                now,
            )),
        forall|k: u64| #![auto]
            final(req_map)@.contains_key(k) ==> final(req_map)@.index(k) == old(
                req_map,
            )@.index(k),
{
    retain_live_connections(conn_map, now);
    retain_live_payloads(req_map, now);
}

fn push_opt(out: &mut Vec<ApiTrace>, t: Option<ApiTrace>)
    ensures
        trace_views(final(out)@) == trace_views(old(out)@) + opt_view_seq(trace_opt_view(t)),
{
    let ghost tv = trace_opt_view(t);
    match t {
        Some(x) => {
            out.push(x);
        },
        None => {},
    }
    proof {
        assert(trace_views(out@) =~= trace_views(old(out)@) + opt_view_seq(tv));
    }
}

} // verus!
