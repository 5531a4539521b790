//! The laws the reassembly and pairing engine obeys, stated over the spec
//! models and proved once and for all.

use vstd::prelude::*;

verus! {

use crate::tcp_assembly::ConnView;
use crate::tcp_assembly::IpAddrContainer;
use crate::tcp_assembly::MapKey;
use crate::tcp_assembly::MapPayloadView;
use crate::tcp_assembly::TcpHeader;
use crate::tcp_assembly::TcpStep;
use crate::tcp_assembly::spec_drain;
use crate::tcp_assembly::spec_key_hash;
use crate::tcp_assembly::spec_parse_tcp_data;
use crate::tcp_assembly::wrap_add32;
use crate::http_assembly::CompletedView;
use crate::http_assembly::FrameOutcomeView;
use crate::http_assembly::PayloadType;
use crate::http_assembly::spec_complete_half;
use crate::http_assembly::spec_frame;
use crate::http_assembly::spec_run_payload;
use crate::trace::ApiTraceView;

// ---------------------------------------------------------------------------
// Pipelining
// ---------------------------------------------------------------------------

/// Pipelining: when the framer finds a complete message `m` in a
/// connection's buffer, one framing-and-pairing pass consumes exactly that
/// message's bytes — its header block followed by its body — and leaves
/// the rest of the buffer, where the next message starts, as the new
/// buffer.
pub proof fn lemma_framer_pipelining(
    c: ConnView,
    rmap: Map<u64, MapPayloadView>,
    key: u64,
    now: u64,
    m: CompletedView,
)
    requires
        spec_frame(c.payload, c.content_len).outcome == FrameOutcomeView::Complete(m),
        0 <= m.consumed <= c.payload.len(),
    ensures
        spec_run_payload(c, rmap, key, now).conn.payload == c.payload.subrange(
            m.consumed,
            c.payload.len() as int,
        ),
        c.payload == c.payload.subrange(0, m.consumed) + spec_run_payload(
            c,
            rmap,
            key,
            now,
        ).conn.payload,
{
    reveal(spec_run_payload);
    if c.payload.len() - m.consumed == 0 {
        assert(c.payload.subrange(m.consumed, c.payload.len() as int) =~= Seq::<u8>::empty());
    }
    assert(c.payload =~= c.payload.subrange(0, m.consumed) + c.payload.subrange(
        m.consumed,
        c.payload.len() as int,
    ));
}

// ---------------------------------------------------------------------------
// Pairing symmetry
// ---------------------------------------------------------------------------

/// Pairing symmetry: with both table entries free, completing the request
/// half on key hash `kx` (connection `(x, xp) -> (y, yp)`) and then the
/// response half on key hash `ky` (the mirror connection) emits exactly
/// one trace and leaves both entries removed — the table is as it began —
/// and completing them in the opposite order emits the identical trace.
pub proof fn lemma_pairing_symmetry(
    rmap: Map<u64, MapPayloadView>,
    kx: u64,
    ky: u64,
    a: CompletedView,
    b: CompletedView,
    x: IpAddrContainer,
    xp: u16,
    y: IpAddrContainer,
    yp: u16,
    t1: u64,
    t2: u64,
)
    requires
        !rmap.contains_key(kx),
        !rmap.contains_key(ky),
        kx != ky,
        a.kind == PayloadType::Request,
        b.kind == PayloadType::Response,
    ensures
        ({
            let s1 = spec_complete_half(rmap, kx, ky, a, x, xp, y, yp, t1);
            let s2 = spec_complete_half(s1.map, ky, kx, b, y, yp, x, xp, t2);
            let r1 = spec_complete_half(rmap, ky, kx, b, y, yp, x, xp, t1);
            let r2 = spec_complete_half(r1.map, kx, ky, a, x, xp, y, yp, t2);
            &&& s1.emitted is None
            &&& r1.emitted is None
            &&& s2.map == rmap
            &&& r2.map == rmap
            &&& s2.emitted == r2.emitted
        }),
{
    let s1 = spec_complete_half(rmap, kx, ky, a, x, xp, y, yp, t1);
    let s2 = spec_complete_half(s1.map, ky, kx, b, y, yp, x, xp, t2);
    let r1 = spec_complete_half(rmap, ky, kx, b, y, yp, x, xp, t1);
    let r2 = spec_complete_half(r1.map, kx, ky, a, x, xp, y, yp, t2);
    assert(s1.map.contains_key(kx));
    assert(r1.map.contains_key(ky));
    assert(s2.map =~= rmap);
    assert(r2.map =~= rmap);
}

// ---------------------------------------------------------------------------
// Idempotent cap enforcement
// ---------------------------------------------------------------------------

/// The table key of the connection a segment with header `hdr` belongs to.
pub open spec fn segment_key(
    src: IpAddrContainer,
    dst: IpAddrContainer,
    hdr: TcpHeader,
) -> u64 {
    spec_key_hash(
        MapKey { src_ip: src, src_port: hdr.source_port, dest_ip: dst, dest_port: hdr.dest_port },
    )
}

/// Cap enforcement: an out-of-order segment arriving when the buffer
/// already holds the configured limit of pending segments kills the
/// connection — it is marked dead and both its buffers dropped — and no
/// trace is emitted for the in-flight message.
pub proof fn lemma_cap_marks_dead(
    conns: Map<u64, ConnView>,
    rmap: Map<u64, MapPayloadView>,
    src: IpAddrContainer,
    dst: IpAddrContainer,
    hdr: TcpHeader,
    data: Seq<u8>,
    now: u64,
)
    requires
        !hdr.flag_syn,
        data.len() > 0,
        conns.contains_key(segment_key(src, dst, hdr)),
        ({
            let c = conns[segment_key(src, dst, hdr)];
            &&& !c.dead
            &&& hdr.sequence_no != c.next_seq
            &&& c.buffer.dom().len() >= crate::MAX_BUFFERED_SEGMENTS
        }),
    ensures
        ({
            let s = spec_parse_tcp_data(conns, rmap, src, dst, hdr, data, now);
            let key = segment_key(src, dst, hdr);
            let c = conns[key];
            &&& s.conns == conns.insert(
                key,
                ConnView {
                    buffer: Map::empty(),
                    payload: Seq::empty(),
                    content_len: None,
                    dead: true,
                    last_seen: now,
                    ..c
                },
            )
            &&& s.pairs == rmap
            &&& s.emitted == Seq::<ApiTraceView>::empty()
        }),
{
    reveal(spec_parse_tcp_data);
    reveal(spec_run_payload);
    let key = segment_key(src, dst, hdr);
    let c = conns[key];
    let c2 = ConnView {
        buffer: Map::empty(),
        payload: Seq::empty(),
        content_len: None,
        dead: true,
        last_seen: now,
        ..c
    };
    let rp = spec_run_payload(c2, rmap, key, now);
    assert(rp.conn =~= c2);
}

/// A dead connection is inert: a further segment on its key that carries
/// no SYN and no termination changes nothing but the activity stamp; no
/// byte of it is accepted and no trace is emitted.  (A dead connection's
/// reassembled buffer is empty: both kill paths clear it, and nothing is
/// accepted while dead.)  Only a new SYN, which resets the stream, or
/// FIN/RST, which removes the entry, changes a dead connection.
pub proof fn lemma_dead_connection_ignores(
    conns: Map<u64, ConnView>,
    rmap: Map<u64, MapPayloadView>,
    src: IpAddrContainer,
    dst: IpAddrContainer,
    hdr: TcpHeader,
    data: Seq<u8>,
    now: u64,
)
    requires
        !hdr.flag_syn,
        !hdr.flag_fin,
        !hdr.flag_rst,
        data.len() > 0,
        conns.contains_key(segment_key(src, dst, hdr)),
        ({
            let c = conns[segment_key(src, dst, hdr)];
            &&& c.dead
            &&& hdr.sequence_no != c.next_seq
            &&& c.payload.len() == 0
        }),
    ensures
        ({
            let s = spec_parse_tcp_data(conns, rmap, src, dst, hdr, data, now);
            let key = segment_key(src, dst, hdr);
            let c = conns[key];
            &&& s.conns == conns.insert(key, ConnView { last_seen: now, ..c })
            &&& s.pairs == rmap
            &&& s.emitted == Seq::<ApiTraceView>::empty()
        }),
{
    reveal(spec_parse_tcp_data);
    reveal(spec_run_payload);
    let key = segment_key(src, dst, hdr);
    let c = conns[key];
    let c2 = ConnView { last_seen: now, ..c };
    let rp = spec_run_payload(c2, rmap, key, now);
    assert(rp.conn =~= c2);
}

// ---------------------------------------------------------------------------
// Connection termination
// ---------------------------------------------------------------------------

/// A segment carrying FIN or RST closes the connection: whether the entry
/// was dead, or the segment lands at the expected sequence number, the
/// entry is removed from the table after processing.
pub proof fn lemma_termination_closes_connection(
    conns: Map<u64, ConnView>,
    rmap: Map<u64, MapPayloadView>,
    src: IpAddrContainer,
    dst: IpAddrContainer,
    hdr: TcpHeader,
    data: Seq<u8>,
    now: u64,
)
    requires
        hdr.flag_fin || hdr.flag_rst,
        conns.contains_key(segment_key(src, dst, hdr)),
        ({
            let c = conns[segment_key(src, dst, hdr)];
            c.dead || hdr.sequence_no == c.next_seq
        }),
    ensures
        !spec_parse_tcp_data(conns, rmap, src, dst, hdr, data, now).conns.contains_key(
            segment_key(src, dst, hdr),
        ),
{
    reveal(spec_parse_tcp_data);
}

/// A drained segment carrying FIN or RST closes the connection too: when
/// the segment at the expected sequence number is followed by a buffered
/// segment recorded as termination, accepting it drains that segment and
/// removes the entry from the table.
pub proof fn lemma_drained_termination_closes_connection(
    conns: Map<u64, ConnView>,
    rmap: Map<u64, MapPayloadView>,
    src: IpAddrContainer,
    dst: IpAddrContainer,
    hdr: TcpHeader,
    data: Seq<u8>,
    now: u64,
)
    requires
        !hdr.flag_syn,
        !hdr.flag_fin,
        !hdr.flag_rst,
        data.len() > 0,
        conns.contains_key(segment_key(src, dst, hdr)),
        ({
            let c = conns[segment_key(src, dst, hdr)];
            let nsq0 = wrap_add32(hdr.sequence_no, data.len() as int);
            &&& !c.dead
            &&& hdr.sequence_no == c.next_seq
            &&& c.buffer.dom().finite()
            &&& c.buffer.contains_key(nsq0)
            &&& c.buffer[nsq0].1
        }),
    ensures
        !spec_parse_tcp_data(conns, rmap, src, dst, hdr, data, now).conns.contains_key(
            segment_key(src, dst, hdr),
        ),
{
    reveal(spec_parse_tcp_data);
    reveal_with_fuel(spec_drain, 2);
    let key = segment_key(src, dst, hdr);
    let c = conns[key];
    let nsq0 = wrap_add32(hdr.sequence_no, data.len() as int);
    let c1 = crate::tcp_assembly::spec_analyze(c, data);
    let rp1 = spec_run_payload(c1, rmap, key, now);
    lemma_run_payload_keeps_stream(c1, rmap, key, now);
    assert(rp1.conn.buffer.dom().len() >= 1) by {
        if rp1.conn.buffer.dom().len() == 0 {
            rp1.conn.buffer.dom().lemma_len0_is_empty();
        }
    }
    let fuel = rp1.conn.buffer.dom().len();
    let dr = spec_drain(rp1.conn, rp1.map, key, nsq0, false, now, fuel);
    assert(dr.finished);
}

/// One out-of-order arrival below the cap: the segment is parked under
/// its sequence number and nothing else of the stream changes.
proof fn lemma_ooo_insert_step(
    conns: Map<u64, ConnView>,
    rmap: Map<u64, MapPayloadView>,
    src: IpAddrContainer,
    dst: IpAddrContainer,
    sport: u16,
    dport: u16,
    seqno: u32,
    data: Seq<u8>,
    now: u64,
)
    requires
        data.len() > 0,
        conns.contains_key(
            spec_key_hash(
                MapKey { src_ip: src, src_port: sport, dest_ip: dst, dest_port: dport },
            ),
        ),
        ({
            let key = spec_key_hash(
                MapKey { src_ip: src, src_port: sport, dest_ip: dst, dest_port: dport },
            );
            let c = conns[key];
            &&& !c.dead
            &&& seqno != c.next_seq
            &&& c.buffer.dom().len() < crate::MAX_BUFFERED_SEGMENTS
        }),
    ensures
        ({
            let key = spec_key_hash(
                MapKey { src_ip: src, src_port: sport, dest_ip: dst, dest_port: dport },
            );
            let c = conns[key];
            let s = spec_parse_tcp_data(
                conns,
                rmap,
                src,
                dst,
                plain_header(sport, dport, seqno),
                data,
                now,
            );
            &&& s.conns.contains_key(key)
            &&& !s.conns[key].dead
            &&& s.conns[key].next_seq == c.next_seq
            &&& s.conns[key].buffer == c.buffer.insert(seqno, (data, false))
            &&& s.conns[key].delivered == c.delivered
        }),
{
    reveal(spec_parse_tcp_data);
    let key = spec_key_hash(
        MapKey { src_ip: src, src_port: sport, dest_ip: dst, dest_port: dport },
    );
    let c = conns[key];
    let hdr = plain_header(sport, dport, seqno);
    assert(segment_key(src, dst, hdr) == key);
    let c1 = ConnView { buffer: c.buffer.insert(seqno, (data, false)), ..c };
    let c2 = ConnView { last_seen: now, ..c1 };
    lemma_run_payload_keeps_stream(c2, rmap, key, now);
}

proof fn lemma_ooo_overflow_rec(
    conns: Map<u64, ConnView>,
    rmap: Map<u64, MapPayloadView>,
    src: IpAddrContainer,
    dst: IpAddrContainer,
    sport: u16,
    dport: u16,
    arrivals: Seq<(u32, Seq<u8>)>,
    now: u64,
)
    requires
        arrivals.len() >= 1,
        forall|k: int| 0 <= k < arrivals.len() ==> (#[trigger] arrivals[k]).1.len() > 0,
        forall|i: int, j: int|
            #![auto]
            0 <= i < j < arrivals.len() ==> arrivals[i].0 != arrivals[j].0,
        conns.contains_key(
            spec_key_hash(
                MapKey { src_ip: src, src_port: sport, dest_ip: dst, dest_port: dport },
            ),
        ),
        ({
            let key = spec_key_hash(
                MapKey { src_ip: src, src_port: sport, dest_ip: dst, dest_port: dport },
            );
            let c = conns[key];
            &&& !c.dead
            &&& c.buffer.dom().finite()
            &&& c.buffer.dom().len() + arrivals.len() == crate::MAX_BUFFERED_SEGMENTS + 1
            &&& forall|k: int|
                0 <= k < arrivals.len() ==> (#[trigger] arrivals[k]).0 != c.next_seq
            &&& forall|k: int|
                0 <= k < arrivals.len() ==> !c.buffer.contains_key(
                    (#[trigger] arrivals[k]).0,
                )
        }),
    ensures
        ({
            let key = spec_key_hash(
                MapKey { src_ip: src, src_port: sport, dest_ip: dst, dest_port: dport },
            );
            let s = deliver_segments(conns, rmap, src, dst, sport, dport, arrivals, now);
            &&& s.conns.contains_key(key)
            &&& s.conns[key].dead
            &&& s.conns[key].buffer == Map::<u32, (Seq<u8>, bool)>::empty()
            &&& s.conns[key].payload == Seq::<u8>::empty()
        }),
    decreases arrivals.len(),
{
    reveal_with_fuel(deliver_segments, 2);
    let key = spec_key_hash(
        MapKey { src_ip: src, src_port: sport, dest_ip: dst, dest_port: dport },
    );
    let c = conns[key];
    let a = arrivals[0];
    let hdr = plain_header(sport, dport, a.0);
    let tail = arrivals.subrange(1, arrivals.len() as int);
    let first = spec_parse_tcp_data(conns, rmap, src, dst, hdr, a.1, now);
    if arrivals.len() == 1 {
        // the buffer already holds the cap: this insertion attempt kills
        assert(segment_key(src, dst, hdr) == key);
        lemma_cap_marks_dead(conns, rmap, src, dst, hdr, a.1, now);
        assert(tail =~= Seq::<(u32, Seq<u8>)>::empty());
    } else {
        lemma_ooo_insert_step(conns, rmap, src, dst, sport, dport, a.0, a.1, now);
        assert(first.conns[key].buffer.dom() =~= c.buffer.dom().insert(a.0));
        lemma_ooo_overflow_rec(first.conns, first.pairs, src, dst, sport, dport, tail, now);
    }
}

/// Idempotent cap enforcement, end to end: delivering one more
/// out-of-order segment than the buffer cap admits — all distinct, none
/// at the expected sequence number — on a live connection with an empty
/// out-of-order buffer leaves the connection dead with both buffers
/// empty: the final insertion attempt drops everything pending rather
/// than accepting unbounded reordering.
pub proof fn lemma_overflow_kills_connection(
    conns: Map<u64, ConnView>,
    rmap: Map<u64, MapPayloadView>,
    src: IpAddrContainer,
    dst: IpAddrContainer,
    sport: u16,
    dport: u16,
    arrivals: Seq<(u32, Seq<u8>)>,
    now: u64,
)
    requires
        arrivals.len() == crate::MAX_BUFFERED_SEGMENTS + 1,
        forall|k: int| 0 <= k < arrivals.len() ==> (#[trigger] arrivals[k]).1.len() > 0,
        forall|i: int, j: int|
            #![auto]
            0 <= i < j < arrivals.len() ==> arrivals[i].0 != arrivals[j].0,
        conns.contains_key(
            spec_key_hash(
                MapKey { src_ip: src, src_port: sport, dest_ip: dst, dest_port: dport },
            ),
        ),
        ({
            let key = spec_key_hash(
                MapKey { src_ip: src, src_port: sport, dest_ip: dst, dest_port: dport },
            );
            let c = conns[key];
            &&& !c.dead
            &&& c.buffer == Map::<u32, (Seq<u8>, bool)>::empty()
            &&& forall|k: int|
                0 <= k < arrivals.len() ==> (#[trigger] arrivals[k]).0 != c.next_seq
        }),
    ensures
        ({
            let key = spec_key_hash(
                MapKey { src_ip: src, src_port: sport, dest_ip: dst, dest_port: dport },
            );
            let s = deliver_segments(conns, rmap, src, dst, sport, dport, arrivals, now);
            &&& s.conns.contains_key(key)
            &&& s.conns[key].dead
            &&& s.conns[key].buffer == Map::<u32, (Seq<u8>, bool)>::empty()
            &&& s.conns[key].payload == Seq::<u8>::empty()
        }),
{
    let key = spec_key_hash(
        MapKey { src_ip: src, src_port: sport, dest_ip: dst, dest_port: dport },
    );
    assert(conns[key].buffer.dom() =~= Set::<u32>::empty());
    lemma_ooo_overflow_rec(conns, rmap, src, dst, sport, dport, arrivals, now);
}

// ---------------------------------------------------------------------------
// In-order reassembly
// ---------------------------------------------------------------------------

/// One framing-and-pairing pass touches only the framer's own state: the
/// delivered stream, the out-of-order buffer, the expected sequence number
/// and the endpoints stay; a live connection stays live; and the
/// reassembled buffer never grows.
proof fn lemma_run_payload_keeps_stream(
    c: ConnView,
    rmap: Map<u64, MapPayloadView>,
    key: u64,
    now: u64,
)
    ensures
        ({
            let r = spec_run_payload(c, rmap, key, now).conn;
            &&& r.delivered == c.delivered
            &&& r.buffer == c.buffer
            &&& r.next_seq == c.next_seq
            &&& r.last_seen == c.last_seen
            &&& r.src == c.src
            &&& r.sport == c.sport
            &&& r.dst == c.dst
            &&& r.dport == c.dport
            &&& (!c.dead ==> !r.dead)
            &&& r.payload.len() <= c.payload.len()
        }),
{
    reveal(spec_run_payload);
}

/// A TCP header that carries data only: no SYN, no FIN, no RST.
pub open spec fn plain_header(sport: u16, dport: u16, seq: u32) -> TcpHeader {
    TcpHeader {
        source_port: sport,
        dest_port: dport,
        sequence_no: seq,
        flag_syn: false,
        flag_fin: false,
        flag_rst: false,
    }
}

/// Accepting one in-order data segment on a live connection with an empty
/// out-of-order buffer extends the delivered stream by exactly the
/// segment's payload and advances the expected sequence number past it,
/// while the connection stays live and its buffers stay within bounds.
pub proof fn lemma_in_order_step(
    conns: Map<u64, ConnView>,
    rmap: Map<u64, MapPayloadView>,
    src: IpAddrContainer,
    dst: IpAddrContainer,
    hdr: TcpHeader,
    data: Seq<u8>,
    now: u64,
)
    requires
        !hdr.flag_syn,
        !hdr.flag_fin,
        !hdr.flag_rst,
        data.len() > 0,
        conns.contains_key(segment_key(src, dst, hdr)),
        ({
            let c = conns[segment_key(src, dst, hdr)];
            &&& !c.dead
            &&& c.next_seq == hdr.sequence_no
            &&& c.buffer == Map::<u32, (Seq<u8>, bool)>::empty()
            &&& c.payload.len() + data.len() <= crate::MAX_HTTP_SIZE
        }),
    ensures
        ({
            let s = spec_parse_tcp_data(conns, rmap, src, dst, hdr, data, now);
            let key = segment_key(src, dst, hdr);
            let c = conns[key];
            &&& s.conns.contains_key(key)
            &&& s.conns[key].delivered == c.delivered + data
            &&& s.conns[key].next_seq == wrap_add32(hdr.sequence_no, data.len() as int)
            &&& !s.conns[key].dead
            &&& s.conns[key].buffer == Map::<u32, (Seq<u8>, bool)>::empty()
            &&& s.conns[key].payload.len() <= c.payload.len() + data.len()
            &&& s.conns[key].src == c.src
            &&& s.conns[key].sport == c.sport
            &&& s.conns[key].dst == c.dst
            &&& s.conns[key].dport == c.dport
        }),
{
    reveal(spec_parse_tcp_data);
    let key = segment_key(src, dst, hdr);
    let c = conns[key];
    let c1 = crate::tcp_assembly::spec_analyze(c, data);
    let rp1 = spec_run_payload(c1, rmap, key, now);
    lemma_run_payload_keeps_stream(c1, rmap, key, now);
    let nsq0 = wrap_add32(hdr.sequence_no, data.len() as int);
    let dr = spec_drain(rp1.conn, rp1.map, key, nsq0, false, now, rp1.conn.buffer.dom().len());
    assert(rp1.conn.buffer.dom() =~= Set::<u32>::empty());
    assert(dr.conn == rp1.conn);
    let c2 = ConnView { next_seq: dr.next_seq, last_seen: now, ..dr.conn };
    lemma_run_payload_keeps_stream(c2, dr.map, key, now);
}

/// The concatenation of a sequence of segment payloads, in order.
pub open spec fn concat_segs(segs: Seq<Seq<u8>>) -> Seq<u8>
    decreases segs.len(),
{
    if segs.len() == 0 {
        Seq::empty()
    } else {
        segs[0] + concat_segs(segs.subrange(1, segs.len() as int))
    }
}

/// The total byte count of a sequence of segment payloads.
pub open spec fn total_len(segs: Seq<Seq<u8>>) -> int
    decreases segs.len(),
{
    if segs.len() == 0 {
        0
    } else {
        segs[0].len() + total_len(segs.subrange(1, segs.len() as int))
    }
}

/// The sequence number just past a run of segments starting at `start`.
pub open spec fn seq_end(start: u32, segs: Seq<Seq<u8>>) -> u32
    decreases segs.len(),
{
    if segs.len() == 0 {
        start
    } else {
        seq_end(wrap_add32(start, segs[0].len() as int), segs.subrange(1, segs.len() as int))
    }
}

/// Delivering a run of data segments one after the other, each at the
/// sequence number where the previous one ended.
pub open spec fn deliver_in_order(
    conns: Map<u64, ConnView>,
    rmap: Map<u64, MapPayloadView>,
    src: IpAddrContainer,
    dst: IpAddrContainer,
    sport: u16,
    dport: u16,
    start: u32,
    segs: Seq<Seq<u8>>,
    now: u64,
) -> TcpStep
    decreases segs.len(),
{
    if segs.len() == 0 {
        TcpStep { conns, pairs: rmap, emitted: Seq::empty() }
    } else {
        let first = spec_parse_tcp_data(
            conns,
            rmap,
            src,
            dst,
            plain_header(sport, dport, start),
            segs[0],
            now,
        );
        let rest = deliver_in_order(
            first.conns,
            first.pairs,
            src,
            dst,
            sport,
            dport,
            wrap_add32(start, segs[0].len() as int),
            segs.subrange(1, segs.len() as int),
            now,
        );
        TcpStep {
            conns: rest.conns,
            pairs: rest.pairs,
            emitted: first.emitted + rest.emitted,
        }
    }
}

/// In-order reassembly: delivering any run of non-empty data segments in
/// order, on a live connection with an empty out-of-order buffer and room
/// under the hard cap, reconstructs exactly the concatenation of their
/// payloads: the delivered stream grows by `concat_segs(segs)` and the
/// expected sequence number ends just past the last segment.
pub proof fn lemma_in_order_reassembly(
    conns: Map<u64, ConnView>,
    rmap: Map<u64, MapPayloadView>,
    src: IpAddrContainer,
    dst: IpAddrContainer,
    sport: u16,
    dport: u16,
    start: u32,
    segs: Seq<Seq<u8>>,
    now: u64,
)
    requires
        forall|i: int| 0 <= i < segs.len() ==> (#[trigger] segs[i]).len() > 0,
        conns.contains_key(
            spec_key_hash(
                MapKey { src_ip: src, src_port: sport, dest_ip: dst, dest_port: dport },
            ),
        ),
        ({
            let key = spec_key_hash(
                MapKey { src_ip: src, src_port: sport, dest_ip: dst, dest_port: dport },
            );
            let c = conns[key];
            &&& !c.dead
            &&& c.next_seq == start
            &&& c.buffer == Map::<u32, (Seq<u8>, bool)>::empty()
            &&& c.payload.len() + total_len(segs) <= crate::MAX_HTTP_SIZE
        }),
    ensures
        ({
            let key = spec_key_hash(
                MapKey { src_ip: src, src_port: sport, dest_ip: dst, dest_port: dport },
            );
            let c = conns[key];
            let s = deliver_in_order(conns, rmap, src, dst, sport, dport, start, segs, now);
            &&& s.conns.contains_key(key)
            &&& s.conns[key].delivered == c.delivered + concat_segs(segs)
            &&& s.conns[key].next_seq == seq_end(start, segs)
            &&& !s.conns[key].dead
            &&& s.conns[key].buffer == Map::<u32, (Seq<u8>, bool)>::empty()
            &&& s.conns[key].payload.len() <= c.payload.len() + total_len(segs)
        }),
    decreases segs.len(),
{
    let key = spec_key_hash(
        MapKey { src_ip: src, src_port: sport, dest_ip: dst, dest_port: dport },
    );
    let c = conns[key];
    if segs.len() == 0 {
        assert(c.delivered + concat_segs(segs) =~= c.delivered);
    } else {
        let hdr = plain_header(sport, dport, start);
        let rest_segs = segs.subrange(1, segs.len() as int);
        proof_total_len_nonneg(rest_segs);
        lemma_in_order_step(conns, rmap, src, dst, hdr, segs[0], now);
        let first = spec_parse_tcp_data(conns, rmap, src, dst, hdr, segs[0], now);
        lemma_in_order_reassembly(
            first.conns,
            first.pairs,
            src,
            dst,
            sport,
            dport,
            wrap_add32(start, segs[0].len() as int),
            rest_segs,
            now,
        );
        assert(c.delivered + segs[0] + concat_segs(rest_segs) =~= c.delivered + concat_segs(
            segs,
        ));
    }
}

/// Whether the framer stands still on every prefix of `full` under the
/// standing hint `hint`: each prefix frames as incomplete and leaves the
/// hint alone, so no message completes and no bytes are consumed.
pub open spec fn framer_quiet(full: Seq<u8>, hint: Option<usize>) -> bool {
    forall|k: int|
        0 <= k <= full.len() ==> (#[trigger] spec_frame(full.take(k), hint)).outcome
            is Incomplete && spec_frame(full.take(k), hint).hint == hint
}

/// A framing-quiet stream stays framing-quiet when truncated.
proof fn lemma_quiet_prefix(full: Seq<u8>, hint: Option<usize>, m: int)
    requires
        framer_quiet(full, hint),
        0 <= m <= full.len(),
    ensures
        framer_quiet(full.take(m), hint),
{
    assert forall|k: int| 0 <= k <= full.take(m).len() implies (#[trigger] spec_frame(
        full.take(m).take(k),
        hint,
    )).outcome is Incomplete && spec_frame(full.take(m).take(k), hint).hint == hint by {
        assert(full.take(m).take(k) =~= full.take(k));
    }
}

/// `lemma_in_order_step`, strengthened for a framing-quiet stream: the
/// reassembled buffer itself grows by exactly the segment's payload and
/// the hint stands.
proof fn lemma_in_order_step_payload(
    conns: Map<u64, ConnView>,
    rmap: Map<u64, MapPayloadView>,
    src: IpAddrContainer,
    dst: IpAddrContainer,
    hdr: TcpHeader,
    data: Seq<u8>,
    now: u64,
)
    requires
        !hdr.flag_syn,
        !hdr.flag_fin,
        !hdr.flag_rst,
        data.len() > 0,
        conns.contains_key(segment_key(src, dst, hdr)),
        ({
            let c = conns[segment_key(src, dst, hdr)];
            &&& !c.dead
            &&& c.next_seq == hdr.sequence_no
            &&& c.buffer == Map::<u32, (Seq<u8>, bool)>::empty()
            &&& c.payload.len() + data.len() <= crate::MAX_HTTP_SIZE
            &&& spec_frame(c.payload + data, c.content_len).outcome is Incomplete
            &&& spec_frame(c.payload + data, c.content_len).hint == c.content_len
        }),
    ensures
        ({
            let s = spec_parse_tcp_data(conns, rmap, src, dst, hdr, data, now);
            let key = segment_key(src, dst, hdr);
            let c = conns[key];
            &&& s.conns.contains_key(key)
            &&& s.conns[key].payload == c.payload + data
            &&& s.conns[key].content_len == c.content_len
            &&& s.conns[key].delivered == c.delivered + data
            &&& s.conns[key].next_seq == wrap_add32(hdr.sequence_no, data.len() as int)
            &&& !s.conns[key].dead
            &&& s.conns[key].buffer == Map::<u32, (Seq<u8>, bool)>::empty()
        }),
{
    reveal(spec_parse_tcp_data);
    reveal(spec_run_payload);
    lemma_in_order_step(conns, rmap, src, dst, hdr, data, now);
    let key = segment_key(src, dst, hdr);
    let c = conns[key];
    let c1 = crate::tcp_assembly::spec_analyze(c, data);
    let rp1 = spec_run_payload(c1, rmap, key, now);
    assert(rp1.conn =~= ConnView { content_len: c.content_len, ..c1 });
    assert(rp1.conn.buffer.dom() =~= Set::<u32>::empty());
    let nsq0 = wrap_add32(hdr.sequence_no, data.len() as int);
    let dr = spec_drain(rp1.conn, rp1.map, key, nsq0, false, now, rp1.conn.buffer.dom().len());
    let c2 = ConnView { next_seq: dr.next_seq, last_seen: now, ..dr.conn };
    let rp2 = spec_run_payload(c2, dr.map, key, now);
    assert(rp2.conn =~= ConnView { content_len: c.content_len, ..c2 });
}

/// In-order reassembly, stated on the reassembled buffer itself: while
/// the framer is quiet on the accumulating bytes (no prefix frames a
/// message or disturbs the hint), delivering a run of non-empty data
/// segments in order leaves `payload_buffer` equal to the old buffer
/// followed by the concatenation of their payloads.
pub proof fn lemma_in_order_reassembly_payload(
    conns: Map<u64, ConnView>,
    rmap: Map<u64, MapPayloadView>,
    src: IpAddrContainer,
    dst: IpAddrContainer,
    sport: u16,
    dport: u16,
    start: u32,
    segs: Seq<Seq<u8>>,
    now: u64,
)
    requires
        forall|i: int| 0 <= i < segs.len() ==> (#[trigger] segs[i]).len() > 0,
        conns.contains_key(
            spec_key_hash(
                MapKey { src_ip: src, src_port: sport, dest_ip: dst, dest_port: dport },
            ),
        ),
        ({
            let key = spec_key_hash(
                MapKey { src_ip: src, src_port: sport, dest_ip: dst, dest_port: dport },
            );
            let c = conns[key];
            &&& !c.dead
            &&& c.next_seq == start
            &&& c.buffer == Map::<u32, (Seq<u8>, bool)>::empty()
            &&& c.payload.len() + total_len(segs) <= crate::MAX_HTTP_SIZE
            &&& framer_quiet(c.payload + concat_segs(segs), c.content_len)
        }),
    ensures
        ({
            let key = spec_key_hash(
                MapKey { src_ip: src, src_port: sport, dest_ip: dst, dest_port: dport },
            );
            let c = conns[key];
            let s = deliver_in_order(conns, rmap, src, dst, sport, dport, start, segs, now);
            &&& s.conns.contains_key(key)
            &&& s.conns[key].payload == c.payload + concat_segs(segs)
            &&& s.conns[key].content_len == c.content_len
            &&& s.conns[key].delivered == c.delivered + concat_segs(segs)
            &&& s.conns[key].next_seq == seq_end(start, segs)
            &&& !s.conns[key].dead
            &&& s.conns[key].buffer == Map::<u32, (Seq<u8>, bool)>::empty()
        }),
    decreases segs.len(),
{
    let key = spec_key_hash(
        MapKey { src_ip: src, src_port: sport, dest_ip: dst, dest_port: dport },
    );
    let c = conns[key];
    let full = c.payload + concat_segs(segs);
    if segs.len() == 0 {
        assert(c.payload + concat_segs(segs) =~= c.payload);
        assert(c.delivered + concat_segs(segs) =~= c.delivered);
    } else {
        let hdr = plain_header(sport, dport, start);
        let rest_segs = segs.subrange(1, segs.len() as int);
        proof_total_len_nonneg(rest_segs);
        assert(segment_key(src, dst, hdr) == key);
        // the hypothesis at the first segment boundary
        let k1 = c.payload.len() + segs[0].len();
        assert(full.take(k1 as int) =~= c.payload + segs[0]);
        assert(spec_frame(c.payload + segs[0], c.content_len).outcome is Incomplete
            && spec_frame(c.payload + segs[0], c.content_len).hint == c.content_len) by {
            assert(0 <= k1 <= full.len());
        }
        lemma_in_order_step_payload(conns, rmap, src, dst, hdr, segs[0], now);
        let first = spec_parse_tcp_data(conns, rmap, src, dst, hdr, segs[0], now);
        // the accumulating byte stream is the same one step further in
        assert((c.payload + segs[0]) + concat_segs(rest_segs) =~= full);
        lemma_in_order_reassembly_payload(
            first.conns,
            first.pairs,
            src,
            dst,
            sport,
            dport,
            wrap_add32(start, segs[0].len() as int),
            rest_segs,
            now,
        );
        assert((c.payload + segs[0]) + concat_segs(rest_segs) =~= c.payload + concat_segs(segs));
        assert(c.delivered + segs[0] + concat_segs(rest_segs) =~= c.delivered + concat_segs(
            segs,
        ));
    }
}

proof fn proof_total_len_nonneg(segs: Seq<Seq<u8>>)
    ensures
        total_len(segs) >= 0,
    decreases segs.len(),
{
    if segs.len() > 0 {
        proof_total_len_nonneg(segs.subrange(1, segs.len() as int));
    }
}

proof fn lemma_total_split(segs: Seq<Seq<u8>>, i: int)
    requires
        0 <= i <= segs.len(),
    ensures
        total_len(segs) == total_len(segs.subrange(0, i)) + total_len(
            segs.subrange(i, segs.len() as int),
        ),
    decreases i,
{
    if i == 0 {
        assert(segs.subrange(0, 0) =~= Seq::<Seq<u8>>::empty());
        assert(segs.subrange(0, segs.len() as int) =~= segs);
    } else {
        let tail = segs.subrange(1, segs.len() as int);
        lemma_total_split(tail, i - 1);
        assert(segs.subrange(0, i).subrange(1, i) =~= tail.subrange(0, i - 1));
        assert(segs.subrange(0, i)[0] == segs[0]);
        assert(segs.subrange(i, segs.len() as int) =~= tail.subrange(i - 1, tail.len() as int));
    }
}

// ---------------------------------------------------------------------------
// Out-of-order reassembly
// ---------------------------------------------------------------------------

/// The stream position where segment `i` of a contiguous run starting at
/// `start` begins.
pub open spec fn boundary(start: int, segs: Seq<Seq<u8>>, i: int) -> int {
    start + total_len(segs.subrange(0, i))
}

proof fn lemma_boundary_step(start: int, segs: Seq<Seq<u8>>, i: int)
    requires
        0 <= i < segs.len(),
    ensures
        boundary(start, segs, i + 1) == boundary(start, segs, i) + segs[i].len(),
    decreases i,
{
    if i == 0 {
        assert(segs.subrange(0, 0) =~= Seq::<Seq<u8>>::empty());
        assert(segs.subrange(0, 1) =~= seq![segs[0]]);
        assert(segs.subrange(0, 1).subrange(1, 1) =~= Seq::<Seq<u8>>::empty());
    } else {
        let tail = segs.subrange(1, segs.len() as int);
        lemma_boundary_step(start + segs[0].len(), tail, i - 1);
        assert(segs.subrange(0, i).subrange(1, i) =~= tail.subrange(0, i - 1));
        assert(segs.subrange(0, i + 1).subrange(1, i + 1) =~= tail.subrange(0, i));
        assert(segs.subrange(0, i)[0] == segs[0]);
        assert(segs.subrange(0, i + 1)[0] == segs[0]);
    }
}

proof fn lemma_boundary_mono(start: int, segs: Seq<Seq<u8>>, i: int, j: int)
    requires
        forall|k: int| 0 <= k < segs.len() ==> (#[trigger] segs[k]).len() > 0,
        0 <= i < j <= segs.len(),
    ensures
        boundary(start, segs, i) < boundary(start, segs, j),
    decreases j - i,
{
    lemma_boundary_step(start, segs, i);
    if i + 1 < j {
        lemma_boundary_mono(start, segs, i + 1, j);
    }
}

proof fn lemma_boundary_at_ends(start: int, segs: Seq<Seq<u8>>)
    ensures
        boundary(start, segs, 0) == start,
        boundary(start, segs, segs.len() as int) == start + total_len(segs),
{
    assert(segs.subrange(0, 0) =~= Seq::<Seq<u8>>::empty());
    assert(segs.subrange(0, segs.len() as int) =~= segs);
}

/// Delivering a run of raw segments, each given as its sequence number and
/// payload, one after the other.
pub open spec fn deliver_segments(
    conns: Map<u64, ConnView>,
    rmap: Map<u64, MapPayloadView>,
    src: IpAddrContainer,
    dst: IpAddrContainer,
    sport: u16,
    dport: u16,
    arrivals: Seq<(u32, Seq<u8>)>,
    now: u64,
) -> TcpStep
    decreases arrivals.len(),
{
    if arrivals.len() == 0 {
        TcpStep { conns, pairs: rmap, emitted: Seq::empty() }
    } else {
        let first = spec_parse_tcp_data(
            conns,
            rmap,
            src,
            dst,
            plain_header(sport, dport, arrivals[0].0),
            arrivals[0].1,
            now,
        );
        let rest = deliver_segments(
            first.conns,
            first.pairs,
            src,
            dst,
            sport,
            dport,
            arrivals.subrange(1, arrivals.len() as int),
            now,
        );
        TcpStep { conns: rest.conns, pairs: rest.pairs, emitted: first.emitted + rest.emitted }
    }
}

/// The out-of-order buffer holding the segments of the run whose indices
/// lie in `r`, at or above `lo`, each keyed by its stream position.
pub open spec fn buf_of_set(
    start: int,
    segs: Seq<Seq<u8>>,
    r: Set<int>,
    lo: int,
    hi: int,
) -> Map<u32, (Seq<u8>, bool)>
    decreases hi - lo,
{
    if lo >= hi {
        Map::empty()
    } else {
        let rest = buf_of_set(start, segs, r, lo + 1, hi);
        if r.contains(lo) {
            rest.insert(boundary(start, segs, lo) as u32, (segs[lo], false))
        } else {
            rest
        }
    }
}

proof fn lemma_buf_of_set_props(start: int, segs: Seq<Seq<u8>>, r: Set<int>, lo: int, hi: int)
    requires
        forall|k: int| 0 <= k < segs.len() ==> (#[trigger] segs[k]).len() > 0,
        0 <= lo <= hi <= segs.len(),
        0 <= start,
        start + total_len(segs) <= u32::MAX,
    ensures
        forall|k: u32|
            buf_of_set(start, segs, r, lo, hi).contains_key(k) <==> exists|i: int| #![auto]
                lo <= i < hi && r.contains(i) && k == boundary(start, segs, i) as u32,
        forall|i: int| #![auto]
            lo <= i < hi && r.contains(i) ==> buf_of_set(start, segs, r, lo, hi)[boundary(
                start,
                segs,
                i,
            ) as u32] == (segs[i], false),
        buf_of_set(start, segs, r, lo, hi).dom().finite(),
        buf_of_set(start, segs, r, lo, hi).dom().len() <= vstd::set_lib::set_int_range(
            lo,
            hi,
        ).intersect(r).len(),
    decreases hi - lo,
{
    vstd::set_lib::lemma_int_range(lo, hi);
    if lo < hi {
        lemma_buf_of_set_props(start, segs, r, lo + 1, hi);
        vstd::set_lib::lemma_int_range(lo + 1, hi);
        vstd::set_lib::lemma_len_subset(
            vstd::set_lib::set_int_range(lo + 1, hi).intersect(r),
            vstd::set_lib::set_int_range(lo, hi).intersect(r),
        );
        assert forall|i: int| lo + 1 <= i < hi implies boundary(start, segs, i) as u32 != boundary(
            start,
            segs,
            lo,
        ) as u32 by {
            lemma_boundary_mono(start, segs, lo, i);
            lemma_boundary_mono(start, segs, i, segs.len() as int);
            proof_total_len_nonneg(segs);
            proof_total_len_nonneg(segs.subrange(0, lo));
            lemma_boundary_at_ends(start, segs);
        }
        if r.contains(lo) {
            assert(!buf_of_set(start, segs, r, lo + 1, hi).dom().contains(
                boundary(start, segs, lo) as u32,
            ));
            assert(vstd::set_lib::set_int_range(lo, hi).intersect(r) =~= vstd::set_lib::set_int_range(
                lo + 1,
                hi,
            ).intersect(r).insert(lo));
        } else {
            assert(vstd::set_lib::set_int_range(lo, hi).intersect(r) =~= vstd::set_lib::set_int_range(
                lo + 1,
                hi,
            ).intersect(r));
        }
    }
}

/// The least index at or after `p` that `r` does not hold: the frontier up
/// to which the received run is contiguous.
pub open spec fn frontier(r: Set<int>, p: int, n: int) -> int
    decreases n - p,
{
    if p < 0 || p >= n || !r.contains(p) {
        p
    } else {
        frontier(r, p + 1, n)
    }
}

proof fn lemma_frontier_props(r: Set<int>, p: int, n: int)
    requires
        0 <= p <= n,
    ensures
        p <= frontier(r, p, n) <= n,
        !(frontier(r, p, n) < n && r.contains(frontier(r, p, n))),
        forall|i: int| p <= i < frontier(r, p, n) ==> r.contains(i),
    decreases n - p,
{
    if p < n && r.contains(p) {
        lemma_frontier_props(r, p + 1, n);
    }
}

proof fn lemma_frontier_congruent(r1: Set<int>, r2: Set<int>, p: int, n: int)
    requires
        forall|i: int| p <= i < n ==> (r1.contains(i) <==> r2.contains(i)),
    ensures
        frontier(r1, p, n) == frontier(r2, p, n),
    decreases n - p,
{
    if 0 <= p < n && r1.contains(p) {
        lemma_frontier_congruent(r1, r2, p + 1, n);
    }
}

proof fn lemma_frontier_skip(r: Set<int>, p: int, q: int, n: int)
    requires
        0 <= p <= q <= n,
        forall|i: int| p <= i < q ==> r.contains(i),
    ensures
        frontier(r, p, n) == frontier(r, q, n),
    decreases q - p,
{
    if p < q {
        lemma_frontier_skip(r, p + 1, q, n);
    }
}

proof fn lemma_frontier_insert_above(r: Set<int>, a: int, p: int, n: int)
    requires
        0 <= p <= n,
        a > frontier(r, p, n) || a < p,
    ensures
        frontier(r.insert(a), p, n) == frontier(r, p, n),
    decreases n - p,
{
    if p < n && r.contains(p) {
        lemma_frontier_insert_above(r, a, p + 1, n);
    } else {
        if !(p < n && r.insert(a).contains(p)) {
        } else {
            assert(false);
        }
    }
}

proof fn lemma_frontier_monotone(r1: Set<int>, r2: Set<int>, p: int, n: int)
    requires
        0 <= p <= n,
        r1.subset_of(r2),
    ensures
        frontier(r1, p, n) <= frontier(r2, p, n),
    decreases n - p,
{
    if p < n && r1.contains(p) {
        assert(r2.contains(p));
        lemma_frontier_monotone(r1, r2, p + 1, n);
    } else {
        lemma_frontier_props(r2, p, n);
    }
}

proof fn lemma_frontier_full(r: Set<int>, p: int, n: int)
    requires
        0 <= p <= n,
        forall|i: int| p <= i < n ==> r.contains(i),
    ensures
        frontier(r, p, n) == n,
    decreases n - p,
{
    if p < n {
        lemma_frontier_full(r, p + 1, n);
    }
}

/// An element of a run of non-empty segments weighs no more than the run.
proof fn lemma_total_elem_bound(segs: Seq<Seq<u8>>, lo: int, a: int, hi: int)
    requires
        forall|k: int| 0 <= k < segs.len() ==> (#[trigger] segs[k]).len() > 0,
        0 <= lo <= a < hi <= segs.len(),
    ensures
        segs[a].len() <= total_len(segs.subrange(lo, hi)),
    decreases a - lo,
{
    let run = segs.subrange(lo, hi);
    if a == lo {
        proof_total_len_nonneg(run.subrange(1, run.len() as int));
        assert(run[0] == segs[lo]);
    } else {
        lemma_total_elem_bound(segs, lo + 1, a, hi);
        assert(run.subrange(1, run.len() as int) =~= segs.subrange(lo + 1, hi));
        assert(run[0] == segs[lo]);
    }
}

/// Draining a buffer of buffered set `r` from position `q`: the contiguous
/// received run `q..frontier(r, q, n)` is appended in order and leaves the
/// buffer, and the expected sequence number lands on the frontier.
#[verifier::rlimit(80)]
proof fn lemma_drain_set(
    c: ConnView,
    rmap: Map<u64, MapPayloadView>,
    key: u64,
    start: int,
    segs: Seq<Seq<u8>>,
    r: Set<int>,
    q: int,
    fin0: bool,
    now: u64,
    fuel: nat,
)
    requires
        forall|k: int| 0 <= k < segs.len() ==> (#[trigger] segs[k]).len() > 0,
        0 <= q <= segs.len(),
        0 <= start,
        start + total_len(segs) <= u32::MAX,
        fuel >= c.buffer.dom().len(),
        !fin0,
        !c.dead,
        c.buffer == buf_of_set(start, segs, r, q, segs.len() as int),
        c.payload.len() + total_len(segs.subrange(q, segs.len() as int)) <= crate::MAX_HTTP_SIZE,
    ensures
        ({
            let n = segs.len() as int;
            let f = frontier(r, q, n);
            let dr = spec_drain(c, rmap, key, boundary(start, segs, q) as u32, fin0, now, fuel);
            &&& dr.conn.delivered == c.delivered + concat_segs(segs.subrange(q, f))
            &&& dr.conn.buffer == buf_of_set(start, segs, r, f, n)
            &&& dr.next_seq == boundary(start, segs, f) as u32
            &&& dr.finished == (if q == f {
                fin0
            } else {
                false
            })
            &&& !dr.conn.dead
            &&& dr.conn.payload.len() <= c.payload.len() + total_len(segs.subrange(q, f))
            &&& dr.conn.next_seq == c.next_seq
            &&& dr.conn.src == c.src
            &&& dr.conn.sport == c.sport
            &&& dr.conn.dst == c.dst
            &&& dr.conn.dport == c.dport
            &&& (framer_quiet(c.payload + concat_segs(segs.subrange(q, f)), c.content_len)
                ==> dr.conn.payload == c.payload + concat_segs(segs.subrange(q, f))
                && dr.conn.content_len == c.content_len)
        }),
    decreases fuel,
{
    let n = segs.len() as int;
    let f = frontier(r, q, n);
    let nsq = boundary(start, segs, q) as u32;
    lemma_buf_of_set_props(start, segs, r, q, n);
    lemma_frontier_props(r, q, n);
    if q >= n || !r.contains(q) {
        assert(!c.buffer.contains_key(nsq)) by {
            if c.buffer.contains_key(nsq) {
                let i = choose|i: int| #![auto]
                    q <= i < n && r.contains(i) && nsq == boundary(start, segs, i) as u32;
                if i > q {
                    lemma_boundary_mono(start, segs, q, i);
                    lemma_boundary_mono(start, segs, i, n);
                    proof_total_len_nonneg(segs);
                    proof_total_len_nonneg(segs.subrange(0, q));
                    lemma_boundary_at_ends(start, segs);
                }
            }
        }
        assert(c.delivered + concat_segs(segs.subrange(q, f)) =~= c.delivered);
        assert(c.payload + concat_segs(segs.subrange(q, f)) =~= c.payload);
        proof_total_len_nonneg(segs.subrange(q, f));
    } else {
        assert(c.buffer.contains_key(nsq));
        assert(c.buffer[nsq] == (segs[q], false));
        assert(fuel > 0) by {
            if c.buffer.dom().len() == 0 {
                c.buffer.dom().lemma_len0_is_empty();
            }
        }
        let c1 = ConnView { buffer: c.buffer.remove(nsq), ..c };
        lemma_buf_of_set_props(start, segs, r, q + 1, n);
        assert(c1.buffer =~= buf_of_set(start, segs, r, q + 1, n)) by {
            assert(!buf_of_set(start, segs, r, q + 1, n).dom().contains(nsq)) by {
                if buf_of_set(start, segs, r, q + 1, n).contains_key(nsq) {
                    let i = choose|i: int| #![auto]
                        q + 1 <= i < n && r.contains(i) && nsq == boundary(start, segs, i) as u32;
                    lemma_boundary_mono(start, segs, q, i);
                    lemma_boundary_mono(start, segs, i, n);
                    proof_total_len_nonneg(segs);
                    proof_total_len_nonneg(segs.subrange(0, q));
                    lemma_boundary_at_ends(start, segs);
                }
            }
        }
        let run = segs.subrange(q, n);
        assert(run[0] == segs[q]);
        assert(run.subrange(1, run.len() as int) =~= segs.subrange(q + 1, n));
        proof_total_len_nonneg(segs.subrange(q + 1, n));
        let c2 = crate::tcp_assembly::spec_analyze(c1, segs[q]);
        let rp = spec_run_payload(c2, rmap, key, now);
        lemma_run_payload_keeps_stream(c2, rmap, key, now);
        lemma_boundary_step(start, segs, q);
        proof_total_len_nonneg(segs.subrange(0, q));
        lemma_total_split(segs, q + 1);
        assert(boundary(start, segs, q + 1) <= start + total_len(segs));
        assert(wrap_add32(nsq, segs[q].len() as int) == boundary(start, segs, q + 1) as u32);
        assert(rp.conn.buffer.dom().len() <= fuel - 1) by {
            assert(c.buffer.dom().remove(nsq) =~= c1.buffer.dom());
        }
        lemma_drain_set(rp.conn, rp.map, key, start, segs, r, q + 1, false, now, (fuel - 1) as nat);
        let seg_run = segs.subrange(q, f);
        let rest_run = segs.subrange(q + 1, f);
        assert(seg_run[0] == segs[q]);
        assert(seg_run.subrange(1, seg_run.len() as int) =~= rest_run);
        proof_total_len_nonneg(rest_run);
        assert(c.delivered + segs[q] + concat_segs(rest_run) =~= c.delivered + concat_segs(
            seg_run,
        ));
        let fullq = c.payload + concat_segs(seg_run);
        if framer_quiet(fullq, c.content_len) {
            reveal(spec_run_payload);
            let k1 = c.payload.len() + segs[q].len();
            assert(fullq.take(k1 as int) =~= c.payload + segs[q]);
            assert(0 <= k1 <= fullq.len());
            assert(c2.payload == c.payload + segs[q]);
            assert(rp.conn =~= ConnView { content_len: c.content_len, ..c2 });
            assert(rp.conn.payload + concat_segs(rest_run) =~= fullq);
            assert(framer_quiet(rp.conn.payload + concat_segs(rest_run), rp.conn.content_len));
            assert(rp.conn.payload + concat_segs(rest_run) =~= c.payload + concat_segs(seg_run));
        }
    }
}

/// The arrivals of the run's segments in the order `order` lists their
/// indices.
pub open spec fn arrivals_of(start: int, segs: Seq<Seq<u8>>, order: Seq<int>) -> Seq<
    (u32, Seq<u8>),
> {
    order.map_values(|i: int| (boundary(start, segs, i) as u32, segs[i]))
}


proof fn lemma_order_head_set(order: Seq<int>)
    requires
        order.len() > 0,
    ensures
        order.to_set() =~= order.subrange(1, order.len() as int).to_set().insert(order[0]),
{
    let tail = order.subrange(1, order.len() as int);
    assert forall|x: int| order.to_set().contains(x) implies tail.to_set().insert(
        order[0],
    ).contains(x) by {
        let k = choose|k: int| 0 <= k < order.len() && order[k] == x;
        if k > 0 {
            assert(tail[k - 1] == x);
        }
    }
    assert forall|x: int| tail.to_set().insert(order[0]).contains(x) implies order.to_set()
        .contains(x) by {
        if x == order[0] {
            assert(order[0] == x);
        } else {
            let k = choose|k: int| 0 <= k < tail.len() && tail[k] == x;
            assert(order[k + 1] == x);
        }
    }
}


/// One arrival at the frontier: the segment is appended and the drain
/// cascade advances the frontier across everything already received.

/// Sequence arithmetic of the in-order step: the delivered run splits at
/// the arrival, and what remains past the drained frontier weighs no more
/// than what remained before.
proof fn lemma_inorder_bookkeeping(segs: Seq<Seq<u8>>, a: int, fd: int, n: int)
    requires
        0 <= a < fd <= n == segs.len(),
    ensures
        forall|d: Seq<u8>|
            #![auto]
            d + segs[a] + concat_segs(segs.subrange(a + 1, fd)) == d + concat_segs(
                segs.subrange(a, fd),
            ),
        total_len(segs.subrange(a, n)) == total_len(segs.subrange(a, fd)) + total_len(
            segs.subrange(fd, n),
        ),
        total_len(segs.subrange(a, fd)) >= segs[a].len(),
{
    lemma_concat_split(segs, a, a + 1, fd);
    let seg_a = segs.subrange(a, a + 1);
    assert(seg_a =~= seq![segs[a]]);
    reveal_with_fuel(concat_segs, 2);
    assert(concat_segs(seg_a) =~= segs[a]) by {
        assert(seg_a.subrange(1, 1) =~= Seq::<Seq<u8>>::empty());
        assert(concat_segs(seq![segs[a]].subrange(1, 1)) == Seq::<u8>::empty());
        assert(seg_a[0] + Seq::<u8>::empty() =~= seg_a[0]);
    }
    assert forall|d: Seq<u8>|
        #![auto]
        d + segs[a] + concat_segs(segs.subrange(a + 1, fd)) == d + concat_segs(
            segs.subrange(a, fd),
        ) by {
        assert(d + segs[a] + concat_segs(segs.subrange(a + 1, fd)) =~= d + concat_segs(
            segs.subrange(a, fd),
        ));
    }
    lemma_total_split(segs.subrange(a, n), fd - a);
    assert(segs.subrange(a, n).subrange(0, fd - a) =~= segs.subrange(a, fd));
    assert(segs.subrange(a, n).subrange(fd - a, n - a) =~= segs.subrange(fd, n));
    lemma_total_split(segs.subrange(a, fd), 1);
    assert(segs.subrange(a, fd).subrange(0, 1) =~= seq![segs[a]]);
    proof_total_len_nonneg(segs.subrange(a, fd).subrange(1, fd - a));
    assert(seq![segs[a]].subrange(1, 1) =~= Seq::<Seq<u8>>::empty());
    assert(total_len(seq![segs[a]]) == segs[a].len()) by {
        assert(seq![segs[a]][0] == segs[a]);
    }
}

#[verifier::rlimit(100)]
#[verifier::spinoff_prover]
proof fn lemma_inorder_chain(
    c: ConnView,
    rmap: Map<u64, MapPayloadView>,
    key: u64,
    start: u32,
    segs: Seq<Seq<u8>>,
    r: Set<int>,
    a: int,
    now: u64,
)
    requires
        forall|k: int| 0 <= k < segs.len() ==> (#[trigger] segs[k]).len() > 0,
        start + total_len(segs) <= u32::MAX,
        0 <= a < segs.len(),
        !r.contains(a),
        a == frontier(r, 0, segs.len() as int),
        !c.dead,
        c.next_seq == boundary(start as int, segs, a) as u32,
        c.buffer == buf_of_set(start as int, segs, r, a, segs.len() as int),
        c.payload.len() + total_len(segs.subrange(a, segs.len() as int))
            <= crate::MAX_HTTP_SIZE,
    ensures
        ({
            let n = segs.len() as int;
            let r1 = r.insert(a);
            let f1 = frontier(r1, 0, n);
            let c1 = crate::tcp_assembly::spec_analyze(c, segs[a]);
            let rp1 = spec_run_payload(c1, rmap, key, now);
            let nn = wrap_add32(c.next_seq, segs[a].len() as int);
            let dr = spec_drain(rp1.conn, rp1.map, key, nn, false, now, rp1.conn.buffer.dom().len());
            let c2 = ConnView { next_seq: dr.next_seq, last_seen: now, ..dr.conn };
            let rp2 = spec_run_payload(c2, dr.map, key, now);
            &&& !dr.finished
            &&& !rp2.conn.dead
            &&& rp2.conn.next_seq == boundary(start as int, segs, f1) as u32
            &&& rp2.conn.buffer == buf_of_set(start as int, segs, r1, f1, n)
            &&& rp2.conn.delivered == c.delivered + concat_segs(segs.subrange(a, f1))
            &&& rp2.conn.payload.len() + total_len(segs.subrange(f1, n))
                <= crate::MAX_HTTP_SIZE
            &&& (framer_quiet(c.payload + concat_segs(segs.subrange(a, f1)), c.content_len)
                ==> rp2.conn.payload == c.payload + concat_segs(segs.subrange(a, f1))
                && rp2.conn.content_len == c.content_len)
        }),
{
    let n = segs.len() as int;
    let r1 = r.insert(a);
    lemma_frontier_props(r, 0, n);
    proof_total_len_nonneg(segs.subrange(0, a));
    lemma_boundary_at_ends(start as int, segs);
    let c1 = crate::tcp_assembly::spec_analyze(c, segs[a]);
    lemma_total_elem_bound(segs, a, a, n);
    let rp1 = spec_run_payload(c1, rmap, key, now);
    lemma_run_payload_keeps_stream(c1, rmap, key, now);
    lemma_boundary_step(start as int, segs, a);
    lemma_total_split(segs, a + 1);
    proof_total_len_nonneg(segs.subrange(a + 1, n));
    proof_total_len_nonneg(segs);
    assert(wrap_add32(c.next_seq, segs[a].len() as int) == boundary(
        start as int,
        segs,
        a + 1,
    ) as u32);
    assert(rp1.conn.buffer =~= buf_of_set(start as int, segs, r, a + 1, n));
    let run = segs.subrange(a, n);
    assert(run[0] == segs[a]);
    assert(run.subrange(1, run.len() as int) =~= segs.subrange(a + 1, n));
    lemma_drain_set(
        rp1.conn,
        rp1.map,
        key,
        start as int,
        segs,
        r,
        a + 1,
        false,
        now,
        rp1.conn.buffer.dom().len(),
    );
    let fd = frontier(r, a + 1, n);
    let dr = spec_drain(
        rp1.conn,
        rp1.map,
        key,
        boundary(start as int, segs, a + 1) as u32,
        false,
        now,
        rp1.conn.buffer.dom().len(),
    );
    let c2 = ConnView { next_seq: dr.next_seq, last_seen: now, ..dr.conn };
    lemma_run_payload_keeps_stream(c2, dr.map, key, now);
    lemma_frontier_skip(r1, 0, a + 1, n);
    lemma_frontier_congruent(r1, r, a + 1, n);
    assert(frontier(r1, 0, n) == fd);
    lemma_frontier_props(r, a + 1, n);
    let rp2 = spec_run_payload(c2, dr.map, key, now);
    lemma_buf_of_set_props(start as int, segs, r, fd, n);
    lemma_buf_of_set_props(start as int, segs, r1, fd, n);
    let bold = buf_of_set(start as int, segs, r, fd, n);
    let bnew = buf_of_set(start as int, segs, r1, fd, n);
    assert forall|k2: u32| bold.contains_key(k2) <==> bnew.contains_key(k2) by {
        if bold.contains_key(k2) {
            let i = choose|i: int| #![auto]
                fd <= i < n && r.contains(i) && k2 == boundary(start as int, segs, i) as u32;
            assert(fd <= i < n && r1.contains(i) && k2 == boundary(start as int, segs, i) as u32);
        }
        if bnew.contains_key(k2) {
            let i = choose|i: int| #![auto]
                fd <= i < n && r1.contains(i) && k2 == boundary(start as int, segs, i) as u32;
            assert(i != a);
            assert(fd <= i < n && r.contains(i) && k2 == boundary(start as int, segs, i) as u32);
        }
    }
    assert forall|k2: u32| bold.contains_key(k2) implies bold[k2] == bnew[k2] by {
        let i = choose|i: int| #![auto]
            fd <= i < n && r.contains(i) && k2 == boundary(start as int, segs, i) as u32;
        assert(r1.contains(i));
    }
    assert(rp2.conn.buffer =~= bnew);
    lemma_inorder_bookkeeping(segs, a, fd, n);
    let run2 = segs.subrange(a, fd);
    assert(run2[0] == segs[a]);
    assert(run2.subrange(1, run2.len() as int) =~= segs.subrange(a + 1, fd));
    lemma_total_split(segs, fd);
    proof_total_len_nonneg(segs.subrange(fd, n));
    let fulla = c.payload + concat_segs(run2);
    if framer_quiet(fulla, c.content_len) {
        reveal(spec_run_payload);
        let k1 = c.payload.len() + segs[a].len();
        assert(fulla.take(k1 as int) =~= c.payload + segs[a]);
        assert(0 <= k1 <= fulla.len());
        assert(c1.payload == c.payload + segs[a]);
        assert(rp1.conn =~= ConnView { content_len: c.content_len, ..c1 });
        assert(rp1.conn.payload + concat_segs(segs.subrange(a + 1, fd)) =~= fulla);
        assert(framer_quiet(
            rp1.conn.payload + concat_segs(segs.subrange(a + 1, fd)),
            rp1.conn.content_len,
        ));
        assert(dr.conn.payload =~= fulla);
        assert(fulla.take(fulla.len() as int) =~= fulla);
        assert(rp2.conn =~= ConnView { content_len: c.content_len, ..c2 });
    }
}

/// One arrival at the frontier: the segment is appended and the drain
/// cascade advances the frontier across everything already received.
#[verifier::rlimit(100)]
#[verifier::spinoff_prover]
proof fn lemma_perm_step_inorder(
    conns: Map<u64, ConnView>,
    rmap: Map<u64, MapPayloadView>,
    src: IpAddrContainer,
    dst: IpAddrContainer,
    sport: u16,
    dport: u16,
    start: u32,
    segs: Seq<Seq<u8>>,
    r: Set<int>,
    a: int,
    now: u64,
)
    requires
        forall|k: int| 0 <= k < segs.len() ==> (#[trigger] segs[k]).len() > 0,
        start + total_len(segs) <= u32::MAX,
        0 <= a < segs.len(),
        !r.contains(a),
        a == frontier(r, 0, segs.len() as int),
        conns.contains_key(
            spec_key_hash(
                MapKey { src_ip: src, src_port: sport, dest_ip: dst, dest_port: dport },
            ),
        ),
        ({
            let n = segs.len() as int;
            let key = spec_key_hash(
                MapKey { src_ip: src, src_port: sport, dest_ip: dst, dest_port: dport },
            );
            let c = conns[key];
            &&& !c.dead
            &&& c.next_seq == boundary(start as int, segs, a) as u32
            &&& c.buffer == buf_of_set(start as int, segs, r, a, n)
            &&& c.payload.len() + total_len(segs.subrange(a, n)) <= crate::MAX_HTTP_SIZE
        }),
    ensures
        ({
            let n = segs.len() as int;
            let key = spec_key_hash(
                MapKey { src_ip: src, src_port: sport, dest_ip: dst, dest_port: dport },
            );
            let c = conns[key];
            let hdr = plain_header(sport, dport, boundary(start as int, segs, a) as u32);
            let first = spec_parse_tcp_data(conns, rmap, src, dst, hdr, segs[a], now);
            let r1 = r.insert(a);
            let f1 = frontier(r1, 0, n);
            &&& first.conns.contains_key(key)
            &&& !first.conns[key].dead
            &&& first.conns[key].next_seq == boundary(start as int, segs, f1) as u32
            &&& first.conns[key].buffer == buf_of_set(start as int, segs, r1, f1, n)
            &&& first.conns[key].delivered == c.delivered + concat_segs(segs.subrange(a, f1))
            &&& first.conns[key].payload.len() + total_len(segs.subrange(f1, n))
                <= crate::MAX_HTTP_SIZE
            &&& (framer_quiet(c.payload + concat_segs(segs.subrange(a, f1)), c.content_len)
                ==> first.conns[key].payload == c.payload + concat_segs(segs.subrange(a, f1))
                && first.conns[key].content_len == c.content_len)
        }),
{
    reveal(spec_parse_tcp_data);
    let n = segs.len() as int;
    let key = spec_key_hash(
        MapKey { src_ip: src, src_port: sport, dest_ip: dst, dest_port: dport },
    );
    let c = conns[key];
    let hdr = plain_header(sport, dport, boundary(start as int, segs, a) as u32);
    assert(segment_key(src, dst, hdr) == key);
    lemma_inorder_chain(c, rmap, key, start, segs, r, a, now);
}

/// One arrival above the frontier: the segment is buffered under its
/// stream position and nothing else changes.
#[verifier::rlimit(100)]
#[verifier::spinoff_prover]
proof fn lemma_perm_step_ooo(
    conns: Map<u64, ConnView>,
    rmap: Map<u64, MapPayloadView>,
    src: IpAddrContainer,
    dst: IpAddrContainer,
    sport: u16,
    dport: u16,
    start: u32,
    segs: Seq<Seq<u8>>,
    r: Set<int>,
    a: int,
    now: u64,
)
    requires
        forall|k: int| 0 <= k < segs.len() ==> (#[trigger] segs[k]).len() > 0,
        segs.len() <= crate::MAX_BUFFERED_SEGMENTS,
        start + total_len(segs) <= u32::MAX,
        0 <= a < segs.len(),
        !r.contains(a),
        a > frontier(r, 0, segs.len() as int),
        r.finite(),
        r.subset_of(vstd::set_lib::set_int_range(0, segs.len() as int)),
        conns.contains_key(
            spec_key_hash(
                MapKey { src_ip: src, src_port: sport, dest_ip: dst, dest_port: dport },
            ),
        ),
        ({
            let n = segs.len() as int;
            let key = spec_key_hash(
                MapKey { src_ip: src, src_port: sport, dest_ip: dst, dest_port: dport },
            );
            let c = conns[key];
            let f = frontier(r, 0, n);
            &&& !c.dead
            &&& c.next_seq == boundary(start as int, segs, f) as u32
            &&& c.buffer == buf_of_set(start as int, segs, r, f, n)
        }),
    ensures
        ({
            let n = segs.len() as int;
            let key = spec_key_hash(
                MapKey { src_ip: src, src_port: sport, dest_ip: dst, dest_port: dport },
            );
            let c = conns[key];
            let f = frontier(r, 0, n);
            let hdr = plain_header(sport, dport, boundary(start as int, segs, a) as u32);
            let first = spec_parse_tcp_data(conns, rmap, src, dst, hdr, segs[a], now);
            let r1 = r.insert(a);
            &&& frontier(r1, 0, n) == f
            &&& first.conns.contains_key(key)
            &&& !first.conns[key].dead
            &&& first.conns[key].next_seq == c.next_seq
            &&& first.conns[key].buffer == buf_of_set(start as int, segs, r1, f, n)
            &&& first.conns[key].delivered == c.delivered
            &&& first.conns[key].payload.len() <= c.payload.len()
            &&& ((spec_frame(c.payload, c.content_len).outcome is Incomplete && spec_frame(
                c.payload,
                c.content_len,
            ).hint == c.content_len) ==> first.conns[key].payload == c.payload
                && first.conns[key].content_len == c.content_len)
        }),
{
    reveal(spec_parse_tcp_data);
    let n = segs.len() as int;
    let key = spec_key_hash(
        MapKey { src_ip: src, src_port: sport, dest_ip: dst, dest_port: dport },
    );
    let c = conns[key];
    let f = frontier(r, 0, n);
    let hdr = plain_header(sport, dport, boundary(start as int, segs, a) as u32);
    assert(segment_key(src, dst, hdr) == key);
    lemma_frontier_props(r, 0, n);
    proof_total_len_nonneg(segs.subrange(0, a));
    proof_total_len_nonneg(segs.subrange(0, f));
    lemma_boundary_at_ends(start as int, segs);
    proof_total_len_nonneg(segs);
    assert(hdr.sequence_no != c.next_seq) by {
        lemma_boundary_mono(start as int, segs, f, a);
        lemma_boundary_mono(start as int, segs, a, n);
    }
    lemma_buf_of_set_props(start as int, segs, r, f, n);
    vstd::set_lib::lemma_int_range(f, n);
    vstd::set_lib::lemma_int_range(0, n);
    vstd::set_lib::lemma_len_subset(vstd::set_lib::set_int_range(f, n).intersect(r), r);
    r.lemma_subset_not_in_lt(vstd::set_lib::set_int_range(0, n), a);
    assert(c.buffer.dom().len() < crate::MAX_BUFFERED_SEGMENTS);
    let r1 = r.insert(a);
    let c1 = ConnView { buffer: c.buffer.insert(hdr.sequence_no, (segs[a], false)), ..c };
    let c2 = ConnView { last_seen: now, ..c1 };
    let rp = spec_run_payload(c2, rmap, key, now);
    lemma_run_payload_keeps_stream(c2, rmap, key, now);
    lemma_frontier_insert_above(r, a, 0, n);
    let first = spec_parse_tcp_data(conns, rmap, src, dst, hdr, segs[a], now);
    lemma_buf_of_set_props(start as int, segs, r1, f, n);
    assert forall|k2: u32|
        c1.buffer.contains_key(k2) <==> buf_of_set(start as int, segs, r1, f, n).contains_key(
            k2,
        ) by {
        if k2 == hdr.sequence_no {
            assert(c1.buffer.contains_key(k2));
            assert(f <= a < n && r1.contains(a) && k2 == boundary(start as int, segs, a) as u32);
        } else {
            if c1.buffer.contains_key(k2) {
                let i = choose|i: int| #![auto]
                    f <= i < n && r.contains(i) && k2 == boundary(start as int, segs, i) as u32;
                assert(f <= i < n && r1.contains(i) && k2 == boundary(
                    start as int,
                    segs,
                    i,
                ) as u32);
            }
            if buf_of_set(start as int, segs, r1, f, n).contains_key(k2) {
                let i = choose|i: int| #![auto]
                    f <= i < n && r1.contains(i) && k2 == boundary(start as int, segs, i) as u32;
                assert(i != a);
                assert(r.contains(i));
            }
        }
    }
    assert forall|k2: u32| c1.buffer.contains_key(k2) implies c1.buffer[k2] == buf_of_set(
        start as int,
        segs,
        r1,
        f,
        n,
    )[k2] by {
        if k2 != hdr.sequence_no {
            let i = choose|i: int| #![auto]
                f <= i < n && r.contains(i) && k2 == boundary(start as int, segs, i) as u32;
            assert(r1.contains(i));
        } else {
            assert(f <= a < n && r1.contains(a) && k2 == boundary(start as int, segs, a) as u32);
        }
    }
    assert(first.conns[key].buffer =~= buf_of_set(start as int, segs, r1, f, n));
    if spec_frame(c.payload, c.content_len).outcome is Incomplete && spec_frame(
        c.payload,
        c.content_len,
    ).hint == c.content_len {
        reveal(spec_run_payload);
        assert(rp.conn =~= ConnView { content_len: c.content_len, ..c2 });
    }
}

#[verifier::rlimit(100)]
#[verifier::spinoff_prover]
proof fn lemma_permutation_phase(
    conns: Map<u64, ConnView>,
    rmap: Map<u64, MapPayloadView>,
    src: IpAddrContainer,
    dst: IpAddrContainer,
    sport: u16,
    dport: u16,
    start: u32,
    segs: Seq<Seq<u8>>,
    r: Set<int>,
    order: Seq<int>,
    now: u64,
)
    requires
        forall|k: int| 0 <= k < segs.len() ==> (#[trigger] segs[k]).len() > 0,
        segs.len() <= crate::MAX_BUFFERED_SEGMENTS,
        start + total_len(segs) <= u32::MAX,
        order.no_duplicates(),
        forall|k: int| 0 <= k < order.len() ==> 0 <= #[trigger] order[k] < segs.len(),
        r.finite(),
        r.subset_of(vstd::set_lib::set_int_range(0, segs.len() as int)),
        forall|k: int| 0 <= k < order.len() ==> !r.contains(#[trigger] order[k]),
        conns.contains_key(
            spec_key_hash(
                MapKey { src_ip: src, src_port: sport, dest_ip: dst, dest_port: dport },
            ),
        ),
        ({
            let n = segs.len() as int;
            let key = spec_key_hash(
                MapKey { src_ip: src, src_port: sport, dest_ip: dst, dest_port: dport },
            );
            let c = conns[key];
            let f = frontier(r, 0, n);
            &&& !c.dead
            &&& c.next_seq == boundary(start as int, segs, f) as u32
            &&& c.buffer == buf_of_set(start as int, segs, r, f, n)
            &&& c.payload.len() + total_len(segs.subrange(f, n)) <= crate::MAX_HTTP_SIZE
        }),
    ensures
        ({
            let n = segs.len() as int;
            let key = spec_key_hash(
                MapKey { src_ip: src, src_port: sport, dest_ip: dst, dest_port: dport },
            );
            let c = conns[key];
            let f = frontier(r, 0, n);
            let r2 = r + order.to_set();
            let f2 = frontier(r2, 0, n);
            let s = deliver_segments(
                conns,
                rmap,
                src,
                dst,
                sport,
                dport,
                arrivals_of(start as int, segs, order),
                now,
            );
            &&& s.conns.contains_key(key)
            &&& !s.conns[key].dead
            &&& s.conns[key].next_seq == boundary(start as int, segs, f2) as u32
            &&& s.conns[key].buffer == buf_of_set(start as int, segs, r2, f2, n)
            &&& s.conns[key].delivered == c.delivered + concat_segs(segs.subrange(f, f2))
            &&& s.conns[key].payload.len() + total_len(segs.subrange(f2, n))
                <= crate::MAX_HTTP_SIZE
            &&& (framer_quiet(c.payload + concat_segs(segs.subrange(f, n)), c.content_len)
                ==> s.conns[key].payload == c.payload + concat_segs(segs.subrange(f, f2))
                && s.conns[key].content_len == c.content_len)
        }),
    decreases order.len(),
{
    let n = segs.len() as int;
    let key = spec_key_hash(
        MapKey { src_ip: src, src_port: sport, dest_ip: dst, dest_port: dport },
    );
    let c = conns[key];
    let f = frontier(r, 0, n);
    lemma_frontier_props(r, 0, n);
    let arrivals = arrivals_of(start as int, segs, order);
    if order.len() == 0 {
        assert(r + order.to_set() =~= r);
        assert(c.delivered + concat_segs(segs.subrange(f, f)) =~= c.delivered);
        assert(c.payload + concat_segs(segs.subrange(f, f)) =~= c.payload);
    } else {
        let a = order[0];
        let tail = order.subrange(1, order.len() as int);
        assert(arrivals.subrange(1, arrivals.len() as int) =~= arrivals_of(
            start as int,
            segs,
            tail,
        ));
        assert(arrivals[0] == (boundary(start as int, segs, a) as u32, segs[a]));
        let hdr = plain_header(sport, dport, boundary(start as int, segs, a) as u32);
        let first = spec_parse_tcp_data(conns, rmap, src, dst, hdr, segs[a], now);
        let r1 = r.insert(a);
        assert(a >= f);
        let f1 = frontier(r1, 0, n);
        if a == f {
            lemma_perm_step_inorder(conns, rmap, src, dst, sport, dport, start, segs, r, a, now);
        } else {
            lemma_perm_step_ooo(conns, rmap, src, dst, sport, dport, start, segs, r, a, now);
            assert(c.delivered + concat_segs(segs.subrange(f, f1)) =~= c.delivered) by {
                assert(segs.subrange(f, f) =~= Seq::<Seq<u8>>::empty());
            }
        }
        lemma_permutation_phase(
            first.conns,
            first.pairs,
            src,
            dst,
            sport,
            dport,
            start,
            segs,
            r1,
            tail,
            now,
        );
        lemma_order_head_set(order);
        let r2 = r1 + tail.to_set();
        assert(r2 =~= r + order.to_set());
        let f2 = frontier(r2, 0, n);
        lemma_frontier_props(r1, 0, n);
        lemma_frontier_props(r2, 0, n);
        // the frontier never moves backwards as arrivals accumulate
        assert(f1 <= f2) by {
            assert(r1.subset_of(r2));
            lemma_frontier_monotone(r1, r2, 0, n);
        }
        lemma_concat_split(segs, f, f1, f2);
        assert(c.delivered + concat_segs(segs.subrange(f, f1)) + concat_segs(
            segs.subrange(f1, f2),
        ) =~= c.delivered + concat_segs(segs.subrange(f, f2)));
        let fullf = c.payload + concat_segs(segs.subrange(f, n));
        if framer_quiet(fullf, c.content_len) {
            lemma_concat_split(segs, f, f1, n);
            let head = c.payload + concat_segs(segs.subrange(f, f1));
            assert(fullf =~= head + concat_segs(segs.subrange(f1, n)));
            assert(fullf.take(head.len() as int) =~= head);
            lemma_quiet_prefix(fullf, c.content_len, head.len() as int);
            assert(framer_quiet(head, c.content_len));
            if a == f {
                assert(first.conns[key].payload == head);
            } else {
                assert(fullf.take(c.payload.len() as int) =~= c.payload);
                assert(spec_frame(c.payload, c.content_len).outcome is Incomplete
                    && spec_frame(c.payload, c.content_len).hint == c.content_len) by {
                    assert(0 <= c.payload.len() <= fullf.len());
                }
                assert(c.payload + concat_segs(segs.subrange(f, f1)) =~= c.payload) by {
                    assert(segs.subrange(f, f) =~= Seq::<Seq<u8>>::empty());
                }
                assert(first.conns[key].payload == head);
            }
            assert(first.conns[key].payload + concat_segs(segs.subrange(f1, n)) =~= fullf);
            assert(framer_quiet(
                first.conns[key].payload + concat_segs(segs.subrange(f1, n)),
                first.conns[key].content_len,
            ));
            assert(first.conns[key].payload + concat_segs(segs.subrange(f1, f2)) =~= c.payload
                + concat_segs(segs.subrange(f, f2)));
        }
    }
}

/// Concatenation splits at any point of a run.
proof fn lemma_concat_split(segs: Seq<Seq<u8>>, lo: int, mid: int, hi: int)
    requires
        0 <= lo <= mid <= hi <= segs.len(),
    ensures
        concat_segs(segs.subrange(lo, hi)) == concat_segs(segs.subrange(lo, mid)) + concat_segs(
            segs.subrange(mid, hi),
        ),
    decreases mid - lo,
{
    if lo == mid {
        assert(segs.subrange(lo, lo) =~= Seq::<Seq<u8>>::empty());
        assert(Seq::<u8>::empty() + concat_segs(segs.subrange(lo, hi)) =~= concat_segs(
            segs.subrange(lo, hi),
        ));
    } else {
        lemma_concat_split(segs, lo + 1, mid, hi);
        let whole = segs.subrange(lo, hi);
        let left = segs.subrange(lo, mid);
        assert(whole[0] == segs[lo]);
        assert(left[0] == segs[lo]);
        assert(whole.subrange(1, whole.len() as int) =~= segs.subrange(lo + 1, hi));
        assert(left.subrange(1, left.len() as int) =~= segs.subrange(lo + 1, mid));
        assert(segs[lo] + (concat_segs(segs.subrange(lo + 1, mid)) + concat_segs(
            segs.subrange(mid, hi),
        )) =~= (segs[lo] + concat_segs(segs.subrange(lo + 1, mid))) + concat_segs(
            segs.subrange(mid, hi),
        ));
    }
}

/// Out-of-order reassembly in full: delivering a contiguous run of
/// non-empty segments (no duplicates, no gaps) in any order — any
/// permutation `order` of their indices — reconstructs exactly the
/// concatenation of their payloads, with the out-of-order buffer drained
/// empty and the expected sequence number just past the run.
pub proof fn lemma_reassembly_any_permutation(
    conns: Map<u64, ConnView>,
    rmap: Map<u64, MapPayloadView>,
    src: IpAddrContainer,
    dst: IpAddrContainer,
    sport: u16,
    dport: u16,
    start: u32,
    segs: Seq<Seq<u8>>,
    order: Seq<int>,
    now: u64,
)
    requires
        forall|k: int| 0 <= k < segs.len() ==> (#[trigger] segs[k]).len() > 0,
        segs.len() <= crate::MAX_BUFFERED_SEGMENTS,
        start + total_len(segs) <= u32::MAX,
        order.no_duplicates(),
        order.len() == segs.len(),
        forall|k: int| 0 <= k < order.len() ==> 0 <= #[trigger] order[k] < segs.len(),
        conns.contains_key(
            spec_key_hash(
                MapKey { src_ip: src, src_port: sport, dest_ip: dst, dest_port: dport },
            ),
        ),
        ({
            let key = spec_key_hash(
                MapKey { src_ip: src, src_port: sport, dest_ip: dst, dest_port: dport },
            );
            let c = conns[key];
            &&& !c.dead
            &&& c.next_seq == start
            &&& c.buffer == Map::<u32, (Seq<u8>, bool)>::empty()
            &&& c.payload.len() + total_len(segs) <= crate::MAX_HTTP_SIZE
        }),
    ensures
        ({
            let key = spec_key_hash(
                MapKey { src_ip: src, src_port: sport, dest_ip: dst, dest_port: dport },
            );
            let c = conns[key];
            let s = deliver_segments(
                conns,
                rmap,
                src,
                dst,
                sport,
                dport,
                arrivals_of(start as int, segs, order),
                now,
            );
            &&& s.conns.contains_key(key)
            &&& s.conns[key].delivered == c.delivered + concat_segs(segs)
            &&& s.conns[key].next_seq == (start + total_len(segs)) as u32
            &&& !s.conns[key].dead
            &&& s.conns[key].buffer == Map::<u32, (Seq<u8>, bool)>::empty()
            &&& (framer_quiet(c.payload + concat_segs(segs), c.content_len)
                ==> s.conns[key].payload == c.payload + concat_segs(segs)
                && s.conns[key].content_len == c.content_len)
        }),
{
    let n = segs.len() as int;
    let key = spec_key_hash(
        MapKey { src_ip: src, src_port: sport, dest_ip: dst, dest_port: dport },
    );
    let c = conns[key];
    let r0 = Set::<int>::empty();
    proof_total_len_nonneg(segs);
    lemma_boundary_at_ends(start as int, segs);
    assert(frontier(r0, 0, n) == 0);
    assert(c.buffer =~= buf_of_set(start as int, segs, r0, 0, n)) by {
        lemma_buf_of_set_props(start as int, segs, r0, 0, n);
        assert forall|k2: u32| !buf_of_set(start as int, segs, r0, 0, n).contains_key(k2) by {}
    }
    assert(segs.subrange(0, n) =~= segs);
    lemma_permutation_phase(conns, rmap, src, dst, sport, dport, start, segs, r0, order, now);
    // every index arrived, so the received set is the whole range
    let r2 = r0 + order.to_set();
    vstd::set_lib::lemma_int_range(0, n);
    order.unique_seq_to_set();
    assert(r2 =~= order.to_set());
    assert(order.to_set().subset_of(vstd::set_lib::set_int_range(0, n))) by {
        assert forall|x: int| order.to_set().contains(x) implies vstd::set_lib::set_int_range(
            0,
            n,
        ).contains(x) by {
            let k = choose|k: int| 0 <= k < order.len() && order[k] == x;
        }
    }
    assert(r2 =~= vstd::set_lib::set_int_range(0, n)) by {
        assert forall|x: int| vstd::set_lib::set_int_range(0, n).contains(x) implies
            order.to_set().contains(x) by {
            if !order.to_set().contains(x) {
                order.to_set().lemma_subset_not_in_lt(vstd::set_lib::set_int_range(0, n), x);
            }
        }
    }
    assert forall|i: int| 0 <= i < n implies r2.contains(i) by {}
    lemma_frontier_full(r2, 0, n);
    assert(frontier(r2, 0, n) == n);
    let s = deliver_segments(
        conns,
        rmap,
        src,
        dst,
        sport,
        dport,
        arrivals_of(start as int, segs, order),
        now,
    );
    assert(s.conns[key].buffer =~= Map::<u32, (Seq<u8>, bool)>::empty()) by {
        lemma_buf_of_set_props(start as int, segs, r2, n, n);
    }
    if framer_quiet(c.payload + concat_segs(segs), c.content_len) {
        assert(c.payload + concat_segs(segs.subrange(0, n)) =~= c.payload + concat_segs(segs));
    }
}

} // verus!
