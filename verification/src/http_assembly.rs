//! Incremental HTTP/1.x message framing over a connection's reassembled
//! byte stream, and the pairing of completed request and response halves
//! into traces.

use vstd::prelude::*;

verus! {

use vstd::slice::slice_subrange;
use vstd::slice::slice_to_vec;
use crate::tcp_assembly::ConnView;
use crate::tcp_assembly::IpAddrContainer;
use crate::tcp_assembly::MapKey;
use crate::tcp_assembly::MapPayload;
use crate::tcp_assembly::MapPayloadView;
use crate::tcp_assembly::TcpConnection;
use crate::tcp_assembly::calculate_hash;
use crate::tcp_assembly::conn_key;
use crate::tcp_assembly::conn_wf;
use crate::tcp_assembly::mirror_key;
use crate::tcp_assembly::mirror_of;
use crate::tcp_assembly::payload_map_view;
use crate::tcp_assembly::reset_connection;
use crate::tcp_assembly::spec_addr_string;
use crate::tcp_assembly::spec_key_hash;
use crate::tcp_assembly::spec_reset;
use crate::trace::ApiMeta;
use crate::trace::ApiRequest;
use crate::trace::ApiResponse;
use crate::trace::ApiTrace;
use crate::trace::ApiTraceView;
use crate::trace::ApiMetaView;
use crate::trace::ApiRequestView;
use crate::trace::ApiResponseView;
use crate::trace::ApiUrl;
use crate::trace::ApiUrlView;
use crate::trace::KeyVal;
use crate::trace::KeyValView;
use crate::trace::key_vals_view;
use crate::trace::trace_opt_view;
use crate::text::bytes_to_string;
use crate::text::utf8_decode_or_empty;
use std::collections::HashMap;

// ---------------------------------------------------------------------------
// Sniffing the message kind
// ---------------------------------------------------------------------------

/// Whether a byte stream begins like an HTTP request or an HTTP response.
#[derive(Debug, Clone, Copy, PartialEq, Eq, Structural)]
pub enum PayloadType {
    Request,
    Response,
}

/// First position of `b` in `data` at or after `i`.
pub open spec fn find_byte(data: Seq<u8>, b: u8, i: int) -> Option<int>
    decreases data.len() - i,
{
    if i < 0 || i >= data.len() {
        None
    } else if data[i] == b {
        Some(i)
    } else {
        find_byte(data, b, i + 1)
    }
}

pub open spec fn is_get(d: Seq<u8>) -> bool {
    d.len() >= 4 && d[0] == 'G' as u8 && d[1] == 'E' as u8 && d[2] == 'T' as u8 && d[3] == ' ' as u8
}

pub open spec fn is_post(d: Seq<u8>) -> bool {
    d.len() >= 4 && d[0] == 'P' as u8 && d[1] == 'O' as u8 && d[2] == 'S' as u8 && d[3] == 'T' as u8
}

pub open spec fn is_head(d: Seq<u8>) -> bool {
    d.len() >= 4 && d[0] == 'H' as u8 && d[1] == 'E' as u8 && d[2] == 'A' as u8 && d[3] == 'D' as u8
}

pub open spec fn is_put(d: Seq<u8>) -> bool {
    d.len() >= 4 && d[0] == 'P' as u8 && d[1] == 'U' as u8 && d[2] == 'T' as u8 && d[3] == ' ' as u8
}

pub open spec fn is_trace(d: Seq<u8>) -> bool {
    d.len() >= 5 && d[0] == 'T' as u8 && d[1] == 'R' as u8 && d[2] == 'A' as u8 && d[3] == 'C' as u8
        && d[4] == 'E' as u8
}

pub open spec fn is_patch(d: Seq<u8>) -> bool {
    d.len() >= 5 && d[0] == 'P' as u8 && d[1] == 'A' as u8 && d[2] == 'T' as u8 && d[3] == 'C' as u8
        && d[4] == 'H' as u8
}

pub open spec fn is_delete(d: Seq<u8>) -> bool {
    d.len() >= 7 && d[0] == 'D' as u8 && d[1] == 'E' as u8 && d[2] == 'L' as u8 && d[3] == 'E' as u8
        && d[4] == 'T' as u8 && d[5] == 'E' as u8 && d[6] == ' ' as u8
}

pub open spec fn is_connect(d: Seq<u8>) -> bool {
    d.len() >= 7 && d[0] == 'C' as u8 && d[1] == 'O' as u8 && d[2] == 'N' as u8 && d[3] == 'N' as u8
        && d[4] == 'E' as u8 && d[5] == 'C' as u8 && d[6] == 'T' as u8
}

pub open spec fn is_options(d: Seq<u8>) -> bool {
    d.len() >= 7 && d[0] == 'O' as u8 && d[1] == 'P' as u8 && d[2] == 'T' as u8 && d[3] == 'I' as u8
        && d[4] == 'O' as u8 && d[5] == 'N' as u8 && d[6] == 'S' as u8
}

pub open spec fn is_http1(d: Seq<u8>) -> bool {
    d.len() >= 7 && d[0] == 'H' as u8 && d[1] == 'T' as u8 && d[2] == 'T' as u8 && d[3] == 'P' as u8
        && d[4] == '/' as u8 && d[5] == '1' as u8 && d[6] == '.' as u8
}

/// The sniffing rule: a leading method token before the first space marks a
/// request; a leading `HTTP/1.` marks a response; anything else is unknown.
pub open spec fn spec_payload_type(data: Seq<u8>) -> Option<PayloadType> {
    if data.len() < 4 {
        None
    } else {
        match find_byte(data, ' ' as u8, 0) {
            Some(i) => {
                if i == 3 || i == 4 {
                    if is_get(data) || is_post(data) || is_head(data) || is_put(data) {
                        Some(PayloadType::Request)
                    } else {
                        None
                    }
                } else if i == 5 {
                    if is_trace(data) || is_patch(data) {
                        Some(PayloadType::Request)
                    } else {
                        None
                    }
                } else if i == 6 || i == 7 {
                    if is_delete(data) || is_connect(data) || is_options(data) {
                        Some(PayloadType::Request)
                    } else {
                        None
                    }
                } else if data.len() >= 7 {
                    if is_http1(data) {
                        Some(PayloadType::Response)
                    } else {
                        None
                    }
                } else {
                    None
                }
            },
            None => None,
        }
    }
}

proof fn lemma_find_byte_skip(data: Seq<u8>, b: u8, i: int, k: int)
    requires
        0 <= i <= k <= data.len(),
        forall|j: int| i <= j < k ==> data[j] != b,
    ensures
        find_byte(data, b, i) == find_byte(data, b, k),
    decreases k - i,
{
    if i < k {
        lemma_find_byte_skip(data, b, i + 1, k);
    }
}

/// Classifies the start of a reassembled buffer as a request, a response,
/// or (not yet) neither, by the sniffing rule.
pub fn get_payload_type(data: &Vec<u8>) -> (r: Option<PayloadType>)
    ensures
        r == spec_payload_type(data@),
{
    let n = data.len();
    if n < 4 {
        return None;
    }
    let mut i: usize = 0;
    let mut found: bool = false;
    while i < n && !found
        invariant
            0 <= i <= n,
            n == data@.len(),
            forall|j: int| 0 <= j < i ==> data@[j] != ' ' as u8,
            found ==> i < n && data@[i as int] == ' ' as u8,
        decreases n - i + (if found { 0int } else { 1int }),
    {
        if data[i] == ' ' as u8 {
            found = true;
        } else {
            i = i + 1;
        }
    }
    if !found {
        proof {
            lemma_find_byte_skip(data@, ' ' as u8, 0, n as int);
        }
        return None;
    }
    proof {
        lemma_find_byte_skip(data@, ' ' as u8, 0, i as int);
        assert(find_byte(data@, ' ' as u8, 0) == Some(i as int));
    }
    let space_idx = i;
    if space_idx == 3 || space_idx == 4 {
        let req = (data[0] == 'G' as u8 && data[1] == 'E' as u8 && data[2] == 'T' as u8 && data[3]
            == ' ' as u8) || (data[0] == 'P' as u8 && data[1] == 'O' as u8 && data[2] == 'S' as u8
            && data[3] == 'T' as u8) || (data[0] == 'H' as u8 && data[1] == 'E' as u8 && data[2]
            == 'A' as u8 && data[3] == 'D' as u8) || (data[0] == 'P' as u8 && data[1] == 'U' as u8
            && data[2] == 'T' as u8 && data[3] == ' ' as u8);
        if req {
            Some(PayloadType::Request)
        } else {
            None
        }
    } else if space_idx == 5 {
        let req = (data[0] == 'T' as u8 && data[1] == 'R' as u8 && data[2] == 'A' as u8 && data[3]
            == 'C' as u8 && data[4] == 'E' as u8) || (data[0] == 'P' as u8 && data[1] == 'A' as u8
            && data[2] == 'T' as u8 && data[3] == 'C' as u8 && data[4] == 'H' as u8);
        if req {
            Some(PayloadType::Request)
        } else {
            None
        }
    } else if space_idx == 6 || space_idx == 7 {
        let req = (data[0] == 'D' as u8 && data[1] == 'E' as u8 && data[2] == 'L' as u8 && data[3]
            == 'E' as u8 && data[4] == 'T' as u8 && data[5] == 'E' as u8 && data[6] == ' ' as u8)
            || (data[0] == 'C' as u8 && data[1] == 'O' as u8 && data[2] == 'N' as u8 && data[3]
            == 'N' as u8 && data[4] == 'E' as u8 && data[5] == 'C' as u8 && data[6] == 'T' as u8)
            || (data[0] == 'O' as u8 && data[1] == 'P' as u8 && data[2] == 'T' as u8 && data[3]
            == 'I' as u8 && data[4] == 'O' as u8 && data[5] == 'N' as u8 && data[6] == 'S' as u8);
        if req {
            Some(PayloadType::Request)
        } else {
            None
        }
    } else if n >= 7 {
        let resp = data[0] == 'H' as u8 && data[1] == 'T' as u8 && data[2] == 'T' as u8 && data[3]
            == 'P' as u8 && data[4] == '/' as u8 && data[5] == '1' as u8 && data[6] == '.' as u8;
        if resp {
            Some(PayloadType::Response)
        } else {
            None
        }
    } else {
        None
    }
}

// ---------------------------------------------------------------------------
// Header-name folding and the Content-Length value
// ---------------------------------------------------------------------------

/// ASCII lower-casing of one byte.
pub open spec fn lower_byte(b: u8) -> u8 {
    if 'A' as u8 <= b <= 'Z' as u8 {
        (b + 32) as u8
    } else {
        b
    }
}

/// The header name `content-length`, as bytes.
pub open spec fn content_length_token() -> Seq<u8> {
    seq![
        'c' as u8, 'o' as u8, 'n' as u8, 't' as u8, 'e' as u8, 'n' as u8, 't' as u8, '-' as u8,
        'l' as u8, 'e' as u8, 'n' as u8, 'g' as u8, 't' as u8, 'h' as u8,
    ]
}

/// Whether a header name is `Content-Length`, compared case-insensitively.
pub open spec fn is_content_length_name(name: Seq<u8>) -> bool {
    name.len() == 14 && (forall|j: int|
        0 <= j < 14 ==> lower_byte(name[j]) == content_length_token()[j])
}

fn content_length_byte(i: usize) -> (r: u8)
    requires
        i < 14,
    ensures
        r == content_length_token()[i as int],
{
    match i {
        0 => 'c' as u8,
        1 => 'o' as u8,
        2 => 'n' as u8,
        3 => 't' as u8,
        4 => 'e' as u8,
        5 => 'n' as u8,
        6 => 't' as u8,
        7 => '-' as u8,
        8 => 'l' as u8,
        9 => 'e' as u8,
        10 => 'n' as u8,
        11 => 'g' as u8,
        12 => 't' as u8,
        _ => 'h' as u8,
    }
}

/// Tests a header name against `content-length`, case-insensitively.
pub fn is_content_length(name: &Vec<u8>) -> (r: bool)
    ensures
        r == is_content_length_name(name@),
{
    if name.len() != 14 {
        return false;
    }
    let mut i: usize = 0;
    while i < 14
        invariant
            0 <= i <= 14,
            name@.len() == 14,
            forall|j: int| 0 <= j < i ==> lower_byte(name@[j]) == content_length_token()[j],
        decreases 14 - i,
    {
        let b = name[i];
        let low = if 'A' as u8 <= b && b <= 'Z' as u8 {
            b + 32
        } else {
            b
        };
        if low != content_length_byte(i) {
            return false;
        }
        i = i + 1;
    }
    true
}

/// Whether a byte is an ASCII decimal digit.
pub open spec fn is_digit(b: u8) -> bool {
    '0' as u8 <= b <= '9' as u8
}

/// The value of a sequence of decimal digits.
pub open spec fn dec_val(s: Seq<u8>) -> int
    decreases s.len(),
{
    if s.len() == 0 {
        0
    } else {
        dec_val(s.drop_last()) * 10 + (s.last() - ('0' as u8))
    }
}

/// The digits of a decimal literal as `str::parse::<usize>` reads it: an
/// optional leading `+`, then at least one digit.
pub open spec fn dec_digits(s: Seq<u8>) -> Seq<u8> {
    if s.len() >= 1 && s[0] == '+' as u8 {
        s.subrange(1, s.len() as int)
    } else {
        s
    }
}

/// What parsing a `Content-Length` value yields: the decimal value, if the
/// bytes are a well-formed decimal literal whose value fits in `usize`.
pub open spec fn spec_parse_usize(s: Seq<u8>) -> Option<usize> {
    let digits = dec_digits(s);
    if digits.len() == 0 {
        None
    } else if exists|j: int| 0 <= j < digits.len() && !is_digit(digits[j]) {
        None
    } else if dec_val(digits) > usize::MAX {
        None
    } else {
        Some(dec_val(digits) as usize)
    }
}

proof fn lemma_dec_val_nonneg(s: Seq<u8>)
    requires
        forall|j: int| 0 <= j < s.len() ==> is_digit(s[j]),
    ensures
        dec_val(s) >= 0,
    decreases s.len(),
{
    if s.len() > 0 {
        lemma_dec_val_nonneg(s.drop_last());
    }
}

proof fn lemma_dec_val_prefix(s: Seq<u8>, i: int)
    requires
        0 <= i <= s.len(),
        forall|j: int| 0 <= j < s.len() ==> is_digit(s[j]),
    ensures
        dec_val(s.subrange(0, i)) <= dec_val(s),
    decreases s.len() - i,
{
    if i == s.len() {
        assert(s.subrange(0, i) =~= s);
    } else {
        lemma_dec_val_prefix(s, i + 1);
        let t = s.subrange(0, i + 1);
        assert(t.drop_last() =~= s.subrange(0, i));
        lemma_dec_val_nonneg(s.subrange(0, i));
        assert(dec_val(t) == dec_val(s.subrange(0, i)) * 10 + (t.last() - ('0' as u8)));
        assert(dec_val(s.subrange(0, i)) <= dec_val(t)) by {
            lemma_dec_val_nonneg(s.subrange(0, i));
        }
    }
}

/// Parses a decimal `Content-Length` value, as `str::parse::<usize>` would:
/// `None` on an empty value, a non-digit, or overflow.
pub fn parse_content_length(value: &Vec<u8>) -> (r: Option<usize>)
    ensures
        r == spec_parse_usize(value@),
{
    let n = value.len();
    let start: usize = if n >= 1 && value[0] == '+' as u8 {
        1
    } else {
        0
    };
    proof {
        if start == 1 {
            assert(dec_digits(value@) =~= value@.subrange(1, n as int));
        } else {
            assert(dec_digits(value@) =~= value@);
        }
    }
    if n == start {
        return None;
    }
    let ghost digits = dec_digits(value@);
    let mut acc: usize = 0;
    let mut i: usize = start;
    while i < n
        invariant
            start <= i <= n,
            n == value@.len(),
            digits == dec_digits(value@),
            digits.len() == n - start,
            forall|j: int| start <= j < i ==> is_digit(value@[j]),
            forall|j: int| 0 <= j < n - start ==> digits[j] == value@[j + start],
            acc == dec_val(digits.subrange(0, i - start)),
        decreases n - i,
    {
        let b = value[i];
        if b < '0' as u8 || b > '9' as u8 {
            proof {
                assert(!is_digit(digits[i - start]));
            }
            return None;
        }
        let d = (b - '0' as u8) as usize;
        let next = match acc.checked_mul(10) {
            Some(m) => m.checked_add(d),
            None => None,
        };
        proof {
            let pre = digits.subrange(0, i - start);
            let ext = digits.subrange(0, i + 1 - start);
            assert(ext.drop_last() =~= pre);
            assert(dec_val(ext) == dec_val(pre) * 10 + d);
        }
        match next {
            Some(v) => {
                acc = v;
            }
            None => {
                proof {
                    let ext = digits.subrange(0, i + 1 - start);
                    assert(forall|j: int| 0 <= j < digits.len() ==> is_digit(digits[j]) || j >= i + 1 - start);
                    if forall|j: int| 0 <= j < digits.len() ==> is_digit(digits[j]) {
                        lemma_dec_val_prefix(digits, i + 1 - start);
                        assert(dec_val(digits) >= dec_val(ext));
                        assert(dec_val(ext) > usize::MAX);
                    }
                }
                return None;
            }
        }
        i = i + 1;
    }
    proof {
        assert(digits.subrange(0, (n - start) as int) =~= digits);
    }
    Some(acc)
}

// ---------------------------------------------------------------------------
// Parsing the start-line and header block
// ---------------------------------------------------------------------------

/// One parsed header: its name and its raw value bytes.
#[derive(Debug, Clone)]
pub struct HeaderField {
    pub name: Vec<u8>,
    pub value: Vec<u8>,
}

impl View for HeaderField {
    type V = (Seq<u8>, Seq<u8>);

    open spec fn view(&self) -> (Seq<u8>, Seq<u8>) {
        (self.name@, self.value@)
    }
}

/// Spec-level contents of a parsed header list.
pub open spec fn headers_view(hs: Seq<HeaderField>) -> Seq<(Seq<u8>, Seq<u8>)> {
    hs.map_values(|h: HeaderField| h@)
}

/// The parsed start-line and headers of a request, and the byte offset at
/// which its body starts.
#[derive(Debug, Clone)]
pub struct RequestHead {
    pub method: Vec<u8>,
    pub path: Vec<u8>,
    pub headers: Vec<HeaderField>,
    pub body_offset: usize,
}

/// The parsed status-line and headers of a response, and the byte offset at
/// which its body starts.
#[derive(Debug, Clone)]
pub struct ResponseHead {
    pub status: u16,
    pub headers: Vec<HeaderField>,
    pub body_offset: usize,
}

#[verifier::ext_equal]
pub struct ReqHeadView {
    pub method: Seq<u8>,
    pub path: Seq<u8>,
    pub headers: Seq<(Seq<u8>, Seq<u8>)>,
    pub body_offset: int,
}

#[verifier::ext_equal]
pub struct RespHeadView {
    pub status: u16,
    pub headers: Seq<(Seq<u8>, Seq<u8>)>,
    pub body_offset: int,
}

impl View for RequestHead {
    type V = ReqHeadView;

    open spec fn view(&self) -> ReqHeadView {
        ReqHeadView {
            method: self.method@,
            path: self.path@,
            headers: headers_view(self.headers@),
            body_offset: self.body_offset as int,
        }
    }
}

impl View for ResponseHead {
    type V = RespHeadView;

    open spec fn view(&self) -> RespHeadView {
        RespHeadView {
            status: self.status,
            headers: headers_view(self.headers@),
            body_offset: self.body_offset as int,
        }
    }
}

/// Outcome of a request header parse.
#[derive(Debug, Clone)]
pub enum ReqParseResult {
    Complete(RequestHead),
    Partial,
    Malformed,
}

/// Outcome of a response header parse.
#[derive(Debug, Clone)]
pub enum RespParseResult {
    Complete(ResponseHead),
    Partial,
    Malformed,
}

#[verifier::ext_equal]
pub enum ReqParseView {
    Complete(ReqHeadView),
    Partial,
    Malformed,
}

#[verifier::ext_equal]
pub enum RespParseView {
    Complete(RespHeadView),
    Partial,
    Malformed,
}

impl View for ReqParseResult {
    type V = ReqParseView;

    open spec fn view(&self) -> ReqParseView {
        match self {
            ReqParseResult::Complete(h) => ReqParseView::Complete(h@),
            ReqParseResult::Partial => ReqParseView::Partial,
            ReqParseResult::Malformed => ReqParseView::Malformed,
        }
    }
}

impl View for RespParseResult {
    type V = RespParseView;

    open spec fn view(&self) -> RespParseView {
        match self {
            RespParseResult::Complete(h) => RespParseView::Complete(h@),
            RespParseResult::Partial => RespParseView::Partial,
            RespParseResult::Malformed => RespParseView::Malformed,
        }
    }
}

/// What parsing a buffer as an HTTP/1.x request start-line and header block
/// yields.  The result depends on the buffer bytes alone.
pub uninterp spec fn req_parse(b: Seq<u8>) -> ReqParseView;

/// What parsing a buffer as an HTTP/1.x response status-line and header
/// block yields.  The result depends on the buffer bytes alone.
pub uninterp spec fn resp_parse(b: Seq<u8>) -> RespParseView;

/// Relies on `httparse::Request::parse` with room for 64 headers: the
/// outcome is a function of the buffer bytes alone; on success the returned
/// offset is the byte offset of the body within the buffer, and re-parsing
/// just the header block gives the same head, since the parser does not
/// look past the empty line that ends the block.
#[verifier::external_body]
pub fn parse_http_request(buf: &[u8]) -> (r: ReqParseResult)
    ensures
        r@ == req_parse(buf@),
        match r@ {
            ReqParseView::Complete(h) => 0 <= h.body_offset <= buf@.len() && req_parse(
                buf@.subrange(0, h.body_offset),
            ) == ReqParseView::Complete(h),
            _ => true,
        },
{
    let mut headers = [httparse::EMPTY_HEADER; 64];
    let mut req = httparse::Request::new(&mut headers);
    match req.parse(buf) {
        Ok(httparse::Status::Complete(n)) => ReqParseResult::Complete(RequestHead {
            method: req.method.unwrap_or("").as_bytes().to_vec(),
            path: req.path.unwrap_or("").as_bytes().to_vec(),
            headers: req.headers.iter().map(
                |h| HeaderField { name: h.name.as_bytes().to_vec(), value: h.value.to_vec() },
            ).collect(),
            body_offset: n,
        }),
        Ok(httparse::Status::Partial) => ReqParseResult::Partial,
        Err(_) => ReqParseResult::Malformed,
    }
}

/// Relies on `httparse::Response::parse` with room for 64 headers: the
/// outcome is a function of the buffer bytes alone; on success the returned
/// offset is the byte offset of the body within the buffer, and re-parsing
/// just the header block gives the same head.
#[verifier::external_body]
pub fn parse_http_response(buf: &[u8]) -> (r: RespParseResult)
    ensures
        r@ == resp_parse(buf@),
        match r@ {
            RespParseView::Complete(h) => 0 <= h.body_offset <= buf@.len() && resp_parse(
                buf@.subrange(0, h.body_offset),
            ) == RespParseView::Complete(h),
            _ => true,
        },
{
    let mut headers = [httparse::EMPTY_HEADER; 64];
    let mut resp = httparse::Response::new(&mut headers);
    match resp.parse(buf) {
        Ok(httparse::Status::Complete(n)) => RespParseResult::Complete(ResponseHead {
            status: resp.code.unwrap_or(0),
            headers: resp.headers.iter().map(
                |h| HeaderField { name: h.name.as_bytes().to_vec(), value: h.value.to_vec() },
            ).collect(),
            body_offset: n,
        }),
        Ok(httparse::Status::Partial) => RespParseResult::Partial,
        Err(_) => RespParseResult::Malformed,
    }
}

// ---------------------------------------------------------------------------
// The framer
// ---------------------------------------------------------------------------

/// The `Content-Length` value of the first header so named, if any header
/// is so named and its value is a well-formed decimal literal.
pub open spec fn spec_find_content_length(headers: Seq<(Seq<u8>, Seq<u8>)>) -> Option<usize>
    decreases headers.len(),
{
    if headers.len() == 0 {
        None
    } else if is_content_length_name(headers[0].0) {
        spec_parse_usize(headers[0].1)
    } else {
        spec_find_content_length(headers.subrange(1, headers.len() as int))
    }
}

proof fn lemma_fcl_skip(headers: Seq<(Seq<u8>, Seq<u8>)>, i: int)
    requires
        0 <= i <= headers.len(),
        forall|j: int| 0 <= j < i ==> !is_content_length_name(#[trigger] headers[j].0),
    ensures
        spec_find_content_length(headers) == spec_find_content_length(
            headers.subrange(i, headers.len() as int),
        ),
    decreases i,
{
    if i > 0 {
        let rest = headers.subrange(1, headers.len() as int);
        assert(rest.subrange(i - 1, rest.len() as int) =~= headers.subrange(
            i,
            headers.len() as int,
        ));
        lemma_fcl_skip(rest, i - 1);
    } else {
        assert(headers.subrange(0, headers.len() as int) =~= headers);
    }
}

/// Finds the body length stated by the first `Content-Length` header.
pub fn find_content_length(headers: &Vec<HeaderField>) -> (r: Option<usize>)
    ensures
        r == spec_find_content_length(headers_view(headers@)),
{
    let n = headers.len();
    let ghost hv = headers_view(headers@);
    let mut i: usize = 0;
    while i < n
        invariant
            0 <= i <= n,
            n == headers@.len(),
            hv == headers_view(headers@),
            hv.len() == n,
            forall|j: int| 0 <= j < n ==> hv[j] == headers@[j]@,
            forall|j: int| 0 <= j < i ==> !is_content_length_name(#[trigger] hv[j].0),
        decreases n - i,
    {
        if is_content_length(&headers[i].name) {
            let r = parse_content_length(&headers[i].value);
            proof {
                lemma_fcl_skip(hv, i as int);
                let rest = hv.subrange(i as int, n as int);
                assert(rest[0] == hv[i as int]);
                assert(is_content_length_name(rest[0].0));
            }
            return r;
        }
        i = i + 1;
    }
    proof {
        lemma_fcl_skip(hv, n as int);
    }
    None
}

/// One framed message: its kind, its header-block bytes, its body bytes,
/// and how many bytes of the reassembled buffer it occupied.
#[derive(Debug, Clone)]
pub struct CompletedMessage {
    pub kind: PayloadType,
    pub header_bytes: Vec<u8>,
    pub body_bytes: Vec<u8>,
    pub bytes_consumed: usize,
}

/// Outcome of one framing attempt over the reassembled buffer.
#[derive(Debug, Clone)]
pub enum MessageOutcome {
    Incomplete,
    Malformed,
    Complete(CompletedMessage),
}

#[verifier::ext_equal]
pub struct CompletedView {
    pub kind: PayloadType,
    pub header: Seq<u8>,
    pub body: Seq<u8>,
    pub consumed: int,
}

#[verifier::ext_equal]
pub enum FrameOutcomeView {
    Incomplete,
    Malformed,
    Complete(CompletedView),
}

impl View for CompletedMessage {
    type V = CompletedView;

    open spec fn view(&self) -> CompletedView {
        CompletedView {
            kind: self.kind,
            header: self.header_bytes@,
            body: self.body_bytes@,
            consumed: self.bytes_consumed as int,
        }
    }
}

impl View for MessageOutcome {
    type V = FrameOutcomeView;

    open spec fn view(&self) -> FrameOutcomeView {
        match self {
            MessageOutcome::Incomplete => FrameOutcomeView::Incomplete,
            MessageOutcome::Malformed => FrameOutcomeView::Malformed,
            MessageOutcome::Complete(m) => FrameOutcomeView::Complete(m@),
        }
    }
}

/// Result of one framing step: the outcome, and the body-length hint as it
/// stands afterwards.
#[verifier::ext_equal]
pub struct FrameStep {
    pub outcome: FrameOutcomeView,
    pub hint: Option<usize>,
}

/// Framing once the header block has parsed: learn the body length from
/// `Content-Length` if it is not yet known, then wait for the full body, or
/// complete the message.
pub open spec fn spec_frame_complete(
    payload: Seq<u8>,
    hint: Option<usize>,
    kind: PayloadType,
    headers: Seq<(Seq<u8>, Seq<u8>)>,
    body_offset: int,
) -> FrameStep {
    let hint2 = match hint {
        Some(len) => Some(len),
        None => spec_find_content_length(headers),
    };
    match hint2 {
        Some(len) => {
            if payload.len() - body_offset < len {
                FrameStep { outcome: FrameOutcomeView::Incomplete, hint: hint2 }
            } else {
                let consumed = if body_offset + len <= payload.len() {
                    body_offset + len
                } else {
                    payload.len() as int
                };
                FrameStep {
                    outcome: FrameOutcomeView::Complete(
                        CompletedView {
                            kind,
                            header: payload.subrange(0, body_offset),
                            body: payload.subrange(body_offset, consumed),
                            consumed,
                        },
                    ),
                    hint: hint2,
                }
            }
        },
        None => FrameStep {
            outcome: FrameOutcomeView::Complete(
                CompletedView {
                    kind,
                    header: payload.subrange(0, body_offset),
                    body: Seq::empty(),
                    consumed: body_offset,
                },
            ),
            hint: None,
        },
    }
}

/// One framing attempt over the reassembled buffer `payload` with the
/// standing body-length hint `hint`: sniff the kind, parse the header
/// block, and decide among incomplete, malformed, and complete.
pub open spec fn spec_frame(payload: Seq<u8>, hint: Option<usize>) -> FrameStep {
    match spec_payload_type(payload) {
        None => FrameStep { outcome: FrameOutcomeView::Incomplete, hint },
        Some(PayloadType::Request) => match req_parse(payload) {
            ReqParseView::Partial => FrameStep { outcome: FrameOutcomeView::Incomplete, hint },
            ReqParseView::Malformed => FrameStep { outcome: FrameOutcomeView::Malformed, hint },
            ReqParseView::Complete(h) => spec_frame_complete(
                payload,
                hint,
                PayloadType::Request,
                h.headers,
                h.body_offset,
            ),
        },
        Some(PayloadType::Response) => match resp_parse(payload) {
            RespParseView::Partial => FrameStep { outcome: FrameOutcomeView::Incomplete, hint },
            RespParseView::Malformed => FrameStep { outcome: FrameOutcomeView::Malformed, hint },
            RespParseView::Complete(h) => spec_frame_complete(
                payload,
                hint,
                PayloadType::Response,
                h.headers,
                h.body_offset,
            ),
        },
    }
}

/// Copies `v[a..b]` out as a fresh vector.
fn vec_range(v: &Vec<u8>, a: usize, b: usize) -> (out: Vec<u8>)
    requires
        a <= b <= v@.len(),
    ensures
        out@ == v@.subrange(a as int, b as int),
{
    slice_to_vec(slice_subrange(v.as_slice(), a, b))
}

fn frame_complete_exec(
    conn: &mut TcpConnection,
    kind: PayloadType,
    headers: &Vec<HeaderField>,
    body_offset: usize,
) -> (r: MessageOutcome)
    requires
        conn_wf(old(conn)@),
        body_offset <= old(conn).payload_buffer@.len(),
    ensures
        r@ == spec_frame_complete(
            old(conn)@.payload,
            old(conn)@.content_len,
            kind,
            headers_view(headers@),
            body_offset as int,
        ).outcome,
        match r@ {
            FrameOutcomeView::Complete(m) => 0 <= m.consumed <= old(conn)@.payload.len(),
            _ => true,
        },
        final(conn)@ == (ConnView {
            content_len: spec_frame_complete(
                old(conn)@.payload,
                old(conn)@.content_len,
                kind,
                headers_view(headers@),
                body_offset as int,
            ).hint,
            ..old(conn)@
        }),
        conn_wf(final(conn)@),
{
    if conn.body_content_len.is_none() {
        conn.body_content_len = find_content_length(headers);
    }
    match conn.body_content_len {
        Some(len) => {
            if conn.payload_buffer.len() - body_offset < len {
                MessageOutcome::Incomplete
            } else {
                let consumed = body_offset + len;
                let header_bytes = vec_range(&conn.payload_buffer, 0, body_offset);
                let body_bytes = vec_range(&conn.payload_buffer, body_offset, consumed);
                MessageOutcome::Complete(
                    CompletedMessage { kind, header_bytes, body_bytes, bytes_consumed: consumed },
                )
            }
        },
        None => {
            let header_bytes = vec_range(&conn.payload_buffer, 0, body_offset);
            MessageOutcome::Complete(
                CompletedMessage {
                    kind,
                    header_bytes,
                    body_bytes: Vec::new(),
                    bytes_consumed: body_offset,
                },
            )
        },
    }
}

/// One framing attempt over the connection's reassembled buffer, as
/// `spec_frame` describes it.  The only state it touches is the
/// body-length hint, which it records once learned; consuming a completed
/// message from the buffer is the caller's step.
pub fn try_frame(conn: &mut TcpConnection) -> (r: MessageOutcome)
    requires
        conn_wf(old(conn)@),
    ensures
        r@ == spec_frame(old(conn)@.payload, old(conn)@.content_len).outcome,
        match r@ {
            FrameOutcomeView::Complete(m) => 0 <= m.consumed <= old(conn)@.payload.len(),
            _ => true,
        },
        final(conn)@ == (ConnView {
            content_len: spec_frame(old(conn)@.payload, old(conn)@.content_len).hint,
            ..old(conn)@
        }),
        conn_wf(final(conn)@),
{
    let t = get_payload_type(&conn.payload_buffer);
    match t {
        None => {
            proof {
                assert(final(conn)@ =~= (ConnView {
                    content_len: spec_frame(old(conn)@.payload, old(conn)@.content_len).hint,
                    ..old(conn)@
                }));
            }
            MessageOutcome::Incomplete
        },
        Some(PayloadType::Request) => {
            let parsed = parse_http_request(conn.payload_buffer.as_slice());
            match parsed {
                ReqParseResult::Partial => MessageOutcome::Incomplete,
                ReqParseResult::Malformed => MessageOutcome::Malformed,
                ReqParseResult::Complete(h) => frame_complete_exec(
                    conn,
                    PayloadType::Request,
                    &h.headers,
                    h.body_offset,
                ),
            }
        },
        Some(PayloadType::Response) => {
            let parsed = parse_http_response(conn.payload_buffer.as_slice());
            match parsed {
                RespParseResult::Partial => MessageOutcome::Incomplete,
                RespParseResult::Malformed => MessageOutcome::Malformed,
                RespParseResult::Complete(h) => frame_complete_exec(
                    conn,
                    PayloadType::Response,
                    &h.headers,
                    h.body_offset,
                ),
            }
        },
    }
}

// ---------------------------------------------------------------------------
// Building a trace from two completed halves
// ---------------------------------------------------------------------------

/// What decoding a query string as `application/x-www-form-urlencoded`
/// yields: the name/value pairs, percent- and plus-decoded.  The result
/// depends on the query bytes alone.
pub uninterp spec fn form_decode(q: Seq<u8>) -> Seq<(Seq<char>, Seq<char>)>;

/// The decoded pairs of a query string, as trace parameters.
pub open spec fn form_params_view(pairs: Seq<(Seq<char>, Seq<char>)>) -> Seq<KeyValView> {
    pairs.map_values(|p: (Seq<char>, Seq<char>)| KeyValView { name: p.0, value: p.1 })
}

/// Relies on `url::form_urlencoded::parse`: the pairs depend on the query
/// bytes alone, and an empty query has none.
#[verifier::external_body]
fn parse_query_params(q: &[u8]) -> (r: Vec<KeyVal>)
    ensures
        key_vals_view(r@) == form_params_view(form_decode(q@)),
        q@.len() == 0 ==> r@.len() == 0,
{
    url::form_urlencoded::parse(q).map(
        |e| KeyVal { name: e.0.to_string(), value: e.1.to_string() },
    ).collect()
}

/// Whether a header is the `Host` header, written either capitalized or in
/// lower case (the two forms the trace builder recognizes).
pub open spec fn is_host_name(name: Seq<u8>) -> bool {
    name.len() == 4 && (name[0] == 'H' as u8 || name[0] == 'h' as u8) && name[1] == 'o' as u8
        && name[2] == 's' as u8 && name[3] == 't' as u8
}

/// The value of the last `Host` header, decoded; empty if there is none.
pub open spec fn spec_host_of(headers: Seq<(Seq<u8>, Seq<u8>)>) -> Seq<char>
    decreases headers.len(),
{
    if headers.len() == 0 {
        Seq::empty()
    } else if is_host_name(headers.last().0) {
        utf8_decode_or_empty(headers.last().1)
    } else {
        spec_host_of(headers.drop_last())
    }
}

/// Parsed headers as trace name/value pairs, decoded.
pub open spec fn spec_headers_kv(headers: Seq<(Seq<u8>, Seq<u8>)>) -> Seq<KeyValView> {
    headers.map_values(
        |h: (Seq<u8>, Seq<u8>)| KeyValView {
            name: utf8_decode_or_empty(h.0),
            value: utf8_decode_or_empty(h.1),
        },
    )
}

/// The path part of a request target: everything before the first `?`.
pub open spec fn spec_url_path(path: Seq<u8>) -> Seq<char> {
    match find_byte(path, '?' as u8, 0) {
        Some(i) => utf8_decode_or_empty(path.subrange(0, i)),
        None => utf8_decode_or_empty(path),
    }
}

/// The decoded query parameters of a request target: everything after the
/// first `?`, form-decoded; none if there is no `?`.
pub open spec fn spec_url_params(path: Seq<u8>) -> Seq<KeyValView> {
    match find_byte(path, '?' as u8, 0) {
        Some(i) => form_params_view(form_decode(path.subrange(i + 1, path.len() as int))),
        None => Seq::empty(),
    }
}

/// The trace built from a parsed request and response pair: the request's
/// method, URL (host from the last `Host` header, path and query split at
/// the first `?`), headers and body; the response's status, headers and
/// body; and the endpoint metadata oriented from the requester.
#[verifier::opaque]
pub open spec fn spec_generate_trace(
    req: ReqHeadView,
    resp: RespHeadView,
    req_body: Seq<u8>,
    resp_body: Seq<u8>,
    src: IpAddrContainer,
    sport: u16,
    dst: IpAddrContainer,
    dport: u16,
) -> ApiTraceView {
    ApiTraceView {
        request: ApiRequestView {
            method: utf8_decode_or_empty(req.method),
            url: ApiUrlView {
                host: spec_host_of(req.headers),
                path: spec_url_path(req.path),
                parameters: spec_url_params(req.path),
            },
            headers: spec_headers_kv(req.headers),
            body: utf8_decode_or_empty(req_body),
        },
        response: Some(
            ApiResponseView {
                status: resp.status,
                headers: spec_headers_kv(resp.headers),
                body: utf8_decode_or_empty(resp_body),
            },
        ),
        meta: Some(
            ApiMetaView {
                environment: "production"@,
                incoming: true,
                source: spec_addr_string(src),
                source_port: sport,
                destination: spec_addr_string(dst),
                destination_port: dport,
                original_source: None,
            },
        ),
    }
}

/// First position of `b` in `v`.
fn find_byte_vec(v: &Vec<u8>, b: u8) -> (r: Option<usize>)
    ensures
        match r {
            Some(i) => i < v@.len() && find_byte(v@, b, 0) == Some(i as int),
            None => find_byte(v@, b, 0) is None,
        },
{
    let n = v.len();
    let mut i: usize = 0;
    while i < n
        invariant
            0 <= i <= n,
            n == v@.len(),
            forall|j: int| 0 <= j < i ==> v@[j] != b,
        decreases n - i,
    {
        if v[i] == b {
            proof {
                lemma_find_byte_skip(v@, b, 0, i as int);
            }
            return Some(i);
        }
        i = i + 1;
    }
    proof {
        lemma_find_byte_skip(v@, b, 0, n as int);
    }
    None
}

/// Decodes a parsed header list into trace name/value pairs.
fn headers_to_keyvals(headers: &Vec<HeaderField>) -> (r: Vec<KeyVal>)
    ensures
        key_vals_view(r@) == spec_headers_kv(headers_view(headers@)),
{
    let ghost hv = headers_view(headers@);
    let n = headers.len();
    let mut out: Vec<KeyVal> = Vec::new();
    let mut i: usize = 0;
    while i < n
        invariant
            0 <= i <= n,
            n == headers@.len(),
            hv == headers_view(headers@),
            hv.len() == n,
            forall|j: int| 0 <= j < n ==> hv[j] == headers@[j]@,
            out@.len() == i,
            forall|j: int| 0 <= j < i ==> out@[j]@ == spec_headers_kv(hv)[j],
        decreases n - i,
    {
        let name = bytes_to_string(headers[i].name.as_slice());
        let value = bytes_to_string(headers[i].value.as_slice());
        out.push(KeyVal { name, value });
        i = i + 1;
    }
    proof {
        assert(key_vals_view(out@) =~= spec_headers_kv(hv));
    }
    out
}

/// Finds the host a request was addressed to: the value of its last `Host`
/// header.
fn host_of_headers(headers: &Vec<HeaderField>) -> (r: String)
    ensures
        r@ == spec_host_of(headers_view(headers@)),
{
    let ghost hv = headers_view(headers@);
    let n = headers.len();
    let mut host: String = String::new();
    let mut i: usize = 0;
    while i < n
        invariant
            0 <= i <= n,
            n == headers@.len(),
            hv == headers_view(headers@),
            hv.len() == n,
            forall|j: int| 0 <= j < n ==> hv[j] == headers@[j]@,
            host@ == spec_host_of(hv.subrange(0, i as int)),
        decreases n - i,
    {
        let hn = &headers[i].name;
        let m = hn.len() == 4 && (hn[0] == 'H' as u8 || hn[0] == 'h' as u8) && hn[1] == 'o' as u8
            && hn[2] == 's' as u8 && hn[3] == 't' as u8;
        proof {
            assert(hv.subrange(0, i + 1).drop_last() =~= hv.subrange(0, i as int));
            assert(hv.subrange(0, i + 1).last() == hv[i as int]);
        }
        if m {
            host = bytes_to_string(headers[i].value.as_slice());
        }
        i = i + 1;
    }
    proof {
        assert(hv.subrange(0, n as int) =~= hv);
    }
    host
}

/// Builds the trace of one paired exchange from its parsed request and
/// response heads and their bodies.  The endpoint arguments give the
/// requester's side first.
pub fn generate_api_trace(
    request: &RequestHead,
    response: &ResponseHead,
    req_body: &Vec<u8>,
    resp_body: &Vec<u8>,
    source_addr: &IpAddrContainer,
    source_port: u16,
    dest_addr: &IpAddrContainer,
    dest_port: u16,
) -> (r: ApiTrace)
    ensures
        r@ == spec_generate_trace(
            request@,
            response@,
            req_body@,
            resp_body@,
            *source_addr,
            source_port,
            *dest_addr,
            dest_port,
        ),
{
    proof {
        reveal(spec_generate_trace);
    }
    let host = host_of_headers(&request.headers);
    let req_headers = headers_to_keyvals(&request.headers);
    let resp_headers = headers_to_keyvals(&response.headers);
    let method = bytes_to_string(request.method.as_slice());
    let qpos = find_byte_vec(&request.path, '?' as u8);
    let (path, parameters): (String, Vec<KeyVal>) = match qpos {
        Some(i) => {
            let n = request.path.len();
            let j: usize = i + 1;
            let path_str = bytes_to_string(slice_subrange(request.path.as_slice(), 0, i));
            let query = slice_subrange(request.path.as_slice(), j, n);
            (path_str, parse_query_params(query))
        },
        None => (bytes_to_string(request.path.as_slice()), Vec::new()),
    };
    proof {
        assert(path@ == spec_url_path(request@.path));
        assert(key_vals_view(parameters@) =~= spec_url_params(request@.path));
    }
    let req_body_str = bytes_to_string(req_body.as_slice());
    let resp_body_str = bytes_to_string(resp_body.as_slice());
    let source = source_addr.to_string();
    let destination = dest_addr.to_string();
    ApiTrace {
        request: ApiRequest {
            method,
            url: ApiUrl { host, path, parameters },
            headers: req_headers,
            body: req_body_str,
        },
        response: Some(
            ApiResponse { status: response.status, headers: resp_headers, body: resp_body_str },
        ),
        meta: Some(
            ApiMeta {
                environment: "production".to_owned(),
                incoming: true,
                source,
                source_port,
                destination,
                destination_port: dest_port,
                original_source: None,
            },
        ),
    }
}

// ---------------------------------------------------------------------------
// The pairing table
// ---------------------------------------------------------------------------

/// Result of completing one half against the pairing table: the table as it
/// stands afterwards, and the emitted trace on a pairing hit.
#[verifier::ext_equal]
pub struct PairStep {
    pub map: Map<u64, MapPayloadView>,
    pub emitted: Option<ApiTraceView>,
}

/// Completing a message half `m` seen on the connection with endpoints
/// `(src, sport) -> (dst, dport)`, whose own table key is `own` and whose
/// mirror key is `mirror`: a hit on the mirror entry combines the two
/// halves into a trace (when the parked counterpart still parses) and
/// removes both entries; a miss parks this half under its own key.
pub open spec fn spec_complete_half(
    rmap: Map<u64, MapPayloadView>,
    own: u64,
    mirror: u64,
    m: CompletedView,
    src: IpAddrContainer,
    sport: u16,
    dst: IpAddrContainer,
    dport: u16,
    now: u64,
) -> PairStep {
    if rmap.contains_key(mirror) {
        let stored = rmap[mirror];
        let emitted = match m.kind {
            PayloadType::Request => match (req_parse(m.header), resp_parse(stored.buffer)) {
                (ReqParseView::Complete(qh), RespParseView::Complete(sh)) => Some(
                    spec_generate_trace(
                        qh,
                        sh,
                        m.body,
                        stored.body_buffer,
                        src,
                        sport,
                        dst,
                        dport,
                    ),
                ),
                _ => None,
            },
            PayloadType::Response => match (resp_parse(m.header), req_parse(stored.buffer)) {
                (RespParseView::Complete(sh), ReqParseView::Complete(qh)) => Some(
                    spec_generate_trace(
                        qh,
                        sh,
                        stored.body_buffer,
                        m.body,
                        dst,
                        dport,
                        src,
                        sport,
                    ),
                ),
                _ => None,
            },
        };
        PairStep { map: rmap.remove(mirror).remove(own), emitted }
    } else {
        PairStep {
            map: rmap.insert(
                own,
                MapPayloadView { buffer: m.header, body_buffer: m.body, last_seen: now },
            ),
            emitted: None,
        }
    }
}

proof fn lemma_pmv_insert(m: Map<u64, MapPayload>, k: u64, v: MapPayload)
    ensures
        payload_map_view(m.insert(k, v)) == payload_map_view(m).insert(k, v@),
{
    assert(payload_map_view(m.insert(k, v)) =~= payload_map_view(m).insert(k, v@));
}

proof fn lemma_pmv_remove(m: Map<u64, MapPayload>, k: u64)
    ensures
        payload_map_view(m.remove(k)) == payload_map_view(m).remove(k),
{
    assert(payload_map_view(m.remove(k)) =~= payload_map_view(m).remove(k));
}

/// Completes one framed half of an exchange against the pairing table.  A
/// hit on the mirror key yields the combined trace and clears both entries;
/// a miss parks the half, stamped `now`, until its counterpart arrives or
/// the sweeper evicts it.
pub fn complete_half(
    req_map: &mut HashMap<u64, MapPayload>,
    own_hash: u64,
    mirror_hash: u64,
    msg: CompletedMessage,
    src: IpAddrContainer,
    sport: u16,
    dst: IpAddrContainer,
    dport: u16,
    now: u64,
) -> (r: Option<ApiTrace>)
    ensures
        payload_map_view(final(req_map)@) == spec_complete_half(
            payload_map_view(old(req_map)@),
            own_hash,
            mirror_hash,
            msg@,
            src,
            sport,
            dst,
            dport,
            now,
        ).map,
        trace_opt_view(r) == spec_complete_half(
            payload_map_view(old(req_map)@),
            own_hash,
            mirror_hash,
            msg@,
            src,
            sport,
            dst,
            dport,
            now,
        ).emitted,
{
    if req_map.contains_key(&mirror_hash) {
        let stored_opt = req_map.remove(&mirror_hash);
        req_map.remove(&own_hash);
        proof {
            lemma_pmv_remove(old(req_map)@, mirror_hash);
            lemma_pmv_remove(old(req_map)@.remove(mirror_hash), own_hash);
        }
        match stored_opt {
            Some(stored) => {
                match msg.kind {
                    PayloadType::Request => {
                        let own_parsed = parse_http_request(msg.header_bytes.as_slice());
                        let stored_parsed = parse_http_response(stored.buffer.as_slice());
                        match (own_parsed, stored_parsed) {
                            (
                                ReqParseResult::Complete(qh),
                                RespParseResult::Complete(sh),
                            ) => Some(
                                generate_api_trace(
                                    &qh,
                                    &sh,
                                    &msg.body_bytes,
                                    &stored.body_buffer,
                                    &src,
                                    sport,
                                    &dst,
                                    dport,
                                ),
                            ),
                            _ => None,
                        }
                    },
                    PayloadType::Response => {
                        let own_parsed = parse_http_response(msg.header_bytes.as_slice());
                        let stored_parsed = parse_http_request(stored.buffer.as_slice());
                        match (own_parsed, stored_parsed) {
                            (
                                RespParseResult::Complete(sh),
                                ReqParseResult::Complete(qh),
                            ) => Some(
                                generate_api_trace(
                                    &qh,
                                    &sh,
                                    &stored.body_buffer,
                                    &msg.body_bytes,
                                    &dst,
                                    dport,
                                    &src,
                                    sport,
                                ),
                            ),
                            _ => None,
                        }
                    },
                }
            },
            None => {
                proof {
                    assert(false);
                }
                None
            },
        }
    } else {
        req_map.insert(
            own_hash,
            MapPayload { buffer: msg.header_bytes, body_buffer: msg.body_bytes, last_seen: now },
        );
        proof {
            lemma_pmv_insert(
                old(req_map)@,
                own_hash,
                MapPayload {
                    buffer: msg.header_bytes,
                    body_buffer: msg.body_bytes,
                    last_seen: now,
                },
            );
        }
        None
    }
}

// ---------------------------------------------------------------------------
// One full framing-and-pairing pass
// ---------------------------------------------------------------------------

/// Result of one framing-and-pairing pass over a connection: the connection
/// and pairing table as they stand afterwards, and the emitted trace, if
/// the pass completed a message whose counterpart was parked.
#[verifier::ext_equal]
pub struct RunStep {
    pub conn: ConnView,
    pub map: Map<u64, MapPayloadView>,
    pub emitted: Option<ApiTraceView>,
}

/// One framing-and-pairing pass: frame the reassembled buffer; on a parse
/// error drop the message state (the connection survives); on a completed
/// message, complete the half against the pairing table and trim the
/// consumed bytes off the buffer, so that any pipelined next message starts
/// the buffer.
#[verifier::opaque]
pub open spec fn spec_run_payload(
    c: ConnView,
    rmap: Map<u64, MapPayloadView>,
    key: u64,
    now: u64,
) -> RunStep {
    let fs = spec_frame(c.payload, c.content_len);
    let c1 = ConnView { content_len: fs.hint, ..c };
    match fs.outcome {
        FrameOutcomeView::Incomplete => RunStep { conn: c1, map: rmap, emitted: None },
        FrameOutcomeView::Malformed => RunStep {
            conn: crate::tcp_assembly::spec_reset(c1, 0, 0),
            map: rmap,
            emitted: None,
        },
        FrameOutcomeView::Complete(m) => {
            let mirror = spec_key_hash(mirror_of(conn_key(c)));
            let pair = spec_complete_half(rmap, key, mirror, m, c.src, c.sport, c.dst, c.dport, now);
            let consumed = if 0 <= m.consumed && m.consumed <= c.payload.len() {
                m.consumed
            } else {
                c.payload.len() as int
            };
            RunStep {
                conn: crate::tcp_assembly::spec_reset(c1, consumed, c.payload.len() - consumed),
                map: pair.map,
                emitted: pair.emitted,
            }
        },
    }
}

/// Runs the framer over a connection's reassembled buffer and, when a
/// message completes, pairs it against the table under the connection's key
/// hash `key_hash`, as `spec_run_payload` describes.
pub fn run_payload(
    key_hash: u64,
    conn: &mut TcpConnection,
    req_map: &mut HashMap<u64, MapPayload>,
    now: u64,
) -> (r: Option<ApiTrace>)
    requires
        conn_wf(old(conn)@),
    ensures
        final(conn)@ == spec_run_payload(
            old(conn)@,
            payload_map_view(old(req_map)@),
            key_hash,
            now,
        ).conn,
        payload_map_view(final(req_map)@) == spec_run_payload(
            old(conn)@,
            payload_map_view(old(req_map)@),
            key_hash,
            now,
        ).map,
        trace_opt_view(r) == spec_run_payload(
            old(conn)@,
            payload_map_view(old(req_map)@),
            key_hash,
            now,
        ).emitted,
        conn_wf(final(conn)@),
{
    proof {
        reveal(spec_run_payload);
    }
    let outcome = try_frame(conn);
    match outcome {
        MessageOutcome::Incomplete => None,
        MessageOutcome::Malformed => {
            reset_connection(conn, 0, 0);
            None
        },
        MessageOutcome::Complete(msg) => {
            let own_key = MapKey {
                src_ip: conn.source_addr,
                src_port: conn.source_port,
                dest_ip: conn.dest_addr,
                dest_port: conn.dest_port,
            };
            let mk = mirror_key(&own_key);
            let mirror_hash = calculate_hash(&mk);
            let consumed = msg.bytes_consumed;
            let r = complete_half(
                req_map,
                key_hash,
                mirror_hash,
                msg,
                conn.source_addr,
                conn.source_port,
                conn.dest_addr,
                conn.dest_port,
                now,
            );
            let remaining = conn.payload_buffer.len() - consumed;
            reset_connection(conn, consumed, remaining);
            r
        },
    }
}

} // verus!

