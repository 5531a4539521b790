//! Passive HTTP traffic reconstruction: TCP segment reassembly, HTTP/1.x
//! message framing over the reassembled byte stream, and request/response
//! pairing across the two halves of a connection.

use vstd::prelude::*;

pub mod trace;
pub mod text;
pub mod tcp_assembly;
pub mod http_assembly;
pub mod packet_decode;
pub mod laws;
pub mod utils;
pub mod open_api;
pub mod metlo_config;
pub mod sensitive_data;
pub mod types;
pub mod process_trace;

verus! {

/// Hard cap on the reassembled payload buffer of one connection.
pub const MAX_HTTP_SIZE: usize = 10240;

/// Cap on the number of buffered out-of-order segments of one connection.
pub const MAX_BUFFERED_SEGMENTS: usize = 100;

/// Idle threshold, in seconds, after which the sweeper evicts an entry.
pub const IDLE_TIMEOUT_SECS: u64 = 10;

/// The answer to an initialization attempt.
pub struct InitializeMetloResp {
    pub ok: bool,
    pub msg: Option<String>,
}

/// What endpoint matching learned about one trace.
#[derive(Debug, Clone)]
pub struct TraceInfo {
    pub openapi_spec_name: Option<String>,
    pub full_trace_capture_enabled: bool,
    pub is_graph_ql: bool,
    pub endpoint_path: String,
    pub current_host: String,
    pub block: bool,
    pub authentication: Option<metlo_config::Authentication>,
}

/// One trace queued for analysis and upload.
#[derive(Debug)]
pub struct BufferItem {
    pub trace: trace::ApiTrace,
    pub processed_trace: Option<trace::ProcessTraceRes>,
    pub trace_info: TraceInfo,
    pub analysis_type: String,
    pub graphql_paths: Option<Vec<String>>,
}

/// The queues of traces awaiting partial and full analysis.
#[derive(Debug)]
pub struct RequestBuffer {
    pub partial_analysis: Vec<BufferItem>,
    pub full_analysis: Vec<BufferItem>,
}

/// The ingest service endpoint.
#[derive(Debug, Default)]
pub struct MIngestServer {}

} // verus!
