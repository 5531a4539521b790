//! Data model of the traces handed to the downstream analysis pipeline:
//! one paired HTTP request/response exchange together with its endpoint
//! metadata, plus the result types that trace analysis produces.

use vstd::prelude::*;

use std::collections::HashMap;
use std::collections::HashSet;

verus! {

// ---------------------------------------------------------------------------
// Spec-level mirrors of the trace types.  Each executable type below has a
// `View` into one of these, so that contracts can speak about trace contents
// as mathematical sequences.
// ---------------------------------------------------------------------------

#[verifier::ext_equal]
pub struct KeyValView {
    pub name: Seq<char>,
    pub value: Seq<char>,
}

#[verifier::ext_equal]
pub struct ApiUrlView {
    pub host: Seq<char>,
    pub path: Seq<char>,
    pub parameters: Seq<KeyValView>,
}

#[verifier::ext_equal]
pub struct ApiRequestView {
    pub method: Seq<char>,
    pub url: ApiUrlView,
    pub headers: Seq<KeyValView>,
    pub body: Seq<char>,
}

#[verifier::ext_equal]
pub struct ApiResponseView {
    pub status: u16,
    pub headers: Seq<KeyValView>,
    pub body: Seq<char>,
}

#[verifier::ext_equal]
pub struct ApiMetaView {
    pub environment: Seq<char>,
    pub incoming: bool,
    pub source: Seq<char>,
    pub source_port: u16,
    pub destination: Seq<char>,
    pub destination_port: u16,
    pub original_source: Option<Seq<char>>,
}

#[verifier::ext_equal]
pub struct ApiTraceView {
    pub request: ApiRequestView,
    pub response: Option<ApiResponseView>,
    pub meta: Option<ApiMetaView>,
}

// ---------------------------------------------------------------------------
// Executable trace types.
// ---------------------------------------------------------------------------

/// One name/value pair: a header, or one query parameter.
#[derive(Debug, Clone)]
pub struct KeyVal {
    pub name: String,
    pub value: String,
}

impl View for KeyVal {
    type V = KeyValView;

    open spec fn view(&self) -> KeyValView {
        KeyValView { name: self.name@, value: self.value@ }
    }
}

/// Spec-level contents of a sequence of `KeyVal`s.
pub open spec fn key_vals_view(s: Seq<KeyVal>) -> Seq<KeyValView> {
    s.map_values(|kv: KeyVal| kv@)
}

/// The URL of a request: host, path, and decoded query parameters.
#[derive(Debug, Clone)]
pub struct ApiUrl {
    pub host: String,
    pub path: String,
    pub parameters: Vec<KeyVal>,
}

impl View for ApiUrl {
    type V = ApiUrlView;

    open spec fn view(&self) -> ApiUrlView {
        ApiUrlView { host: self.host@, path: self.path@, parameters: key_vals_view(self.parameters@) }
    }
}

/// The request half of a trace.
#[derive(Debug, Clone)]
pub struct ApiRequest {
    pub method: String,
    pub url: ApiUrl,
    pub headers: Vec<KeyVal>,
    pub body: String,
}

impl View for ApiRequest {
    type V = ApiRequestView;

    open spec fn view(&self) -> ApiRequestView {
        ApiRequestView {
            method: self.method@,
            url: self.url@,
            headers: key_vals_view(self.headers@),
            body: self.body@,
        }
    }
}

/// The response half of a trace.
#[derive(Debug, Clone)]
pub struct ApiResponse {
    pub status: u16,
    pub headers: Vec<KeyVal>,
    pub body: String,
}

impl View for ApiResponse {
    type V = ApiResponseView;

    open spec fn view(&self) -> ApiResponseView {
        ApiResponseView {
            status: self.status,
            headers: key_vals_view(self.headers@),
            body: self.body@,
        }
    }
}

/// Endpoint metadata of an exchange, oriented from client to server.
#[derive(Debug, Clone)]
pub struct ApiMeta {
    pub environment: String,
    pub incoming: bool,
    pub source: String,
    pub source_port: u16,
    pub destination: String,
    pub destination_port: u16,
    pub original_source: Option<String>,
}

impl View for ApiMeta {
    type V = ApiMetaView;

    open spec fn view(&self) -> ApiMetaView {
        ApiMetaView {
            environment: self.environment@,
            incoming: self.incoming,
            source: self.source@,
            source_port: self.source_port,
            destination: self.destination@,
            destination_port: self.destination_port,
            original_source: match self.original_source {
                Some(ref s) => Some(s@),
                None => None,
            },
        }
    }
}

/// One complete paired exchange: the unit handed to downstream analysis.
#[derive(Debug, Clone)]
pub struct ApiTrace {
    pub request: ApiRequest,
    pub response: Option<ApiResponse>,
    pub meta: Option<ApiMeta>,
}

impl View for ApiTrace {
    type V = ApiTraceView;

    open spec fn view(&self) -> ApiTraceView {
        ApiTraceView {
            request: self.request@,
            response: match self.response {
                Some(ref r) => Some(r@),
                None => None,
            },
            meta: match self.meta {
                Some(ref m) => Some(m@),
                None => None,
            },
        }
    }
}

// ---------------------------------------------------------------------------
// Results of downstream trace analysis.
// ---------------------------------------------------------------------------

/// The per-section findings of one analysis pass.
#[derive(Debug)]
pub struct ProcessTraceResInner {
    pub block: bool,
    pub xss_detected: Option<HashMap<String, String>>,
    pub sqli_detected: Option<HashMap<String, (String, String)>>,
    pub sensitive_data_detected: Option<HashMap<String, HashSet<String>>>,
    pub data_types: Option<HashMap<String, HashSet<String>>>,
    pub validation_errors: Option<HashMap<String, Vec<String>>>,
}

/// The encryption material of a redacted trace.
#[derive(Debug)]
pub struct Encryption {
    pub key: String,
    pub generated_ivs: HashMap<String, Vec<u8>>,
}

/// One selected field of a GraphQL operation.
#[derive(Debug)]
pub struct OperationItem {
    pub name: Option<String>,
    pub alias: Option<String>,
    pub arguments: Vec<String>,
    pub items: Vec<OperationItem>,
}

/// One variable of a GraphQL operation.
#[derive(Debug)]
pub struct Variable {
    pub name: String,
    pub var_type: String,
}

/// One GraphQL operation of a request.
#[derive(Debug)]
pub struct Operation {
    pub operation_name: Option<String>,
    pub operation_type: String,
    pub items: Vec<OperationItem>,
    pub variables: Vec<Variable>,
}

/// The GraphQL shape of one request document.
#[derive(Debug)]
pub struct GraphQlData {
    pub operation_name: Option<String>,
    pub operations: Vec<Operation>,
}

/// The result of GraphQL analysis of one trace.
#[derive(Debug)]
pub struct GraphQlRes {
    pub graph_ql_data: Vec<GraphQlData>,
    pub proc_trace_res: ProcessTraceResInner,
    pub response_alias_map: HashMap<String, String>,
}

/// The combined findings of analysing one trace.
#[derive(Debug)]
pub struct ProcessTraceRes {
    pub block: bool,
    pub xss_detected: Option<HashMap<String, String>>,
    pub sqli_detected: Option<HashMap<String, (String, String)>>,
    pub sensitive_data_detected: Option<HashMap<String, HashSet<String>>>,
    pub data_types: Option<HashMap<String, HashSet<String>>>,
    pub validation_errors: Option<HashMap<String, Vec<String>>>,
    pub request_content_type: String,
    pub response_content_type: String,
    pub graph_ql_data: Vec<GraphQlData>,
}

/// What is known of the session a trace belongs to.
#[derive(Debug)]
pub struct SessionMeta {
    pub authentication_provided: Option<bool>,
    pub authentication_successful: Option<bool>,
    pub auth_type: Option<String>,
    pub unique_session_key: Option<String>,
    pub user: Option<String>,
}

/// A trace together with everything analysis attached to it.
#[derive(Debug)]
pub struct ProcessedApiTrace {
    pub request: ApiRequest,
    pub response: Option<ApiResponse>,
    pub meta: Option<ApiMeta>,
    pub processed_trace_data: ProcessTraceRes,
    pub redacted: bool,
    pub encryption: Option<Encryption>,
    pub session_meta: Option<SessionMeta>,
    pub analysis_type: String,
}

/// Spec-level contents of an optional emitted trace.
pub open spec fn trace_opt_view(r: Option<ApiTrace>) -> Option<ApiTraceView> {
    match r {
        Some(t) => Some(t@),
        None => None,
    }
}

} // verus!
