//! Data model of the collector's endpoint and configuration records.

use vstd::prelude::*;

use std::collections::HashMap;

verus! {

/// An HTTP request method, as the collector records it.
#[derive(Debug, Clone, PartialEq, Eq, Hash, Structural)]
pub enum RestMethod {
    Get,
    Head,
    Post,
    Put,
    Patch,
    Delete,
    Connect,
    Options,
    Trace,
}

impl RestMethod {
    /// The method's wire spelling.
    pub fn as_str(&self) -> (r: &'static str)
        ensures
            self is Get ==> r@ == ("GET")@,
            self is Head ==> r@ == ("HEAD")@,
            self is Post ==> r@ == ("POST")@,
            self is Put ==> r@ == ("PUT")@,
            self is Patch ==> r@ == ("PATCH")@,
            self is Delete ==> r@ == ("DELETE")@,
            self is Connect ==> r@ == ("CONNECT")@,
            self is Options ==> r@ == ("OPTIONS")@,
            self is Trace ==> r@ == ("TRACE")@,
    {
        match self {
            RestMethod::Get => "GET",
            RestMethod::Head => "HEAD",
            RestMethod::Post => "POST",
            RestMethod::Put => "PUT",
            RestMethod::Patch => "PATCH",
            RestMethod::Delete => "DELETE",
            RestMethod::Connect => "CONNECT",
            RestMethod::Options => "OPTIONS",
            RestMethod::Trace => "TRACE",
        }
    }
}

/// How risky an endpoint is judged.
#[derive(Debug, Clone, PartialEq, Eq, Hash, Structural)]
pub enum RiskScore {
    High,
    Medium,
    Low,
    NoScore,
}

/// The outcome of mapping a trace's host through the configured host map.
#[derive(Debug, Clone)]
pub struct MappedHost {
    pub mapped_host: Option<String>,
    pub is_ignored: bool,
}

/// One host-rewriting rule: hosts matching `pattern` count as `host`.
#[derive(Debug, Clone)]
pub struct HostMapping {
    pub host: String,
    pub pattern: String,
}

/// The paths ignored for one host.
#[derive(Debug, Clone)]
pub struct PathIgnoreList {
    pub host: String,
    pub paths: Vec<String>,
}

/// One detection that operators have marked as ignored.
#[derive(Debug, Clone)]
pub struct IgnoredDetection {
    pub id: Option<String>,
    pub host: Option<String>,
    pub path: Option<String>,
    pub method: Option<String>,
    pub ignored_paths: HashMap<String, Vec<String>>,
}

/// The collector-side configuration document.
#[derive(Debug, Clone)]
pub struct MetloConfigType {
    pub host_map: Option<Vec<HostMapping>>,
    pub host_block_list: Option<Vec<String>>,
    pub path_block_list: Option<Vec<PathIgnoreList>>,
    pub ignored_detections: Option<Vec<IgnoredDetection>>,
}

} // verus!
