//! The agent's connection settings.

use vstd::prelude::*;

verus! {

/// The collector connection settings the agent runs with.
#[derive(Debug, Clone)]
pub struct MetloConfig {
    pub api_key: Option<String>,
    pub metlo_host: Option<String>,
    pub initialized: bool,
}

/// Records the collector host and API key and marks the agent
/// initialized.
pub fn initialize_metlo(conf: &mut MetloConfig, metlo_host: String, api_key: String)
    ensures
        final(conf).metlo_host == Some(metlo_host),
        final(conf).api_key == Some(api_key),
        final(conf).initialized,
{
    conf.metlo_host = Some(metlo_host);
    conf.api_key = Some(api_key);
    conf.initialized = true;
}

/// The credentials and ports the agent connects with.
#[derive(Debug, Clone)]
pub struct MetloCreds {
    pub api_key: String,
    pub metlo_host: String,
    pub backend_port: Option<u16>,
    pub collector_port: Option<u16>,
}

/// One sensitive-data class pushed down from the collector.
#[derive(Debug, Clone, Default)]
pub struct MetloSensitiveData {
    pub class_name: String,
    pub severity: String,
    pub regex: Option<String>,
    pub key_regex: Option<String>,
}

/// One endpoint the collector tracks.
#[derive(Debug, Clone, Default)]
pub struct MetloEndpoint {
    pub path: String,
    pub openapi_spec_name: Option<String>,
    pub host: String,
    pub method: String,
    pub full_trace_capture_enabled: bool,
    pub number_params: u8,
    pub is_graph_ql: bool,
}

/// How a host authenticates its callers.
#[derive(Debug, Clone, Default)]
pub struct Authentication {
    pub host: String,
    pub auth_type: String,
    pub header_key: Option<String>,
    pub jwt_user_path: Option<String>,
    pub cookie_name: Option<String>,
}

/// One named OpenAPI specification document.
#[derive(Debug, Clone, Default)]
pub struct MetloSpec {
    pub name: String,
    pub spec: String,
}

/// One host-rewriting rule: hosts matching `pattern` count as `host`.
#[derive(Debug, Clone, Default)]
pub struct HostMapping {
    pub host: String,
    pub pattern: String,
}

/// The answer to a connection-validation probe.
#[derive(Debug, Clone)]
pub struct ValidateRequestConnResp {
    pub ok: bool,
    pub msg: Option<String>,
}

} // verus!
