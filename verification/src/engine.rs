//! What the engine tells of itself, as far as the control surface reads it.

use crate::json::Json;
use vstd::prelude::*;

verus! {

/// A connection that the engine carries.
#[derive(Debug, Clone)]
pub struct TrackedConnection {
    pub id: String,
    pub host: String,
    pub destination_ip: Option<String>,
    pub destination_port: u16,
    pub protocol: String,
    pub outbound_tag: String,
    /// Bytes sent so far.
    pub upload: u64,
    /// Bytes received so far.
    pub download: u64,
    /// Seconds since 1970.
    pub start_timestamp: u64,
    pub rule: String,
}

/// An outbound: a proxy, or a group that stands for one of its members.
#[derive(Debug)]
pub struct OutboundConfig {
    pub tag: String,
    /// The type as a profile spells it.
    pub outbound_type: String,
    /// Whether the type is one of a group.
    pub is_group: bool,
    pub server: Option<String>,
    pub port: Option<u16>,
    /// The options by name, a JSON object.
    pub options: Json,
}

/// A routing rule.
#[derive(Debug, Clone)]
pub struct RuleConfig {
    /// The type as a profile spells it.
    pub rule_type: String,
    pub payload: String,
    pub outbound: String,
}

/// When an answer is suspect enough to be resolved once more.
#[derive(Debug, Clone)]
pub struct FallbackFilter {
    pub geoip: bool,
    pub geoip_code: String,
    pub ipcidr: Vec<String>,
    pub domain: Vec<String>,
}

/// How names are resolved.
#[derive(Debug, Clone)]
pub struct DnsConfig {
    pub enable: bool,
    pub listen: String,
    /// The mode as a profile spells it.
    pub enhanced_mode: String,
    pub nameservers: Vec<String>,
    pub fallback: Vec<String>,
    /// Resolvers by domain, each domain once.
    pub nameserver_policy: Vec<(String, Vec<String>)>,
    pub default_nameserver: Vec<String>,
    pub fallback_filter: FallbackFilter,
    pub fake_ip_range: String,
    pub fake_ip_filter: Vec<String>,
    pub fake_ip_ttl: u32,
    /// Static host entries, each host once.
    pub hosts: Vec<(String, String)>,
    pub use_hosts: bool,
    pub cache_size: usize,
}

} // verus!
