//! The values that cross the control surface: settings that come in, and what the engine
//! tells of its traffic, connections, proxies, rules and name resolution.

use crate::engine::TrackedConnection;
use crate::json::{items_view, lemma_json_view, Json, JsonView};
use crate::text::{
    concat, copy_opt, copy_strings, decimal, opt_text, owned, push_decimal, strings_view,
};
use vstd::prelude::*;
use vstd::string::*;

verus! {

/// The whole configuration.
#[derive(Debug)]
pub struct CorduitConfig {
    /// General settings
    pub general: GeneralConfig,

    /// DNS configuration
    pub dns: DnsConfig,

    /// Inbound configurations
    pub inbounds: Vec<InboundConfig>,

    /// Outbound configurations
    pub outbounds: Vec<OutboundConfig>,

    /// Routing rules
    pub rules: Vec<RuleConfig>,
}

/// General configuration
#[derive(Debug, Clone)]
pub struct GeneralConfig {
    pub socks_port: Option<u16>,
    pub mixed_port: Option<u16>,
    pub authentication: Option<Vec<AuthenticationConfig>>,
    pub allow_lan: bool,
    pub bind_address: String,
    pub mode: String,
    pub log_level: String,
    pub ipv6: bool,
    pub tcp_concurrent: bool,
    pub external_controller: Option<String>,
    pub external_ui: Option<String>,
    pub secret: Option<String>,
}

/// DNS configuration
#[derive(Debug, Clone)]
pub struct DnsConfig {
    pub enable: bool,
    pub listen: String,
    pub nameservers: Vec<String>,
    pub fallback: Vec<String>,
    pub enhanced_mode: String,
    pub nameserver_policy: Vec<(String, Vec<String>)>,
    /// Resolvers used only to resolve a resolver's own hostname.
    pub default_nameserver: Vec<String>,
    /// When an answer is suspect enough to re-resolve through `fallback`.
    pub fallback_filter: Option<DnsFallbackFilterDto>,
    /// Fake-IP pool in CIDR form. `None` keeps the engine default rather than
    /// replacing it with an empty string.
    pub fake_ip_range: Option<String>,
    /// Suffixes that must never receive a fake address.
    pub fake_ip_filter: Vec<String>,
    /// TTL handed to the client for a fake address. `None` keeps the engine
    /// default rather than replacing it with zero.
    pub fake_ip_ttl: Option<u32>,
    /// Static host entries.
    pub hosts: Vec<(String, String)>,
    /// Whether `hosts` is consulted. `None` keeps the engine default.
    pub use_hosts: Option<bool>,
    /// Forward-cache capacity. `None` keeps the engine default.
    pub cache_size: Option<usize>,
}

/// `fallback-filter`.
#[derive(Debug, Clone)]
pub struct DnsFallbackFilterDto {
    pub geoip: Option<bool>,
    pub geoip_code: Option<String>,
    pub ipcidr: Vec<String>,
    pub domain: Vec<String>,
}

/// Inbound configuration
#[derive(Debug, Clone)]
pub struct InboundConfig {
    pub inbound_type: String,
    pub tag: String,
    pub listen: String,
    pub port: u16,
    pub options: String, // JSON string for complex options
}

/// Outbound configuration
#[derive(Debug, Clone)]
pub struct OutboundConfig {
    pub outbound_type: String,
    pub tag: String,
    pub server: Option<String>,
    pub port: Option<u16>,
    pub options: String, // JSON string for complex options
}

/// Routing rule configuration
#[derive(Debug)]
pub struct RuleConfig {
    pub rule_type: String,
    /// Match pattern. Empty for the logical combinators.
    pub payload: String,
    pub outbound: String,
    pub process_name: Option<String>,
    /// `no-resolve` modifier, carried through to the engine unchanged.
    pub no_resolve: bool,
    /// Child rules for `and` / `or` / `not`, carried through as untyped values
    /// so nesting depth is not fixed by this DTO.
    pub rules: Vec<Json>,
}

/// Authentication configuration
#[derive(Debug, Clone)]
pub struct AuthenticationConfig {
    pub username: String,
    pub password: String,
}

/// Proxy status information
#[derive(Debug, Clone)]
pub struct ProxyStatus {
    pub running: bool,
    pub inbound_count: u32,
    pub outbound_count: u32,
    pub connection_count: u32,
    pub memory_usage: u64,
    pub uptime: u64,
}

/// Traffic statistics
#[derive(Debug, Clone)]
pub struct TrafficStats {
    pub upload: u64,
    pub download: u64,
    pub upload_speed: u64,
    pub download_speed: u64,
}

/// Connection information
#[derive(Debug, Clone)]
pub struct ConnectionInfo {
    pub id: String,
    pub host: String,
    pub destination: String,
    pub upload: u64,
    pub download: u64,
    pub start_time: u64,
    pub rule: String,
    pub chains: Vec<String>,
}

/// Latency test result
#[derive(Debug, Clone)]
pub struct LatencyTestResult {
    pub proxy_name: String,
    pub latency_ms: Option<u32>,
    pub success: bool,
    pub error: Option<String>,
}

/// Local JSON-RPC server status (never exposes the token itself).
#[derive(Debug, Clone)]
pub struct RpcServerStatus {
    /// Whether the server's accept loop is running.
    pub running: bool,
    /// The bound address such as `"127.0.0.1:8000"` (`None` when stopped).
    pub addr: Option<String>,
    /// Whether a bearer token is required (always `true` while running).
    pub token_set: bool,
}

/// External controller status (never exposes the secret).
#[derive(Debug, Clone)]
pub struct ExternalControllerStatus {
    /// Whether the controller's accept loop is running.
    pub running: bool,
    /// The bound address such as `"127.0.0.1:9090"` (`None` when stopped).
    pub addr: Option<String>,
    /// Whether requests must present `general.secret`.
    pub secret_required: bool,
}

/// Active connection for tracking
#[derive(Debug, Clone)]
pub struct ActiveConnection {
    pub id: String,
    pub inbound_tag: String,
    pub outbound_tag: String,
    pub host: String,
    pub destination_ip: Option<String>,
    pub destination_port: u16,
    pub protocol: String,
    pub network: String,
    pub upload_bytes: u64,
    pub download_bytes: u64,
    pub start_time: u64,
    pub rule: String,
    pub rule_payload: String,
    pub process_name: Option<String>,
}

/// TUN mode status
#[derive(Debug, Clone)]
pub struct TunStatus {
    pub enabled: bool,
    pub interface_name: Option<String>,
    pub mtu: Option<u32>,
    pub error: Option<String>,
}

/// QUIC proxy configuration
#[derive(Debug, Clone)]
pub struct QuicProxyConfig {
    /// Server address (host:port)
    pub server: String,
    /// Server port
    pub port: u16,
    /// Password for authentication
    pub password: String,
    /// Cipher type (aes-256-gcm, chacha20-poly1305, etc.)
    pub cipher: String,
    /// SNI server name for camouflage
    pub server_name: Option<String>,
    /// ALPN protocols
    pub alpn: Option<Vec<String>>,
    /// Skip certificate verification
    pub skip_cert_verify: bool,
    /// Enable 0-RTT
    pub zero_rtt: bool,
    /// Enable UDP relay
    pub udp_relay: bool,
    /// Congestion control (cubic, bbr, newreno)
    pub congestion_control: Option<String>,
    /// Idle timeout in seconds
    pub idle_timeout: Option<u32>,
}

/// QUIC connection status
#[derive(Debug, Clone)]
pub struct QuicConnectionStatus {
    pub connected: bool,
    pub server: String,
    pub rtt_ms: Option<u32>,
    pub zero_rtt_accepted: bool,
    pub streams_count: u32,
    pub error: Option<String>,
}

/// Traffic statistics DTO
#[derive(Debug, Clone)]
pub struct TrafficStatsDto {
    pub upload: u64,
    pub download: u64,
    pub total_upload: u64,
    pub total_download: u64,
    pub connection_count: u32,
    pub uptime_secs: u64,
}

/// Connection DTO
#[derive(Debug, Clone)]
pub struct ConnectionDto {
    pub id: String,
    pub src_addr: String,
    pub dst_addr: String,
    pub dst_domain: Option<String>,
    pub protocol: String,
    pub outbound: String,
    pub upload: u64,
    pub download: u64,
    pub start_time: i64,
    pub rule: Option<String>,
}

/// Proxy info DTO
#[derive(Debug, Clone)]
pub struct ProxyInfoDto {
    pub tag: String,
    pub protocol_type: String,
    pub server: Option<String>,
    pub port: Option<u16>,
    pub latency_ms: Option<u64>,
    pub alive: bool,
}

/// Proxy group DTO
#[derive(Debug, Clone)]
pub struct ProxyGroupDto {
    pub tag: String,
    pub group_type: String,
    pub proxies: Vec<String>,
    pub selected: String,
}

/// Proxy latency DTO
#[derive(Debug, Clone)]
pub struct ProxyLatencyDto {
    pub tag: String,
    pub latency_ms: Option<u64>,
    pub error: Option<String>,
}

/// Rule DTO
#[derive(Debug, Clone)]
pub struct RuleDto {
    pub rule_type: String,
    pub payload: String,
    pub outbound: String,
    pub matched_count: u64,
}

/// DNS config DTO
#[derive(Debug, Clone)]
pub struct DnsConfigDto {
    pub enable: bool,
    pub listen: String,
    pub enhanced_mode: String,
    pub nameservers: Vec<String>,
    pub fallback: Vec<String>,
    pub nameserver_policy: Vec<(String, Vec<String>)>,
    pub default_nameserver: Vec<String>,
    pub fallback_filter: DnsFallbackFilterDto,
    pub fake_ip_range: String,
    pub fake_ip_filter: Vec<String>,
    pub fake_ip_ttl: u32,
    /// Number of static host entries in effect. The entries themselves are not
    /// exported: a UI only needs the count, and a hosts file can be large.
    pub host_count: usize,
    pub use_hosts: bool,
    pub cache_size: usize,
}

// ---------------------------------------------------------------------------
// Views
// ---------------------------------------------------------------------------

/// Lists by name as mathematical values.
pub open spec fn policy_view(v: Seq<(String, Vec<String>)>) -> Seq<(Seq<char>, Seq<Seq<char>>)> {
    Seq::new(v.len(), |i: int| (v[i].0@, strings_view(v[i].1@)))
}

fn copy_policy(list: &Vec<(String, Vec<String>)>) -> (r: Vec<(String, Vec<String>)>)
    ensures
        policy_view(r@) == policy_view(list@),
{
    let mut r: Vec<(String, Vec<String>)> = Vec::new();
    let mut i: usize = 0;
    while i < list.len()
        invariant
            i <= list@.len(),
            policy_view(r@) == policy_view(list@).take(i as int),
        decreases list@.len() - i,
    {
        let ghost before = policy_view(r@);
        r.push((owned(list[i].0.as_str()), copy_strings(&list[i].1)));
        proof {
            assert(policy_view(r@) =~= before.push(policy_view(list@)[i as int]));
            assert(policy_view(r@) =~= policy_view(list@).take(i + 1));
        }
        i = i + 1;
    }
    proof {
        assert(policy_view(list@).take(i as int) =~= policy_view(list@));
    }
    r
}

// ---------------------------------------------------------------------------
// Traffic and connections
// ---------------------------------------------------------------------------

impl TrafficStatsDto {
    /// No traffic yet.
    pub fn new() -> (r: Self)
        ensures
            r == (TrafficStatsDto {
                upload: 0,
                download: 0,
                total_upload: 0,
                total_download: 0,
                connection_count: 0,
                uptime_secs: 0,
            }),
    {
        TrafficStatsDto {
            upload: 0,
            download: 0,
            total_upload: 0,
            total_download: 0,
            connection_count: 0,
            uptime_secs: 0,
        }
    }

    /// The counters of the engine, which are also the totals.
    pub fn from_traffic(
        upload: u64,
        download: u64,
        connection_count: u32,
        uptime_secs: u64,
    ) -> (r: Self)
        ensures
            r == (TrafficStatsDto {
                upload,
                download,
                total_upload: upload,
                total_download: download,
                connection_count,
                uptime_secs,
            }),
    {
        TrafficStatsDto {
            upload,
            download,
            total_upload: upload,
            total_download: download,
            connection_count,
            uptime_secs,
        }
    }
}

impl Default for TrafficStatsDto {
    fn default() -> (r: Self)
        ensures
            r == (TrafficStatsDto {
                upload: 0,
                download: 0,
                total_upload: 0,
                total_download: 0,
                connection_count: 0,
                uptime_secs: 0,
            }),
    {
        TrafficStatsDto::new()
    }
}

impl ConnectionDto {
    /// A connection of these parts.
    #[allow(clippy::too_many_arguments)]
    pub fn new(
        id: String,
        src_addr: String,
        dst_addr: String,
        dst_domain: Option<String>,
        protocol: String,
        outbound: String,
        upload: u64,
        download: u64,
        start_time: i64,
        rule: Option<String>,
    ) -> (r: Self)
        ensures
            r == (ConnectionDto {
                id,
                src_addr,
                dst_addr,
                dst_domain,
                protocol,
                outbound,
                upload,
                download,
                start_time,
                rule,
            }),
    {
        ConnectionDto {
            id,
            src_addr,
            dst_addr,
            dst_domain,
            protocol,
            outbound,
            upload,
            download,
            start_time,
            rule,
        }
    }

    /// A connection as the engine tracks it.
    pub fn from_tracked_connection(conn: &TrackedConnection) -> (r: Self)
        ensures
            r.id@ == conn.id@,
            r.src_addr@ == conn.host@ + ":"@ + decimal(conn.destination_port as nat),
            r.dst_addr@ == match conn.destination_ip {
                Some(ip) => ip@,
                None => Seq::empty(),
            },
            opt_text(r.dst_domain) == Some(conn.host@),
            r.protocol@ == conn.protocol@,
            r.outbound@ == conn.outbound_tag@,
            r.upload == conn.upload,
            r.download == conn.download,
            r.start_time == conn.start_timestamp as i64,
            opt_text(r.rule) == Some(conn.rule@),
    {
        let mut src_addr = concat(&conn.host, ":");
        push_decimal(&mut src_addr, conn.destination_port as u64);
        let dst_addr = match &conn.destination_ip {
            Some(ip) => owned(ip.as_str()),
            None => String::new(),
        };
        ConnectionDto {
            id: owned(&conn.id),
            src_addr,
            dst_addr,
            dst_domain: Some(owned(&conn.host)),
            protocol: owned(&conn.protocol),
            outbound: owned(&conn.outbound_tag),
            upload: conn.upload,
            download: conn.download,
            start_time: #[verifier::truncate]
            (conn.start_timestamp as i64),
            rule: Some(owned(&conn.rule)),
        }
    }
}

// ---------------------------------------------------------------------------
// Proxies, groups and rules
// ---------------------------------------------------------------------------

impl ProxyInfoDto {
    /// A proxy that no test has been made of.
    pub fn new(
        tag: String,
        protocol_type: String,
        server: Option<String>,
        port: Option<u16>,
    ) -> (r: Self)
        ensures
            r == (ProxyInfoDto {
                tag,
                protocol_type,
                server,
                port,
                latency_ms: None,
                alive: true,
            }),
    {
        ProxyInfoDto { tag, protocol_type, server, port, latency_ms: None, alive: true }
    }

    /// The proxy with a latency.
    pub fn with_latency(self, latency_ms: Option<u64>) -> (r: Self)
        ensures
            r == (ProxyInfoDto { latency_ms, ..self }),
    {
        let mut r = self;
        r.latency_ms = latency_ms;
        r
    }

    /// The proxy, said to be alive or not.
    pub fn with_alive(self, alive: bool) -> (r: Self)
        ensures
            r == (ProxyInfoDto { alive, ..self }),
    {
        let mut r = self;
        r.alive = alive;
        r
    }

    /// An outbound as the engine is configured with it.
    pub fn from_outbound_config(config: &crate::engine::OutboundConfig) -> (r: Self)
        ensures
            r.tag@ == config.tag@,
            r.protocol_type@ == config.outbound_type@,
            opt_text(r.server) == opt_text(config.server),
            r.port == config.port,
            r.latency_ms is None,
            r.alive,
    {
        ProxyInfoDto {
            tag: owned(&config.tag),
            protocol_type: owned(&config.outbound_type),
            server: copy_opt(&config.server),
            port: config.port,
            latency_ms: None,
            alive: true,
        }
    }
}

/// The texts among values.
pub open spec fn texts_among(items: Seq<JsonView>) -> Seq<Seq<char>>
    decreases items.len(),
{
    if items.len() == 0 {
        Seq::empty()
    } else {
        match items.last() {
            JsonView::Text(s) => texts_among(items.drop_last()).push(s),
            _ => texts_among(items.drop_last()),
        }
    }
}

/// The members that the options of a group name.
pub open spec fn group_members(options: JsonView) -> Seq<Seq<char>> {
    match options.get("proxies"@) {
        Some(JsonView::Array(items)) => texts_among(items),
        _ => Seq::empty(),
    }
}

fn collect_texts(items: &Vec<Json>) -> (r: Vec<String>)
    ensures
        strings_view(r@) == texts_among(items_view(items@)),
{
    let ghost all = items_view(items@);
    let mut r: Vec<String> = Vec::new();
    let mut i: usize = 0;
    proof {
        assert(strings_view(r@) =~= Seq::empty());
    }
    while i < items.len()
        invariant
            i <= items@.len(),
            all == items_view(items@),
            strings_view(r@) == texts_among(all.take(i as int)),
        decreases items@.len() - i,
    {
        let ghost before = strings_view(r@);
        proof {
            assert(all.take(i + 1).drop_last() =~= all.take(i as int));
            assert(all.take(i + 1).last() == items@[i as int]@);
        }
        if let Json::Text(s) = &items[i] {
            r.push(owned(s.as_str()));
            proof {
                assert(strings_view(r@) =~= before.push(s@));
            }
        }
        i = i + 1;
    }
    proof {
        assert(all.take(i as int) =~= all);
    }
    r
}

fn read_members(options: &Json) -> (r: Vec<String>)
    ensures
        strings_view(r@) == group_members(options@),
{
    if let Some(v) = options.get("proxies") {
        proof {
            lemma_json_view(*v);
        }
        if let Json::Array(items) = v {
            return collect_texts(items);
        }
    }
    let r: Vec<String> = Vec::new();
    proof {
        assert(strings_view(r@) =~= Seq::empty());
    }
    r
}

impl ProxyGroupDto {
    /// A group of these parts.
    pub fn new(
        tag: String,
        group_type: String,
        proxies: Vec<String>,
        selected: String,
    ) -> (r: Self)
        ensures
            r == (ProxyGroupDto { tag, group_type, proxies, selected }),
    {
        ProxyGroupDto { tag, group_type, proxies, selected }
    }

    /// A group as the engine is configured with it, its first member selected. What is no
    /// group gives none.
    pub fn from_outbound_config(config: &crate::engine::OutboundConfig) -> (r: Option<Self>)
        ensures
            r is Some <==> config.is_group,
            r matches Some(g) ==> {
                &&& g.tag@ == config.tag@
                &&& g.group_type@ == config.outbound_type@
                &&& strings_view(g.proxies@) == group_members(config.options@)
                &&& g.selected@ == if group_members(config.options@).len() > 0 {
                    group_members(config.options@)[0]
                } else {
                    Seq::empty()
                }
            },
    {
        if !config.is_group {
            return None;
        }
        let proxies = read_members(&config.options);
        let selected = if proxies.len() > 0 {
            owned(proxies[0].as_str())
        } else {
            String::new()
        };
        proof {
            if proxies@.len() > 0 {
                assert(strings_view(proxies@)[0] == proxies@[0]@);
            } else {
                assert(selected@ =~= Seq::empty());
            }
        }
        Some(
            ProxyGroupDto {
                tag: owned(&config.tag),
                group_type: owned(&config.outbound_type),
                proxies,
                selected,
            },
        )
    }
}

impl ProxyLatencyDto {
    /// A test that succeeded.
    pub fn success(tag: String, latency_ms: u64) -> (r: Self)
        ensures
            r == (ProxyLatencyDto { tag, latency_ms: Some(latency_ms), error: None }),
    {
        ProxyLatencyDto { tag, latency_ms: Some(latency_ms), error: None }
    }

    /// A test that failed.
    pub fn failure(tag: String, error: String) -> (r: Self)
        ensures
            r == (ProxyLatencyDto { tag, latency_ms: None, error: Some(error) }),
    {
        ProxyLatencyDto { tag, latency_ms: None, error: Some(error) }
    }
}

impl RuleDto {
    /// A rule that has matched nothing yet.
    pub fn new(rule_type: String, payload: String, outbound: String) -> (r: Self)
        ensures
            r == (RuleDto { rule_type, payload, outbound, matched_count: 0 }),
    {
        RuleDto { rule_type, payload, outbound, matched_count: 0 }
    }

    /// The rule with a number of matches.
    pub fn with_matched_count(self, count: u64) -> (r: Self)
        ensures
            r == (RuleDto { matched_count: count, ..self }),
    {
        let mut r = self;
        r.matched_count = count;
        r
    }

    /// A rule as the engine is configured with it.
    pub fn from_rule_config(config: &crate::engine::RuleConfig) -> (r: Self)
        ensures
            r.rule_type@ == config.rule_type@,
            r.payload@ == config.payload@,
            r.outbound@ == config.outbound@,
            r.matched_count == 0,
    {
        RuleDto {
            rule_type: owned(&config.rule_type),
            payload: owned(&config.payload),
            outbound: owned(&config.outbound),
            matched_count: 0,
        }
    }
}

// ---------------------------------------------------------------------------
// Name resolution
// ---------------------------------------------------------------------------

impl DnsFallbackFilterDto {
    /// Whether nothing is filtered.
    pub open spec fn is_blank(self) -> bool {
        self.geoip is None && self.geoip_code is None && self.ipcidr@.len() == 0
            && self.domain@.len() == 0
    }
}

impl Default for DnsFallbackFilterDto {
    fn default() -> (r: Self)
        ensures
            r.is_blank(),
    {
        DnsFallbackFilterDto {
            geoip: None,
            geoip_code: None,
            ipcidr: Vec::new(),
            domain: Vec::new(),
        }
    }
}

impl DnsConfigDto {
    /// What is not given is as the engine has it by default.
    pub open spec fn is_default_but(
        self,
        enable: bool,
        listen: Seq<char>,
        enhanced_mode: Seq<char>,
        nameservers: Seq<Seq<char>>,
        fallback: Seq<Seq<char>>,
    ) -> bool {
        &&& self.enable == enable
        &&& self.listen@ == listen
        &&& self.enhanced_mode@ == enhanced_mode
        &&& strings_view(self.nameservers@) == nameservers
        &&& strings_view(self.fallback@) == fallback
        &&& self.nameserver_policy@.len() == 0
        &&& self.default_nameserver@.len() == 0
        &&& self.fallback_filter.is_blank()
        &&& self.fake_ip_range@ == "198.18.0.1/16"@
        &&& self.fake_ip_filter@.len() == 0
        &&& self.fake_ip_ttl == 10
        &&& self.host_count == 0
        &&& self.use_hosts
        &&& self.cache_size == 4096
    }

    /// Settings of these parts, the rest as the engine has it by default.
    pub fn new(
        enable: bool,
        listen: String,
        enhanced_mode: String,
        nameservers: Vec<String>,
        fallback: Vec<String>,
    ) -> (r: Self)
        ensures
            r.is_default_but(
                enable,
                listen@,
                enhanced_mode@,
                strings_view(nameservers@),
                strings_view(fallback@),
            ),
    {
        DnsConfigDto {
            enable,
            listen,
            enhanced_mode,
            nameservers,
            fallback,
            nameserver_policy: Vec::new(),
            default_nameserver: Vec::new(),
            fallback_filter: DnsFallbackFilterDto::default(),
            fake_ip_range: owned("198.18.0.1/16"),
            fake_ip_filter: Vec::new(),
            fake_ip_ttl: 10,
            host_count: 0,
            use_hosts: true,
            cache_size: 4096,
        }
    }

    /// The settings as the engine is configured with them.
    pub fn from_dns_config(config: &crate::engine::DnsConfig) -> (r: Self)
        ensures
            r.enable == config.enable,
            r.listen@ == config.listen@,
            r.enhanced_mode@ == config.enhanced_mode@,
            strings_view(r.nameservers@) == strings_view(config.nameservers@),
            strings_view(r.fallback@) == strings_view(config.fallback@),
            policy_view(r.nameserver_policy@) == policy_view(config.nameserver_policy@),
            strings_view(r.default_nameserver@) == strings_view(config.default_nameserver@),
            r.fallback_filter.geoip == Some(config.fallback_filter.geoip),
            opt_text(r.fallback_filter.geoip_code) == Some(config.fallback_filter.geoip_code@),
            strings_view(r.fallback_filter.ipcidr@) == strings_view(config.fallback_filter.ipcidr@),
            strings_view(r.fallback_filter.domain@) == strings_view(config.fallback_filter.domain@),
            r.fake_ip_range@ == config.fake_ip_range@,
            strings_view(r.fake_ip_filter@) == strings_view(config.fake_ip_filter@),
            r.fake_ip_ttl == config.fake_ip_ttl,
            r.host_count == config.hosts@.len(),
            r.use_hosts == config.use_hosts,
            r.cache_size == config.cache_size,
    {
        DnsConfigDto {
            enable: config.enable,
            listen: owned(&config.listen),
            enhanced_mode: owned(&config.enhanced_mode),
            nameservers: copy_strings(&config.nameservers),
            fallback: copy_strings(&config.fallback),
            nameserver_policy: copy_policy(&config.nameserver_policy),
            default_nameserver: copy_strings(&config.default_nameserver),
            fallback_filter: DnsFallbackFilterDto {
                geoip: Some(config.fallback_filter.geoip),
                geoip_code: Some(owned(&config.fallback_filter.geoip_code)),
                ipcidr: copy_strings(&config.fallback_filter.ipcidr),
                domain: copy_strings(&config.fallback_filter.domain),
            },
            fake_ip_range: owned(&config.fake_ip_range),
            fake_ip_filter: copy_strings(&config.fake_ip_filter),
            fake_ip_ttl: config.fake_ip_ttl,
            host_count: config.hosts.len(),
            use_hosts: config.use_hosts,
            cache_size: config.cache_size,
        }
    }
}

impl Default for DnsConfigDto {
    fn default() -> (r: Self)
        ensures
            r.is_default_but(
                false,
                "127.0.0.1:53"@,
                "redir-host"@,
                seq!["8.8.8.8"@, "1.1.1.1"@],
                Seq::empty(),
            ),
    {
        let nameservers = vec![owned("8.8.8.8"), owned("1.1.1.1")];
        let fallback: Vec<String> = Vec::new();
        proof {
            assert(strings_view(nameservers@) =~= seq!["8.8.8.8"@, "1.1.1.1"@]);
            assert(strings_view(fallback@) =~= Seq::empty());
        }
        DnsConfigDto::new(
            false,
            owned("127.0.0.1:53"),
            owned("redir-host"),
            nameservers,
            fallback,
        )
    }
}

} // verus!
