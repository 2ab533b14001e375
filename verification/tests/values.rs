//! JSON values and the values that cross the control surface.

use corduit::engine;
use corduit::json::{insert, Json};
use corduit::types::{
    ConnectionDto, DnsConfigDto, DnsFallbackFilterDto, ProxyGroupDto, ProxyInfoDto,
    ProxyLatencyDto, RuleDto, TrafficStatsDto,
};

fn strings(list: &[&str]) -> Vec<String> {
    list.iter().map(|s| s.to_string()).collect()
}

#[test]
fn an_entry_is_replaced_in_its_place() {
    let mut entries: Vec<(String, Json)> = Vec::new();
    insert(&mut entries, "a", Json::Uint(1));
    insert(&mut entries, "b", Json::Uint(2));
    insert(&mut entries, "a", Json::Uint(3));
    assert_eq!(entries.len(), 2);
    assert_eq!(entries[0].0, "a");
    let object = Json::object(entries);
    assert_eq!(object.get("a").and_then(|v| v.as_u64()), Some(3));
    assert_eq!(object.get("b").and_then(|v| v.as_u64()), Some(2));
    assert!(object.get("c").is_none());
    assert_eq!(format!("{:?}", object.copy()), format!("{object:?}"));
}

#[test]
fn numbers_convert_where_they_fit() {
    assert_eq!(Json::Uint(u64::MAX).as_i64(), None);
    assert_eq!(Json::Int(-1).as_u64(), None);
    assert_eq!(Json::Int(-1).as_i64(), Some(-1));
    let wide = Json::Wide { signed: Some(2), unsigned: Some(2), text: "2.5".to_string() };
    assert_eq!(wide.as_u64(), Some(2));
    assert_eq!(Json::Bool(true).as_u64(), None);
}

#[test]
fn traffic_starts_at_zero_and_totals_follow() {
    let stats = TrafficStatsDto::new();
    assert_eq!((stats.upload, stats.total_download, stats.uptime_secs), (0, 0, 0));
    let stats = TrafficStatsDto::from_traffic(5, 6, 7, 8);
    assert_eq!((stats.total_upload, stats.total_download), (5, 6));
    assert_eq!((stats.connection_count, stats.uptime_secs), (7, 8));
    assert_eq!(TrafficStatsDto::default().upload, 0);
}

#[test]
fn a_tracked_connection_is_told_by_its_destination() {
    let conn = engine::TrackedConnection {
        id: "c".to_string(),
        host: "example.com".to_string(),
        destination_ip: None,
        destination_port: 443,
        protocol: "tcp".to_string(),
        outbound_tag: "p".to_string(),
        upload: 1,
        download: 2,
        start_timestamp: u64::MAX,
        rule: "MATCH".to_string(),
    };
    let dto = ConnectionDto::from_tracked_connection(&conn);
    assert_eq!(dto.src_addr, "example.com:443");
    assert_eq!(dto.dst_addr, "");
    assert_eq!(dto.dst_domain.as_deref(), Some("example.com"));
    assert_eq!(dto.start_time, -1);
    assert_eq!(dto.rule.as_deref(), Some("MATCH"));
    let dto = ConnectionDto::new(
        "i".into(), "s".into(), "d".into(), None, "udp".into(), "o".into(), 1, 2, 3, None,
    );
    assert_eq!((dto.id.as_str(), dto.upload, dto.start_time), ("i", 1, 3));
}

#[test]
fn only_a_group_gives_a_group() {
    let options = Json::object(vec![(
        "proxies".to_string(),
        Json::array(vec![Json::text("a"), Json::Uint(1), Json::text("b")]),
    )]);
    let mut config = engine::OutboundConfig {
        tag: "G".to_string(),
        outbound_type: "url-test".to_string(),
        is_group: true,
        server: None,
        port: None,
        options,
    };
    let group = ProxyGroupDto::from_outbound_config(&config).expect("a group");
    assert_eq!(group.group_type, "url-test");
    assert_eq!(group.proxies, strings(&["a", "b"]));
    assert_eq!(group.selected, "a");
    config.options = Json::Null;
    let group = ProxyGroupDto::from_outbound_config(&config).expect("a group");
    assert!(group.proxies.is_empty() && group.selected.is_empty());
    config.is_group = false;
    assert!(ProxyGroupDto::from_outbound_config(&config).is_none());
    config.server = Some("s".to_string());
    config.port = Some(9);
    let proxy = ProxyInfoDto::from_outbound_config(&config);
    assert_eq!((proxy.server.as_deref(), proxy.port, proxy.alive), (Some("s"), Some(9), true));
}

#[test]
fn builders_change_one_field() {
    let proxy = ProxyInfoDto::new("t".into(), "trojan".into(), None, Some(1))
        .with_latency(Some(20))
        .with_alive(false);
    assert_eq!((proxy.latency_ms, proxy.alive, proxy.port), (Some(20), false, Some(1)));
    let rule = RuleDto::new("DOMAIN".into(), "x".into(), "p".into()).with_matched_count(4);
    assert_eq!((rule.matched_count, rule.payload.as_str()), (4, "x"));
    let rule = RuleDto::from_rule_config(&engine::RuleConfig {
        rule_type: "match".into(),
        payload: "".into(),
        outbound: "d".into(),
    });
    assert_eq!((rule.rule_type.as_str(), rule.matched_count), ("match", 0));
    assert_eq!(ProxyLatencyDto::success("t".into(), 5).latency_ms, Some(5));
    assert_eq!(ProxyLatencyDto::failure("t".into(), "e".into()).error.as_deref(), Some("e"));
    let group = ProxyGroupDto::new("g".into(), "select".into(), strings(&["a"]), "a".into());
    assert_eq!(group.selected, "a");
}

#[test]
fn name_resolution_has_defaults() {
    let dns = DnsConfigDto::default();
    assert_eq!(dns.listen, "127.0.0.1:53");
    assert_eq!(dns.enhanced_mode, "redir-host");
    assert_eq!(dns.nameservers, strings(&["8.8.8.8", "1.1.1.1"]));
    assert_eq!(dns.fake_ip_range, "198.18.0.1/16");
    assert_eq!((dns.fake_ip_ttl, dns.cache_size, dns.use_hosts), (10, 4096, true));
    assert!(DnsFallbackFilterDto::default().geoip.is_none());
    let config = engine::DnsConfig {
        enable: true,
        listen: "0.0.0.0:53".into(),
        enhanced_mode: "fake-ip".into(),
        nameservers: strings(&["9.9.9.9"]),
        fallback: Vec::new(),
        nameserver_policy: vec![("lan".into(), strings(&["10.0.0.1"]))],
        default_nameserver: Vec::new(),
        fallback_filter: engine::FallbackFilter {
            geoip: true,
            geoip_code: "CN".into(),
            ipcidr: strings(&["240.0.0.0/4"]),
            domain: Vec::new(),
        },
        fake_ip_range: "198.18.0.0/15".into(),
        fake_ip_filter: strings(&["*.lan"]),
        fake_ip_ttl: 1,
        hosts: vec![("a".into(), "1.2.3.4".into())],
        use_hosts: false,
        cache_size: 7,
    };
    let dns = DnsConfigDto::from_dns_config(&config);
    assert_eq!((dns.enable, dns.host_count, dns.cache_size), (true, 1, 7));
    assert_eq!(dns.nameserver_policy, vec![("lan".to_string(), strings(&["10.0.0.1"]))]);
    assert_eq!(dns.fallback_filter.geoip, Some(true));
    assert_eq!(dns.fallback_filter.geoip_code.as_deref(), Some("CN"));
}
