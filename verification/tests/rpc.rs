//! The control surface: calls, the external controller and the JSON-RPC server.

use corduit::json::{parse_json, print_json, read_json, Json};
use corduit::net::SocketAddr;
use corduit::rpc::args::Args;
use corduit::rpc::calendar::{civil_from_days, epoch_to_rfc3339};
use corduit::rpc::controller::{
    authorized, delay_timeout_ms, mode_name, route, rule_type_name, runtime_mode, split_host_port,
    ExternalControllerConfig, Route, DEFAULT_DELAY_TIMEOUT_MS, DEFAULT_DELAY_URL,
};
use corduit::rpc::conversation::{configs_reply, memory_reply, parse_body, step, Reply, Step};
use corduit::rpc::server::{
    check_bind, check_upgrade, encode_response, headers, judge, payload_text, read_request,
    response_text, Verdict, MAX_REQUEST_BODY,
};
use corduit::rpc::shapes::{connection_entry, proxy_table, GeneralSnapshot};
use corduit::rpc::uri::{parse_number, percent_decode, query_value, segments};
use corduit::rpc::{dispatch, params, Arg, ParamKind, CORDUIT_API_VERSION, CORDUIT_METHODS};

const SECRET: &str = "s3cret-token";

fn text(s: &str) -> Json {
    Json::text(s)
}

fn object(entries: Vec<(&str, Json)>) -> Json {
    Json::object(entries.into_iter().map(|(k, v)| (k.to_string(), v)).collect())
}

/// The library's value of a JSON text.
fn parse(source: &str) -> Json {
    parse_json(source).expect("valid JSON")
}

fn str_at<'a>(value: &'a Json, key: &str) -> Option<&'a str> {
    value.get(key).and_then(|v| v.as_str())
}

/// Route a request with the secret presented as given.
fn routed(method: &str, path: &str, presented: Option<&str>, secret: &str) -> Route {
    let header = presented.map(|s| format!("Bearer {s}"));
    route(method, path, "", header.as_deref(), secret)
}

/// What is answered without any call.
fn answer(route: &Route, body: Option<&Json>) -> Reply {
    match step(route, body, &Vec::new(), 1_700_000_000) {
        Step::Done(reply) => reply,
        other => panic!("expected an answer, got {other:?}"),
    }
}

/// What is asked first.
fn asked(route: &Route, body: Option<&Json>, said: &Vec<Result<Json, String>>) -> (String, Json) {
    match step(route, body, said, 1_700_000_000) {
        Step::Ask { method, params } => (method.to_string(), params),
        other => panic!("expected a call, got {other:?}"),
    }
}

fn finished(route: &Route, body: Option<&Json>, said: &Vec<Result<Json, String>>) -> Reply {
    match step(route, body, said, 1_700_000_000) {
        Step::Done(reply) => reply,
        other => panic!("expected an answer, got {other:?}"),
    }
}

fn message(reply: &Reply) -> &str {
    str_at(reply.body.as_ref().expect("a body"), "message").expect("a message")
}

// -- calls -----------------------------------------------------------------

#[test]
fn dispatch_rejects_unknown_method() {
    let result = dispatch("no_such_method", &Json::Null);
    assert!(result.is_err());
    assert_eq!(result.err().unwrap(), "unknown method 'no_such_method'");
}

#[test]
fn args_parse_named_arguments() {
    let value = parse(r#"{"tag":"proxy-1","test_url":"http://example.com","timeout_ms":1000}"#);
    let args = Args(&value);
    assert_eq!(args.string("tag").unwrap(), "proxy-1");
    assert_eq!(args.u64("timeout_ms").unwrap(), 1000);
    assert!(args.string("missing").is_err());
    assert!(args.u16("tag").is_err());
}

#[test]
fn args_parse_proxies_array() {
    let value =
        parse(r#"{"proxies":[{"server":"a.com","port":443},{"server":"b.com","port":80}]}"#);
    let args = Args(&value);
    let proxies = args.proxies("proxies").unwrap();
    assert_eq!(proxies, vec![("a.com".into(), 443), ("b.com".into(), 80)]);
}

#[test]
fn every_declared_method_is_dispatched() {
    let value = Json::Null;
    for method in CORDUIT_METHODS {
        let result = dispatch(method, &value);
        if let Err(e) = result {
            assert!(
                !e.starts_with("unknown method"),
                "declared method '{method}' is missing from dispatch: {e}"
            );
        }
    }
}

#[test]
fn api_version_is_semver_like() {
    assert!(CORDUIT_API_VERSION.split('.').count() >= 2, "expected semver-ish string");
}

#[test]
fn every_kind_of_argument_is_checked() {
    let value = parse(
        r#"{"n":70000,"neg":-3,"big":5000000000,"flag":true,"none":null,
            "bad":[1],"noserver":[{"port":1}],"noport":[{"server":"a","port":70000}]}"#,
    );
    let args = Args(&value);
    assert_eq!(args.u16("n").err().unwrap(), "argument 'n' must be an integer in u16 range");
    assert_eq!(args.u32("n").unwrap(), 70000);
    assert_eq!(args.u32("big").err().unwrap(), "argument 'big' must be an integer in u32 range");
    assert_eq!(args.opt_u32("none").unwrap(), None);
    assert_eq!(args.opt_u32("absent").unwrap(), None);
    assert_eq!(args.opt_u32("n").unwrap(), Some(70000));
    assert_eq!(
        args.opt_u32("flag").err().unwrap(),
        "argument 'flag' must be an integer in u32 range"
    );
    assert_eq!(args.u64("neg").err().unwrap(), "argument 'neg' must be an unsigned integer");
    assert_eq!(args.i32("neg").unwrap(), -3);
    assert_eq!(args.i32("big").err().unwrap(), "argument 'big' must be an integer in i32 range");
    assert!(args.bool("flag").unwrap());
    assert_eq!(args.bool("n").err().unwrap(), "argument 'n' must be a boolean");
    assert_eq!(args.bool("absent").err().unwrap(), "missing argument 'absent'");
    assert_eq!(args.string("n").err().unwrap(), "argument 'n' must be a string");
    assert_eq!(args.opt_string("none").unwrap(), None);
    assert_eq!(args.opt_string("n").err().unwrap(), "argument 'n' must be a string");
    assert_eq!(
        args.proxies("flag").err().unwrap(),
        "argument 'flag' must be an array of objects"
    );
    assert_eq!(args.proxies("noserver").err().unwrap(), "proxy entry missing string 'server'");
    assert_eq!(args.proxies("noport").err().unwrap(), "proxy 'a' missing 'port' in u16 range");
}

#[test]
fn a_call_carries_its_arguments_in_order() {
    let value = parse(
        r#"{"timeout_ms":250,"cipher":"aes-256-gcm","password":"pw","port":8388,"server":"s"}"#,
    );
    let call = dispatch("test_shadowsocks_latency", &value).unwrap();
    assert_eq!(call.method, "test_shadowsocks_latency");
    assert!(matches!(
        call.args.as_slice(),
        [Arg::Text(s), Arg::U16(8388), Arg::Text(p), Arg::Text(c), Arg::U32(250)]
            if s == "s" && p == "pw" && c == "aes-256-gcm"
    ));
    let call = dispatch("start_rpc_server", &parse(r#"{"port":8000}"#)).unwrap();
    assert!(matches!(call.args.as_slice(), [Arg::U16(8000), Arg::OptText(None)]));
    let call = dispatch("set_ios_vpn_fd", &parse(r#"{"fd":7}"#)).unwrap();
    assert!(matches!(call.args.as_slice(), [Arg::I32(7)]));
    let call = dispatch("get_version", &Json::Null).unwrap();
    assert!(call.args.is_empty());
    assert_eq!(
        dispatch("select_proxy", &parse(r#"{"group_tag":"G"}"#)).err().unwrap(),
        "missing argument 'proxy_tag'"
    );
}

#[test]
fn the_parameters_of_a_method_can_be_listed() {
    let list = params("test_proxy_latency").unwrap();
    assert_eq!(list.len(), 3);
    assert_eq!(list[0].name, "server");
    assert_eq!(list[0].kind, ParamKind::Text);
    assert_eq!(list[1].kind, ParamKind::U16);
    assert_eq!(list[2].kind, ParamKind::U32);
    assert!(params("stop_proxy").unwrap().is_empty());
    assert!(params("").is_none());
    assert_eq!(CORDUIT_METHODS.len(), 75);
}

// -- configuration of the controller ------------------------------------------

#[test]
fn bare_port_means_every_interface() {
    let config = ExternalControllerConfig::parse("9090", None).expect("parse");
    assert_eq!(config.addr.text(), "0.0.0.0:9090");
    assert!(!config.secret_required());
    // ...and that is exactly the configuration that must be refused.
    assert!(config.guard().is_err());
}

#[test]
fn colon_port_means_every_interface() {
    let config = ExternalControllerConfig::parse(":9090", None).expect("parse");
    assert_eq!(config.addr.text(), "0.0.0.0:9090");
    assert!(config.guard().is_err());
}

#[test]
fn a_secret_permits_a_public_bind() {
    let config = ExternalControllerConfig::parse("0.0.0.0:9090", Some("hunter2")).expect("parse");
    assert_eq!(config.addr.text(), "0.0.0.0:9090");
    assert!(config.secret_required());
    assert!(config.guard().is_ok());
}

#[test]
fn loopback_without_a_secret_is_allowed() {
    let config = ExternalControllerConfig::parse("127.0.0.1:9090", None).expect("parse");
    assert!(config.guard().is_ok());

    let config = ExternalControllerConfig::parse("[::1]:9090", None).expect("parse");
    assert!(config.guard().is_ok(), "IPv6 loopback is loopback");
}

#[test]
fn host_names_are_not_addresses() {
    let error = ExternalControllerConfig::parse("localhost:9090", None).expect_err("must fail");
    assert!(error.contains("host:port"), "{error}");
    assert_eq!(error, "external-controller `localhost:9090` is not a host:port address");
}

#[test]
fn an_empty_external_controller_is_refused() {
    assert!(ExternalControllerConfig::parse("   ", None).is_err());
}

#[test]
fn binding_a_public_address_without_a_secret_is_refused() {
    let config = ExternalControllerConfig::parse("0.0.0.0:0", None).expect("parse");
    let error = config.guard().expect_err("a public bind without a secret must be refused");
    assert!(error.contains("without a secret"), "{error}");
}

#[test]
fn addresses_keep_their_scope_and_brackets() {
    let config = ExternalControllerConfig::parse(" [fe80::1%3]:53 ", Some("x")).expect("parse");
    assert_eq!(config.addr.text(), "[fe80::1%3]:53");
    assert!(!config.addr.is_loopback());
    let config = ExternalControllerConfig::parse("[::1]:80", None).expect("parse");
    assert_eq!(config.addr.text(), "[::1]:80");
    assert!(SocketAddr::V4([127, 9, 9, 9], 1).is_loopback());
}

// -- authentication --------------------------------------------------------

#[test]
fn a_request_without_the_secret_is_rejected() {
    let reply = answer(&routed("GET", "/version", None, SECRET), None);
    assert_eq!(reply.status, 401);
    assert!(message(&reply).contains("unauthorized"));
}

#[test]
fn a_wrong_secret_is_rejected() {
    let reply = answer(&routed("GET", "/version", Some("wrong"), SECRET), None);
    assert_eq!(reply.status, 401);
}

#[test]
fn a_bare_secret_header_is_accepted() {
    assert!(!authorized(None, SECRET));
    assert!(authorized(Some(SECRET), SECRET));
    assert!(authorized(Some("  s3cret-token "), SECRET));
    assert!(authorized(Some("Bearer   s3cret-token"), SECRET));
    let found = route("GET", "/version", "", Some(SECRET), SECRET);
    assert_eq!(asked(&found, None, &Vec::new()).0, "get_version");
}

#[test]
fn an_empty_secret_serves_without_a_header() {
    let found = routed("GET", "/version", None, "");
    let reply = finished(&found, None, &vec![Ok(text("1.2.3"))]);
    assert_eq!(reply.status, 200);
}

#[test]
fn a_preflight_is_answered_without_a_secret() {
    let reply = answer(&routed("OPTIONS", "/proxies", None, SECRET), None);
    assert_eq!(reply.status, 204, "a preflight carries no credentials by design");
    assert!(reply.body.is_none());
    assert_eq!(reply.headers().len(), 4);
    assert!(reply.headers().contains(&(
        "access-control-allow-methods",
        "GET, POST, PUT, PATCH, DELETE, OPTIONS"
    )));
}

// -- routing -----------------------------------------------------------------

#[test]
fn an_unknown_path_is_not_found() {
    let reply = answer(&routed("GET", "/providers/proxies", Some(SECRET), SECRET), None);
    assert_eq!(reply.status, 404);
    assert_eq!(message(&reply), "not found");
}

#[test]
fn an_unrouted_method_is_not_found() {
    let body = object(vec![]);
    let reply = answer(&routed("POST", "/proxies", Some(SECRET), SECRET), Some(&body));
    assert_eq!(reply.status, 404);
}

#[test]
fn the_index_lists_the_routes() {
    // `GET /` has an empty segment list.
    let reply = answer(&routed("GET", "/", Some(SECRET), SECRET), None);
    assert_eq!(reply.status, 200);
    match reply.body.as_ref().and_then(|b| b.get("routes")) {
        Some(Json::Array(routes)) => {
            assert_eq!(routes.len(), 14);
            assert!(routes.iter().any(|r| r.as_str() == Some("GET /traffic")));
        }
        other => panic!("no routes: {other:?}"),
    }
}

#[test]
fn paths_are_split_and_decoded() {
    assert_eq!(segments("//proxies//my%20group/delay/"), vec!["proxies", "my group", "delay"]);
    let found = route("GET", "/proxies/my%20group/delay", "timeout=2000&url=http%3A%2F%2Fx", None, "");
    assert!(matches!(
        &found,
        Route::ProxyDelay { name, url, timeout: 2000 } if name == "my group" && url == "http://x"
    ));
    let found = route("GET", "/proxies/a/delay", "", None, "");
    assert!(matches!(
        &found,
        Route::ProxyDelay { url, timeout, .. }
            if url == DEFAULT_DELAY_URL && *timeout == DEFAULT_DELAY_TIMEOUT_MS
    ));
    assert!(matches!(route("DELETE", "/connections/7", "", None, ""), Route::ConnectionClose(id) if id == "7"));
    assert!(matches!(route("DELETE", "/connections", "", None, ""), Route::ConnectionsCloseAll));
    assert!(matches!(route("GET", "/memory", "", None, ""), Route::Memory));
    assert!(matches!(route("PUT", "/proxies/G", "", None, ""), Route::ProxySelect(g) if g == "G"));
}

// -- shapes ----------------------------------------------------------------

#[test]
fn version_reports_no_vendor_extensions() {
    let found = routed("GET", "/version", Some(SECRET), SECRET);
    let reply = finished(&found, None, &vec![Ok(text("9.9"))]);
    let value = reply.body.expect("a body");
    assert_eq!(str_at(&value, "version"), Some("9.9"));
    // No vendor extension is implemented, so neither flag may be set.
    assert_eq!(value.get("meta").and_then(|v| v.as_bool()), Some(false));
    assert_eq!(value.get("premium").and_then(|v| v.as_bool()), Some(false));
    let reply = finished(&found, None, &vec![Err("down".to_string())]);
    assert_eq!(str_at(&reply.body.expect("a body"), "version"), Some("0.2.0"));
}

#[test]
fn mode_translation_round_trips_the_engines_own_numbers() {
    // The engine's runtime numbers are its own: 1 global, 2 direct,
    // 3 rule.
    assert_eq!(runtime_mode("global"), Some(1));
    assert_eq!(runtime_mode("Direct"), Some(2));
    assert_eq!(runtime_mode(" RULE "), Some(3));
    assert_eq!(runtime_mode("config"), None);

    assert_eq!(mode_name(1, "x"), "global");
    assert_eq!(mode_name(2, "x"), "direct");
    assert_eq!(mode_name(3, "x"), "rule");
    // 0 means "no runtime override": report what the configuration says.
    assert_eq!(mode_name(0, "rule"), "rule");
}

#[test]
fn rule_types_use_the_protocol_spelling() {
    assert_eq!(rule_type_name("domain-suffix"), "DOMAIN-SUFFIX");
    assert_eq!(rule_type_name("ip_cidr"), "IP-CIDR");
    assert_eq!(rule_type_name("DOMAIN"), "DOMAIN");
}

#[test]
fn host_port_splitting_handles_ipv6_and_missing_ports() {
    assert_eq!(split_host_port("1.2.3.4:443"), ("1.2.3.4".into(), "443".into()));
    assert_eq!(split_host_port("[::1]:443"), ("::1".into(), "443".into()));
    assert_eq!(split_host_port("1.2.3.4"), ("1.2.3.4".into(), String::new()));
    assert_eq!(split_host_port(""), (String::new(), String::new()));
}

#[test]
fn an_address_with_many_colons_has_no_port() {
    assert_eq!(split_host_port("::1"), ("::1".into(), String::new()));
    assert_eq!(split_host_port("[::1]"), ("[::1]".into(), String::new()));
    assert_eq!(split_host_port("host:"), ("host".into(), String::new()));
}

#[test]
fn epochs_render_as_rfc3339_and_implausible_ones_do_not_render_at_all() {
    assert_eq!(epoch_to_rfc3339(1_000_000_000), "2001-09-09T01:46:40Z");
    assert_eq!(epoch_to_rfc3339(1_700_000_000), "2023-11-14T22:13:20Z");
    assert_eq!(epoch_to_rfc3339(86_400), "", "a duration is not a date");
    assert_eq!(epoch_to_rfc3339(-1), "");
    let seconds = std::time::SystemTime::now()
        .duration_since(std::time::UNIX_EPOCH)
        .map(|elapsed| elapsed.as_secs() as i64)
        .unwrap_or_default();
    let now = epoch_to_rfc3339(seconds);
    assert!(now.starts_with("20"), "{now}");
    assert!(now.ends_with('Z'), "{now}");
}

#[test]
fn the_calendar_knows_its_leap_years() {
    assert_eq!(civil_from_days(0), (1970, 1, 1));
    assert_eq!(civil_from_days(-1), (1969, 12, 31));
    assert_eq!(civil_from_days(11_016), (2000, 2, 29));
    assert_eq!(civil_from_days(11_017), (2000, 3, 1));
    assert_eq!(civil_from_days(47_540), (2100, 2, 28));
    assert_eq!(civil_from_days(47_541), (2100, 3, 1));
    assert_eq!(civil_from_days(-719_528), (0, 1, 1));
    assert_eq!(civil_from_days(-719_529), (-1, 12, 31));
    assert_eq!(epoch_to_rfc3339(253_402_300_800), "10000-01-01T00:00:00Z");
}

#[test]
fn percent_decoding_handles_names_that_are_user_data() {
    assert_eq!(percent_decode("%E8%8A%82%E7%82%B9"), "节点");
    assert_eq!(percent_decode("my%20group"), "my group");
    assert_eq!(percent_decode("plain"), "plain");
    assert_eq!(percent_decode("bad%2"), "bad%2");
    assert_eq!(percent_decode("bad%zz"), "bad%zz");
}

#[test]
fn what_decodes_to_no_text_is_left_alone() {
    assert_eq!(percent_decode("%ff%20"), "%ff%20");
    assert_eq!(percent_decode("100%25"), "100%");
}

#[test]
fn query_values_are_decoded() {
    assert_eq!(
        query_value("url=http%3A%2F%2Fx%2F204&timeout=2000", "url").as_deref(),
        Some("http://x/204")
    );
    assert_eq!(query_value("url=a&timeout=2000", "timeout").as_deref(), Some("2000"));
    assert_eq!(query_value("url=a", "missing"), None);
}

#[test]
fn a_pair_without_a_value_is_passed_over() {
    assert_eq!(query_value("flag&flag=1", "flag").as_deref(), Some("1"));
    assert_eq!(query_value("a=b=c", "a").as_deref(), Some("b=c"));
}

#[test]
fn a_delay_timeout_is_used_in_milliseconds() {
    assert_eq!(delay_timeout_ms("timeout=2000"), 2000);
    assert_eq!(delay_timeout_ms("url=http://x&timeout=1500"), 1500);
    assert_eq!(delay_timeout_ms(""), DEFAULT_DELAY_TIMEOUT_MS);
    assert_eq!(delay_timeout_ms("timeout=abc"), DEFAULT_DELAY_TIMEOUT_MS);
}

#[test]
fn numbers_are_read_as_the_standard_library_reads_them() {
    for s in ["0", "+7", "007", "18446744073709551615", "18446744073709551616", "", "+", "-1", "1 ", "1_0", "99999999999999999999999"] {
        assert_eq!(parse_number(s), s.parse::<u64>().ok(), "{s:?}");
    }
}

#[test]
fn a_connection_reports_the_destination_and_admits_the_missing_source() {
    let connection = parse(
        r#"{"id":"c1","src_addr":"example.com:443","dst_addr":"93.184.216.34",
            "dst_domain":"example.com","protocol":"tcp","outbound":"proxy-a",
            "upload":10,"download":20,"start_time":1700000000,
            "rule":"DOMAIN,example.com,proxy-a"}"#,
    );

    let entry = connection_entry(&connection);
    let metadata = entry.get("metadata").expect("metadata");
    let field = |key: &str| metadata.get(key).and_then(|value| value.as_str());

    assert_eq!(field("destinationIP"), Some("93.184.216.34"));
    assert_eq!(field("destinationPort"), Some("443"));
    assert_eq!(field("host"), Some("example.com"));
    assert_eq!(field("type"), Some("tcp"));
    assert_eq!(field("sourceIP"), Some(""));
    assert_eq!(field("sourcePort"), Some(""));

    assert_eq!(entry.get("upload").and_then(|v| v.as_u64()), Some(10));
    assert_eq!(entry.get("download").and_then(|v| v.as_u64()), Some(20));
    assert_eq!(str_at(&entry, "start"), Some("2023-11-14T22:13:20Z"));
    match entry.get("chains") {
        Some(Json::Array(chains)) => assert_eq!(chains.len(), 1),
        other => panic!("no chains: {other:?}"),
    }
}

#[test]
fn a_connection_without_a_name_is_known_by_its_address() {
    let entry = connection_entry(&parse(r#"{"dst_addr":"1.2.3.4","dst_domain":""}"#));
    let metadata = entry.get("metadata").expect("metadata");
    assert_eq!(str_at(metadata, "host"), Some("1.2.3.4"));
    assert_eq!(str_at(metadata, "destinationPort"), Some(""));
    assert_eq!(str_at(&entry, "start"), Some(""));
    assert_eq!(entry.get("upload").and_then(|v| v.as_u64()), Some(0));
}

// -- conversations ---------------------------------------------------------------

#[test]
fn configs_report_an_error_when_the_engine_is_not_running() {
    let found = routed("GET", "/configs", Some(SECRET), SECRET);
    assert!(matches!(step(&found, None, &Vec::new(), 0), Step::Settings));
    let reply = configs_reply(&Err("engine is not running".to_string()), &Ok(Json::Null));
    assert_eq!(reply.status, 503);
    assert_eq!(message(&reply), "engine is not running");
}

#[test]
fn configs_report_the_settings() {
    let snapshot = GeneralSnapshot {
        mode: "rule".to_string(),
        runtime_mode: 1,
        log_level: "info".to_string(),
        allow_lan: false,
        bind_address: "*".to_string(),
        ipv6: true,
        tcp_concurrent: false,
        socks_port: None,
        mixed_port: Some(7890),
    };
    let reply = configs_reply(&Ok(snapshot), &Err("no resolver".to_string()));
    let body = reply.body.expect("a body");
    assert_eq!(reply.status, 200);
    assert_eq!(str_at(&body, "mode"), Some("global"));
    assert_eq!(body.get("mixed-port").and_then(|v| v.as_u64()), Some(7890));
    assert!(body.get("socks-port").is_none());
    assert!(body.get("dns").is_none());
    assert_eq!(body.get("ipv6").and_then(|v| v.as_bool()), Some(true));
}

#[test]
fn patching_an_unknown_mode_is_refused() {
    let found = routed("PATCH", "/configs", Some(SECRET), SECRET);
    let body = parse(r#"{"mode":"turbo"}"#);
    let reply = answer(&found, Some(&body));
    assert_eq!(reply.status, 400);
    assert!(message(&reply).contains("unknown mode"));
    assert_eq!(message(&reply), "unknown mode `turbo`: expected `rule`, `global` or `direct`");
}

#[test]
fn patching_nothing_is_refused() {
    let found = routed("PATCH", "/configs", Some(SECRET), SECRET);
    let body = parse(r#"{"mixed-port":7890}"#);
    let reply = answer(&found, Some(&body));
    assert_eq!(reply.status, 400);
    assert!(message(&reply).contains("no supported field"));
}

#[test]
fn a_patch_with_a_port_is_refused() {
    let found = routed("PATCH", "/configs", Some(SECRET), SECRET);
    for field in ["port", "socks-port", "redir-port", "tproxy-port", "mixed-port", "allow-lan"] {
        for beside in [r#""mode":"rule""#, r#""log-level":"debug""#] {
            let body = parse(&format!("{{{beside},\"{field}\":7890}}"));
            let reply = answer(&found, Some(&body));
            assert_eq!(reply.status, 400);
            assert!(message(&reply).contains(field));
        }
    }
}

#[test]
fn a_patch_applies_the_mode_and_then_the_level() {
    let found = routed("PATCH", "/configs", Some(SECRET), SECRET);
    let body = parse(r#"{"mode":"direct","log-level":"debug"}"#);
    let (method, params) = asked(&found, Some(&body), &Vec::new());
    assert_eq!(method, "set_proxy_mode");
    assert_eq!(params.get("mode").and_then(|v| v.as_i64()), Some(2));
    assert!(dispatch(&method, &params).is_ok());
    let (method, params) = asked(&found, Some(&body), &vec![Ok(Json::Null)]);
    assert_eq!(method, "set_log_level");
    assert_eq!(str_at(&params, "level"), Some("debug"));
    assert_eq!(finished(&found, Some(&body), &vec![Ok(Json::Null), Ok(Json::Null)]).status, 204);
    let reply = finished(&found, Some(&body), &vec![Ok(Json::Null), Err("bad".to_string())]);
    assert_eq!((reply.status, message(&reply)), (400, "bad"));
    let reply = finished(&found, Some(&body), &vec![Err("stuck".to_string())]);
    assert_eq!((reply.status, message(&reply)), (500, "stuck"));
    let body = parse(r#"{"log-level":"x"}"#);
    assert_eq!(asked(&found, Some(&body), &Vec::new()).0, "set_log_level");
    let reply = finished(&found, Some(&body), &vec![Err("no".to_string())]);
    assert_eq!(reply.status, 400);
}

#[test]
fn reloading_without_a_path_is_refused() {
    let found = routed("PUT", "/configs", Some(SECRET), SECRET);
    let body = parse(r#"{"mode":"rule"}"#);
    let reply = answer(&found, Some(&body));
    assert_eq!(reply.status, 400);
    assert!(message(&reply).contains("path"));
}

#[test]
fn a_reload_names_its_file() {
    let found = routed("PUT", "/configs", Some(SECRET), SECRET);
    let body = parse(r#"{"path":"/etc/c.yaml"}"#);
    let (method, params) = asked(&found, Some(&body), &Vec::new());
    assert_eq!(method, "reload_config_from_file");
    assert!(matches!(
        dispatch(&method, &params).unwrap().args.as_slice(),
        [Arg::Text(path)] if path == "/etc/c.yaml"
    ));
    assert_eq!(finished(&found, Some(&body), &vec![Ok(Json::Null)]).status, 204);
    assert_eq!(finished(&found, Some(&body), &vec![Err("no file".to_string())]).status, 400);
}

#[test]
fn a_broken_body_is_reported_as_a_bad_request() {
    let found = routed("PATCH", "/configs", Some(SECRET), SECRET);
    let reply = answer(&found, None);
    assert_eq!(reply.status, 400);
    assert!(message(&reply).contains("not valid JSON"));
    assert_eq!(answer(&routed("PUT", "/configs", Some(SECRET), SECRET), None).status, 400);
    assert_eq!(answer(&routed("PUT", "/proxies/G", Some(SECRET), SECRET), None).status, 400);
}

#[test]
fn selecting_a_proxy_needs_a_name() {
    let found = routed("PUT", "/proxies/G", Some(SECRET), SECRET);
    let body = object(vec![]);
    let reply = answer(&found, Some(&body));
    assert_eq!(reply.status, 400);
    assert!(message(&reply).contains("`name`"));
    let body = parse(r#"{"name":"a"}"#);
    let (method, params) = asked(&found, Some(&body), &Vec::new());
    assert_eq!(method, "select_proxy");
    assert_eq!(str_at(&params, "group_tag"), Some("G"));
    assert_eq!(str_at(&params, "proxy_tag"), Some("a"));
    assert_eq!(finished(&found, Some(&body), &vec![Ok(Json::Null)]).status, 204);
    assert_eq!(finished(&found, Some(&body), &vec![Err("no".to_string())]).status, 400);
}

#[test]
fn the_proxy_table_answers_with_a_table_or_says_it_cannot() {
    let found = routed("GET", "/proxies", Some(SECRET), SECRET);
    assert_eq!(asked(&found, None, &Vec::new()).0, "get_proxies");
    let reply = finished(&found, None, &vec![Err("engine is not running".to_string())]);
    assert_eq!(reply.status, 503);
    assert_eq!(message(&reply), "engine is not running");

    let proxies = || {
        Ok(parse(
            r#"[{"tag":"a","protocol_type":"trojan","server":"s","port":443,"alive":true,
                 "latency_ms":12},{"protocol_type":"nameless"},{"tag":"G"}]"#,
        ))
    };
    let groups = || {
        Ok(parse(r#"[{"tag":"G","group_type":"select","proxies":["a",1],"selected":"a"}]"#))
    };
    assert_eq!(asked(&found, None, &vec![proxies()]).0, "get_proxy_groups");
    let reply = finished(&found, None, &vec![proxies(), groups()]);
    assert_eq!(reply.status, 200);
    let body = reply.body.expect("a body");
    let table = body.get("proxies").expect("a table");
    match table {
        Json::Object(entries) => assert_eq!(entries.len(), 2),
        other => panic!("no table: {other:?}"),
    }
    let a = table.get("a").expect("the proxy");
    assert_eq!(str_at(a, "type"), Some("trojan"));
    assert_eq!(a.get("port").and_then(|v| v.as_u64()), Some(443));
    match a.get("history") {
        Some(Json::Array(samples)) => {
            assert_eq!(str_at(&samples[0], "time"), Some("2023-11-14T22:13:20Z"));
            assert_eq!(samples[0].get("delay").and_then(|v| v.as_u64()), Some(12));
        }
        other => panic!("no history: {other:?}"),
    }
    let g = table.get("G").expect("the group");
    assert_eq!(str_at(g, "type"), Some("select"));
    assert_eq!(str_at(g, "now"), Some("a"));
    match g.get("all") {
        Some(Json::Array(members)) => assert_eq!(members.len(), 1),
        other => panic!("no members: {other:?}"),
    }

    // One object is served in the shape of the table.
    let one = routed("GET", "/proxies/a", Some(SECRET), SECRET);
    let reply = finished(&one, None, &vec![proxies(), groups()]);
    assert_eq!(format!("{:?}", reply.body.expect("a body")), format!("{a:?}"));
    let none = routed("GET", "/proxies/z", Some(SECRET), SECRET);
    assert_eq!(finished(&none, None, &vec![proxies(), Err("x".to_string())]).status, 404);
}

#[test]
fn a_proxy_table_of_no_list_is_empty() {
    assert!(proxy_table(&Json::Null, &Json::Null, 0).is_empty());
}

#[test]
fn the_sample_routes_answer_with_one_object() {
    let memory = routed("GET", "/memory", Some(SECRET), SECRET);
    assert!(matches!(step(&memory, None, &Vec::new(), 0), Step::Memory));
    let reply = memory_reply(&Ok((1024, 4096)));
    let value = reply.body.expect("a body");
    assert_eq!(value.get("inuse").and_then(|v| v.as_u64()), Some(1024));
    assert_eq!(value.get("oslimit").and_then(|v| v.as_u64()), Some(4096));
    assert_eq!(memory_reply(&Err("no".to_string())).status, 503);

    let traffic = routed("GET", "/traffic", Some(SECRET), SECRET);
    assert_eq!(asked(&traffic, None, &Vec::new()).0, "get_traffic_stats_dto");
    let reply = finished(&traffic, None, &vec![Ok(parse(r#"{"upload":5}"#))]);
    assert_eq!(reply.status, 200);
    let value = reply.body.expect("a body");
    assert_eq!(value.get("up").and_then(|v| v.as_u64()), Some(5));
    assert_eq!(value.get("down").and_then(|v| v.as_u64()), Some(0));
    let reply = finished(&traffic, None, &vec![Err("down".to_string())]);
    assert_eq!((reply.status, message(&reply)), (503, "down"));
}

#[test]
fn a_delay_test_that_fails_is_a_gateway_timeout() {
    let found = route("GET", "/proxies/a/delay", "timeout=9", None, "");
    let (method, params) = asked(&found, None, &Vec::new());
    assert_eq!(method, "test_proxy_latency_dto");
    assert!(matches!(
        dispatch(&method, &params).unwrap().args.as_slice(),
        [Arg::Text(tag), Arg::Text(url), Arg::U64(9)] if tag == "a" && url == DEFAULT_DELAY_URL
    ));
    let reply = finished(&found, None, &vec![Ok(parse(r#"{"latency_ms":31}"#))]);
    assert_eq!(reply.body.expect("a body").get("delay").and_then(|v| v.as_u64()), Some(31));
    let reply = finished(&found, None, &vec![Ok(parse(r#"{"error":"refused"}"#))]);
    assert_eq!((reply.status, message(&reply)), (504, "refused"));
    let reply = finished(&found, None, &vec![Ok(parse("{}"))]);
    assert_eq!((reply.status, message(&reply)), (504, "latency test failed"));
    let reply = finished(&found, None, &vec![Err("x".to_string())]);
    assert_eq!((reply.status, message(&reply)), (504, "x"));
}

#[test]
fn rules_and_connections_are_listed() {
    let rules = routed("GET", "/rules", Some(SECRET), SECRET);
    let reply = finished(
        &rules,
        None,
        &vec![Ok(parse(r#"[{"rule_type":"ip_cidr","payload":"10.0.0.0/8","outbound":"d"},{}]"#))],
    );
    match reply.body.expect("a body").get("rules") {
        Some(Json::Array(list)) => {
            assert_eq!(list.len(), 2);
            assert_eq!(str_at(&list[0], "type"), Some("IP-CIDR"));
            assert_eq!(str_at(&list[0], "proxy"), Some("d"));
            assert_eq!(str_at(&list[1], "payload"), Some(""));
        }
        other => panic!("no rules: {other:?}"),
    }
    assert_eq!(finished(&rules, None, &vec![Err("x".to_string())]).status, 503);

    let connections = routed("GET", "/connections", Some(SECRET), SECRET);
    assert_eq!(asked(&connections, None, &Vec::new()).0, "get_connections_dto");
    assert_eq!(asked(&connections, None, &vec![Ok(parse("[]"))]).0, "get_traffic_stats_dto");
    let reply = finished(
        &connections,
        None,
        &vec![Ok(parse(r#"[{"id":"1"}]"#)), Ok(parse(r#"{"total_upload":3,"total_download":4}"#))],
    );
    let body = reply.body.expect("a body");
    assert_eq!(body.get("uploadTotal").and_then(|v| v.as_u64()), Some(3));
    assert_eq!(body.get("downloadTotal").and_then(|v| v.as_u64()), Some(4));
    let close = routed("DELETE", "/connections/1", Some(SECRET), SECRET);
    assert_eq!(asked(&close, None, &Vec::new()).0, "close_connection_by_id");
    assert_eq!(finished(&close, None, &vec![Err("gone".to_string())]).status, 404);
    let all = routed("DELETE", "/connections", Some(SECRET), SECRET);
    assert_eq!(asked(&all, None, &Vec::new()).0, "close_all_connections_dto");
    assert_eq!(finished(&all, None, &vec![Err("no".to_string())]).status, 500);
    assert_eq!(finished(&all, None, &vec![Ok(Json::Null)]).status, 204);
}

// -- the JSON-RPC server ----------------------------------------------------------

const TOKEN: &str = "test-token-123";

/// The answer to a payload: the call is carried out by a host that knows its name.
fn answer_payload(payload: &str) -> Json {
    parse(&response_text(read_request(payload.as_bytes().to_vec()).map(|call| text(&call.method))))
}

#[test]
fn health_endpoint_is_open() {
    match judge("GET", "/health", None, 0, TOKEN) {
        Verdict::Answer { status, body } => {
            assert_eq!(status, 200);
            assert!(body.unwrap().contains("\"ok\":true"));
        }
        other => panic!("{other:?}"),
    }
}

#[test]
fn non_loopback_bind_is_refused() {
    let error = check_bind(&SocketAddr::V4([0, 0, 0, 0], 0))
        .err()
        .expect("a wildcard bind must be refused");
    assert_eq!(error, "RPC server refuses non-loopback address 0.0.0.0:0");
    assert!(check_bind(&SocketAddr::V4([127, 0, 0, 1], 0)).is_ok());
}

#[test]
fn http_rpc_requires_token() {
    // No token -> 401
    match judge("POST", "/rpc", None, 10, TOKEN) {
        Verdict::Answer { status, body } => {
            assert_eq!(status, 401);
            assert!(body.unwrap().contains("unauthorized"));
        }
        other => panic!("{other:?}"),
    }
    // Wrong token -> 401
    assert!(matches!(
        judge("POST", "/rpc", Some("Bearer wrong"), 10, TOKEN),
        Verdict::Answer { status: 401, .. }
    ));
    // The name of the scheme is needed here, and nothing around the token.
    assert!(matches!(
        judge("POST", "/rpc", Some(TOKEN), 10, TOKEN),
        Verdict::Answer { status: 401, .. }
    ));
    assert!(matches!(
        judge("POST", "/rpc", Some("Bearer test-token-123"), 10, TOKEN),
        Verdict::Process
    ));
}

#[test]
fn http_rpc_dispatch_roundtrip() {
    let parsed = answer_payload(r#"{"method":"get_version"}"#);
    assert_eq!(parsed.get("code").and_then(|v| v.as_i64()), Some(0));
    assert!(parsed.get("data").is_some());
}

#[test]
fn http_rpc_unknown_method_is_error() {
    let parsed = answer_payload(r#"{"method":"no_such_method"}"#);
    assert_eq!(parsed.get("code").and_then(|v| v.as_i64()), Some(1));
    assert!(parsed.get("error").and_then(|v| v.as_str()).is_some());
}

#[test]
fn oversize_body_is_rejected() {
    assert!(matches!(
        judge("POST", "/rpc", Some("Bearer test-token-123"), MAX_REQUEST_BODY + 1, TOKEN),
        Verdict::Answer { status: 413, .. }
    ));
    assert!(matches!(
        judge("POST", "/rpc", Some("Bearer test-token-123"), MAX_REQUEST_BODY, TOKEN),
        Verdict::Process
    ));
}

#[test]
fn websocket_rejects_bad_token() {
    assert_eq!(
        check_upgrade(Some("token=wrong"), TOKEN).err().unwrap(),
        r#"{"code":1,"error":"unauthorized"}"#
    );
    assert_eq!(
        check_upgrade(None, TOKEN).err().unwrap(),
        r#"{"code":1,"error":"missing token"}"#
    );
    assert!(check_upgrade(Some("a=b&token=test-token-123"), TOKEN).is_ok());
    // The token is taken as it stands in the query.
    assert!(check_upgrade(Some("token=test%2Dtoken-123"), TOKEN).is_err());
}

#[test]
fn other_paths_are_not_found_and_preflights_are_answered() {
    assert!(matches!(judge("GET", "/rpc", None, 0, TOKEN), Verdict::Answer { status: 404, .. }));
    assert!(matches!(
        judge("OPTIONS", "/rpc", None, 0, TOKEN),
        Verdict::Answer { status: 204, body: None }
    ));
    assert_eq!(headers(true).len(), 5);
    assert_eq!(headers(false)[1], ("access-control-allow-methods", "GET, POST, OPTIONS"));
}

#[test]
fn a_payload_that_is_no_request_is_told_so() {
    assert_eq!(payload_text(b"{}".to_vec()).unwrap(), "{}");
    assert_eq!(payload_text(vec![0xff]).err().unwrap(), "request body is not valid UTF-8");
    let response = answer_payload("{");
    assert!(str_at(&response, "error").unwrap().starts_with("invalid request JSON: "));
    let response = answer_payload(r#"{"params":{}}"#);
    assert_eq!(str_at(&response, "error"), Some("missing 'method'"));
    let response = answer_payload(r#"{"method":"set_log_level"}"#);
    assert_eq!(str_at(&response, "error"), Some("missing argument 'level'"));
}

/// A request's bytes become its call, and an outcome becomes its text.
#[test]
fn json_text_goes_in_and_out() {
    let body = br#"{"method":"set_log_level","params":{"level":"debug"}}"#.to_vec();
    let call = read_request(body).expect("a call");
    assert_eq!(call.method, "set_log_level");
    assert_eq!(
        read_request(vec![b'"', 0xff, b'"']).err().unwrap(),
        "request body is not valid UTF-8"
    );
    assert_eq!(response_text(Ok(Json::Bool(true))), r#"{"code":0,"data":true}"#);
    assert_eq!(
        response_text(Err("a \"b\"\n".to_string())),
        r#"{"code":1,"error":"a \"b\"\n"}"#
    );
    let told = encode_response(Err("no".to_string()));
    assert_eq!(print_json(&told).as_deref(), Some(r#"{"code":1,"error":"no"}"#));

    let value = parse(r#"{"a":[1,-2,2.5,null],"b":"\u00e9"}"#);
    let items = value.get("a").expect("a list");
    assert!(matches!(items, Json::Array(v) if matches!(v[0], Json::Uint(1))
        && matches!(v[1], Json::Int(-2)) && v[2].as_u64() == Some(2)));
    assert_eq!(str_at(&value, "b"), Some("\u{e9}"));
    assert_eq!(print_json(&value).as_deref(), Some("{\"a\":[1,-2,2.5,null],\"b\":\"\u{e9}\"}"));
    assert!(read_json(b"[1,]").is_err());
    assert!(parse_json("").is_err());

    assert!(parse_body(b"").is_none());
    assert!(parse_body(b"{").is_none());
    assert!(parse_body(&[b'"', 0xff, b'"']).is_none());
    assert_eq!(str_at(&parse_body(br#"{"mode":"rule"}"#).expect("a body"), "mode"), Some("rule"));
    let reply = answer(&routed("GET", "/nowhere", Some(SECRET), SECRET), None);
    assert_eq!(reply.body_text().as_deref(), Some(r#"{"message":"not found"}"#));
}
