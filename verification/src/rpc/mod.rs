//! The control surface of the engine: which methods there are, what each takes, and
//! how a request is turned into a checked call.
//!
//! A request names a method and carries its arguments in a JSON object. Every argument is
//! checked here, so what carries a call out sees typed values only.

use crate::json::{Json, JsonView};
use crate::rpc::args::{
    bool_arg, i32_arg, opt_text_arg, opt_u32_arg, pairs_view, proxies_arg, text_arg, u16_arg,
    u32_arg, u64_arg, Args,
};
use crate::text::{concat, owned, same};
use vstd::prelude::*;
use vstd::string::*;

pub mod answers;
pub mod args;
pub mod calendar;
pub mod controller;
pub mod conversation;
pub mod routing;
pub mod server;
pub mod shapes;
pub mod signatures;
pub mod uri;

verus! {

/// The version of the control surface, raised with every change that breaks its users.
pub const CORDUIT_API_VERSION: &'static str = "0.2.0";

/// Every method that [`dispatch`] accepts.
pub const CORDUIT_METHODS: [&'static str; 75] = [
    "init_app",
    "start_proxy_from_yaml",
    "start_proxy_from_file",
    "stop_proxy",
    "is_proxy_running",
    "reload_config_from_yaml",
    "reload_config_from_file",
    "get_traffic_stats_dto",
    "get_connections_dto",
    "close_connection_by_id",
    "close_all_connections_dto",
    "get_proxies",
    "get_proxy_groups",
    "select_proxy",
    "test_proxy_latency_dto",
    "test_all_proxies_latency",
    "get_rules",
    "get_dns_config",
    "set_proxy_mode",
    "get_proxy_mode",
    "start_tun_mode",
    "stop_tun_mode",
    "initialize_corduit",
    "start_corduit",
    "stop_corduit",
    "reload_corduit",
    "get_corduit_status",
    "get_traffic_stats",
    "test_config",
    "get_connections",
    "close_connection",
    "get_logs",
    "set_log_level",
    "get_system_info",
    "get_version",
    "get_build_info",
    "test_proxy_latency",
    "test_outbound_latency",
    "test_tcp_connectivity",
    "test_shadowsocks_latency",
    "test_proxies_latency",
    "select_proxy_in_group",
    "get_selected_proxy_in_group",
    "get_active_connections",
    "close_active_connection",
    "close_all_connections",
    "get_connection_stats",
    "is_wintun_available",
    "get_wintun_dll_path",
    "ensure_wintun_dll",
    "enable_tun_mode",
    "enable_tun_mode_with_mode",
    "disable_tun_mode",
    "get_tun_status",
    "set_windows_proxy_mode",
    "get_windows_proxy_mode_str",
    "get_windows_tun_stats",
    "enable_uwp_loopback",
    "open_uwp_loopback_utility",
    "set_android_vpn_fd",
    "get_android_vpn_fd",
    "clear_android_vpn_fd",
    "set_android_proxy_mode",
    "get_android_proxy_mode",
    "start_android_vpn",
    "stop_android_vpn",
    "set_ios_vpn_fd",
    "get_ios_vpn_fd",
    "clear_ios_vpn_fd",
    "set_vpn_fd",
    "clear_vpn_fd",
    "set_protect_socket_callback_enabled",
    "start_rpc_server",
    "stop_rpc_server",
    "get_rpc_server_status",
];

/// What kind of value a parameter takes.
#[derive(Debug, Clone, Copy, PartialEq, Eq, Structural)]
pub enum ParamKind {
    Text,
    /// A text that may be left out.
    OptText,
    U16,
    U32,
    /// A number that may be left out.
    OptU32,
    U64,
    I32,
    Bool,
    /// Servers with their ports.
    Proxies,
}

/// The value of an argument.
#[derive(Debug)]
pub enum Arg {
    Text(String),
    OptText(Option<String>),
    U16(u16),
    U32(u32),
    OptU32(Option<u32>),
    U64(u64),
    I32(i32),
    Bool(bool),
    Proxies(Vec<(String, u16)>),
}

/// The value of an argument as a mathematical value.
#[verifier::ext_equal]
pub enum ArgView {
    Text(Seq<char>),
    OptText(Option<Seq<char>>),
    U16(u16),
    U32(u32),
    OptU32(Option<u32>),
    U64(u64),
    I32(i32),
    Bool(bool),
    Proxies(Seq<(Seq<char>, u16)>),
}

impl View for Arg {
    type V = ArgView;

    open spec fn view(&self) -> ArgView {
        match *self {
            Arg::Text(s) => ArgView::Text(s@),
            Arg::OptText(None) => ArgView::OptText(None),
            Arg::OptText(Some(s)) => ArgView::OptText(Some(s@)),
            Arg::U16(n) => ArgView::U16(n),
            Arg::U32(n) => ArgView::U32(n),
            Arg::OptU32(n) => ArgView::OptU32(n),
            Arg::U64(n) => ArgView::U64(n),
            Arg::I32(n) => ArgView::I32(n),
            Arg::Bool(b) => ArgView::Bool(b),
            Arg::Proxies(l) => ArgView::Proxies(pairs_view(l@)),
        }
    }
}

/// Arguments as mathematical values.
pub open spec fn args_view(v: Seq<Arg>) -> Seq<ArgView> {
    Seq::new(v.len(), |i: int| v[i]@)
}

/// A call whose method exists and whose arguments have been checked.
#[derive(Debug)]
pub struct Call {
    pub method: String,
    /// One value for each parameter of the method, in order.
    pub args: Vec<Arg>,
}

/// A parameter: its name and what it takes.
#[derive(Debug)]
pub struct Param {
    pub name: &'static str,
    pub kind: ParamKind,
}

/// Parameters as mathematical values.
pub open spec fn params_view(v: Seq<Param>) -> Seq<(Seq<char>, ParamKind)> {
    Seq::new(v.len(), |i: int| (v[i].name@, v[i].kind))
}

/// Whether a method takes no arguments.
pub open spec fn takes_nothing(m: Seq<char>) -> bool {
    ||| m == "init_app"@
    ||| m == "stop_proxy"@
    ||| m == "is_proxy_running"@
    ||| m == "get_traffic_stats_dto"@
    ||| m == "get_connections_dto"@
    ||| m == "close_all_connections_dto"@
    ||| m == "get_proxies"@
    ||| m == "get_proxy_groups"@
    ||| m == "get_rules"@
    ||| m == "get_dns_config"@
    ||| m == "get_proxy_mode"@
    ||| m == "stop_tun_mode"@
    ||| m == "start_corduit"@
    ||| m == "stop_corduit"@
    ||| m == "get_corduit_status"@
    ||| m == "get_traffic_stats"@
    ||| m == "get_connections"@
    ||| m == "get_system_info"@
    ||| m == "get_version"@
    ||| m == "get_build_info"@
    ||| m == "get_active_connections"@
    ||| m == "close_all_connections"@
    ||| m == "get_connection_stats"@
    ||| m == "is_wintun_available"@
    ||| m == "get_wintun_dll_path"@
    ||| m == "ensure_wintun_dll"@
    ||| m == "enable_tun_mode"@
    ||| m == "disable_tun_mode"@
    ||| m == "get_tun_status"@
    ||| m == "get_windows_proxy_mode_str"@
    ||| m == "get_windows_tun_stats"@
    ||| m == "enable_uwp_loopback"@
    ||| m == "open_uwp_loopback_utility"@
    ||| m == "get_android_vpn_fd"@
    ||| m == "clear_android_vpn_fd"@
    ||| m == "get_android_proxy_mode"@
    ||| m == "start_android_vpn"@
    ||| m == "stop_android_vpn"@
    ||| m == "get_ios_vpn_fd"@
    ||| m == "clear_ios_vpn_fd"@
    ||| m == "clear_vpn_fd"@
    ||| m == "stop_rpc_server"@
    ||| m == "get_rpc_server_status"@
}

/// The parameter of a method that takes one argument.
pub open spec fn single_param(m: Seq<char>) -> Option<(Seq<char>, ParamKind)> {
    if m == "start_proxy_from_yaml"@ || m == "reload_config_from_yaml"@ {
        Some(("yaml_config"@, ParamKind::Text))
    } else if m == "start_proxy_from_file"@ || m == "reload_config_from_file"@ {
        Some(("config_path"@, ParamKind::Text))
    } else if m == "close_connection_by_id"@ {
        Some(("id"@, ParamKind::Text))
    } else if m == "set_proxy_mode"@ {
        Some(("mode"@, ParamKind::I32))
    } else if m == "initialize_corduit"@ || m == "reload_corduit"@ || m == "test_config"@ {
        Some(("config_json"@, ParamKind::Text))
    } else if m == "close_connection"@ || m == "close_active_connection"@ {
        Some(("connection_id"@, ParamKind::Text))
    } else if m == "get_logs"@ {
        Some(("lines"@, ParamKind::OptU32))
    } else if m == "set_log_level"@ {
        Some(("level"@, ParamKind::Text))
    } else if m == "get_selected_proxy_in_group"@ {
        Some(("group_name"@, ParamKind::Text))
    } else if m == "enable_tun_mode_with_mode"@ || m == "set_windows_proxy_mode"@ || m == "set_android_proxy_mode"@ {
        Some(("mode"@, ParamKind::Text))
    } else if m == "set_android_vpn_fd"@ || m == "set_ios_vpn_fd"@ || m == "set_vpn_fd"@ {
        Some(("fd"@, ParamKind::I32))
    } else if m == "set_protect_socket_callback_enabled"@ {
        Some(("enabled"@, ParamKind::Bool))
    } else {
        None
    }
}

/// The parameters of a method that takes more than one argument.
pub open spec fn several_params(m: Seq<char>) -> Option<Seq<(Seq<char>, ParamKind)>> {
    if m == "select_proxy"@ {
        Some(
            seq![
                ("group_tag"@, ParamKind::Text),
                ("proxy_tag"@, ParamKind::Text),
            ],
        )
    } else if m == "test_proxy_latency_dto"@ {
        Some(
            seq![
                ("tag"@, ParamKind::Text),
                ("test_url"@, ParamKind::Text),
                ("timeout_ms"@, ParamKind::U64),
            ],
        )
    } else if m == "test_all_proxies_latency"@ {
        Some(
            seq![
                ("test_url"@, ParamKind::Text),
                ("timeout_ms"@, ParamKind::U64),
            ],
        )
    } else if m == "start_tun_mode"@ {
        Some(
            seq![
                ("tun_name"@, ParamKind::Text),
                ("tun_address"@, ParamKind::Text),
                ("tun_netmask"@, ParamKind::Text),
            ],
        )
    } else if m == "test_proxy_latency"@ || m == "test_tcp_connectivity"@ {
        Some(
            seq![
                ("server"@, ParamKind::Text),
                ("port"@, ParamKind::U16),
                ("timeout_ms"@, ParamKind::U32),
            ],
        )
    } else if m == "test_outbound_latency"@ {
        Some(
            seq![
                ("outbound_name"@, ParamKind::Text),
                ("timeout_ms"@, ParamKind::U32),
            ],
        )
    } else if m == "test_shadowsocks_latency"@ {
        Some(
            seq![
                ("server"@, ParamKind::Text),
                ("port"@, ParamKind::U16),
                ("password"@, ParamKind::Text),
                ("cipher"@, ParamKind::Text),
                ("timeout_ms"@, ParamKind::U32),
            ],
        )
    } else if m == "test_proxies_latency"@ {
        Some(
            seq![
                ("proxies"@, ParamKind::Proxies),
                ("timeout_ms"@, ParamKind::U32),
            ],
        )
    } else if m == "select_proxy_in_group"@ {
        Some(
            seq![
                ("group_name"@, ParamKind::Text),
                ("proxy_name"@, ParamKind::Text),
            ],
        )
    } else if m == "start_rpc_server"@ {
        Some(
            seq![
                ("port"@, ParamKind::U16),
                ("token"@, ParamKind::OptText),
            ],
        )
    } else {
        None
    }
}

/// The parameters of a method, where there is such a method.
pub open spec fn params_of(m: Seq<char>) -> Option<Seq<(Seq<char>, ParamKind)>> {
    if takes_nothing(m) {
        Some(seq![])
    } else if let Some(p) = single_param(m) {
        Some(seq![p])
    } else {
        several_params(m)
    }
}

/// Whether a method is declared.
pub open spec fn declared(m: Seq<char>) -> bool {
    exists|i: int|
        0 <= i < CORDUIT_METHODS@.len() && (#[trigger] CORDUIT_METHODS@[i])@ == m
}

/// The declared methods are those that are dispatched: no more and no fewer.
pub proof fn lemma_declared_is_dispatched(m: Seq<char>)
    ensures
        declared(m) <==> params_of(m) is Some,
{
    assert(CORDUIT_METHODS@[0]@ == "init_app"@);
    assert(CORDUIT_METHODS@[1]@ == "start_proxy_from_yaml"@);
    assert(CORDUIT_METHODS@[2]@ == "start_proxy_from_file"@);
    assert(CORDUIT_METHODS@[3]@ == "stop_proxy"@);
    assert(CORDUIT_METHODS@[4]@ == "is_proxy_running"@);
    assert(CORDUIT_METHODS@[5]@ == "reload_config_from_yaml"@);
    assert(CORDUIT_METHODS@[6]@ == "reload_config_from_file"@);
    assert(CORDUIT_METHODS@[7]@ == "get_traffic_stats_dto"@);
    assert(CORDUIT_METHODS@[8]@ == "get_connections_dto"@);
    assert(CORDUIT_METHODS@[9]@ == "close_connection_by_id"@);
    assert(CORDUIT_METHODS@[10]@ == "close_all_connections_dto"@);
    assert(CORDUIT_METHODS@[11]@ == "get_proxies"@);
    assert(CORDUIT_METHODS@[12]@ == "get_proxy_groups"@);
    assert(CORDUIT_METHODS@[13]@ == "select_proxy"@);
    assert(CORDUIT_METHODS@[14]@ == "test_proxy_latency_dto"@);
    assert(CORDUIT_METHODS@[15]@ == "test_all_proxies_latency"@);
    assert(CORDUIT_METHODS@[16]@ == "get_rules"@);
    assert(CORDUIT_METHODS@[17]@ == "get_dns_config"@);
    assert(CORDUIT_METHODS@[18]@ == "set_proxy_mode"@);
    assert(CORDUIT_METHODS@[19]@ == "get_proxy_mode"@);
    assert(CORDUIT_METHODS@[20]@ == "start_tun_mode"@);
    assert(CORDUIT_METHODS@[21]@ == "stop_tun_mode"@);
    assert(CORDUIT_METHODS@[22]@ == "initialize_corduit"@);
    assert(CORDUIT_METHODS@[23]@ == "start_corduit"@);
    assert(CORDUIT_METHODS@[24]@ == "stop_corduit"@);
    assert(CORDUIT_METHODS@[25]@ == "reload_corduit"@);
    assert(CORDUIT_METHODS@[26]@ == "get_corduit_status"@);
    assert(CORDUIT_METHODS@[27]@ == "get_traffic_stats"@);
    assert(CORDUIT_METHODS@[28]@ == "test_config"@);
    assert(CORDUIT_METHODS@[29]@ == "get_connections"@);
    assert(CORDUIT_METHODS@[30]@ == "close_connection"@);
    assert(CORDUIT_METHODS@[31]@ == "get_logs"@);
    assert(CORDUIT_METHODS@[32]@ == "set_log_level"@);
    assert(CORDUIT_METHODS@[33]@ == "get_system_info"@);
    assert(CORDUIT_METHODS@[34]@ == "get_version"@);
    assert(CORDUIT_METHODS@[35]@ == "get_build_info"@);
    assert(CORDUIT_METHODS@[36]@ == "test_proxy_latency"@);
    assert(CORDUIT_METHODS@[37]@ == "test_outbound_latency"@);
    assert(CORDUIT_METHODS@[38]@ == "test_tcp_connectivity"@);
    assert(CORDUIT_METHODS@[39]@ == "test_shadowsocks_latency"@);
    assert(CORDUIT_METHODS@[40]@ == "test_proxies_latency"@);
    assert(CORDUIT_METHODS@[41]@ == "select_proxy_in_group"@);
    assert(CORDUIT_METHODS@[42]@ == "get_selected_proxy_in_group"@);
    assert(CORDUIT_METHODS@[43]@ == "get_active_connections"@);
    assert(CORDUIT_METHODS@[44]@ == "close_active_connection"@);
    assert(CORDUIT_METHODS@[45]@ == "close_all_connections"@);
    assert(CORDUIT_METHODS@[46]@ == "get_connection_stats"@);
    assert(CORDUIT_METHODS@[47]@ == "is_wintun_available"@);
    assert(CORDUIT_METHODS@[48]@ == "get_wintun_dll_path"@);
    assert(CORDUIT_METHODS@[49]@ == "ensure_wintun_dll"@);
    assert(CORDUIT_METHODS@[50]@ == "enable_tun_mode"@);
    assert(CORDUIT_METHODS@[51]@ == "enable_tun_mode_with_mode"@);
    assert(CORDUIT_METHODS@[52]@ == "disable_tun_mode"@);
    assert(CORDUIT_METHODS@[53]@ == "get_tun_status"@);
    assert(CORDUIT_METHODS@[54]@ == "set_windows_proxy_mode"@);
    assert(CORDUIT_METHODS@[55]@ == "get_windows_proxy_mode_str"@);
    assert(CORDUIT_METHODS@[56]@ == "get_windows_tun_stats"@);
    assert(CORDUIT_METHODS@[57]@ == "enable_uwp_loopback"@);
    assert(CORDUIT_METHODS@[58]@ == "open_uwp_loopback_utility"@);
    assert(CORDUIT_METHODS@[59]@ == "set_android_vpn_fd"@);
    assert(CORDUIT_METHODS@[60]@ == "get_android_vpn_fd"@);
    assert(CORDUIT_METHODS@[61]@ == "clear_android_vpn_fd"@);
    assert(CORDUIT_METHODS@[62]@ == "set_android_proxy_mode"@);
    assert(CORDUIT_METHODS@[63]@ == "get_android_proxy_mode"@);
    assert(CORDUIT_METHODS@[64]@ == "start_android_vpn"@);
    assert(CORDUIT_METHODS@[65]@ == "stop_android_vpn"@);
    assert(CORDUIT_METHODS@[66]@ == "set_ios_vpn_fd"@);
    assert(CORDUIT_METHODS@[67]@ == "get_ios_vpn_fd"@);
    assert(CORDUIT_METHODS@[68]@ == "clear_ios_vpn_fd"@);
    assert(CORDUIT_METHODS@[69]@ == "set_vpn_fd"@);
    assert(CORDUIT_METHODS@[70]@ == "clear_vpn_fd"@);
    assert(CORDUIT_METHODS@[71]@ == "set_protect_socket_callback_enabled"@);
    assert(CORDUIT_METHODS@[72]@ == "start_rpc_server"@);
    assert(CORDUIT_METHODS@[73]@ == "stop_rpc_server"@);
    assert(CORDUIT_METHODS@[74]@ == "get_rpc_server_status"@);
}

fn is_bare(m: &str) -> (r: bool)
    ensures
        r == takes_nothing(m@),
{
    same(m, "init_app")
        || same(m, "stop_proxy")
        || same(m, "is_proxy_running")
        || same(m, "get_traffic_stats_dto")
        || same(m, "get_connections_dto")
        || same(m, "close_all_connections_dto")
        || same(m, "get_proxies")
        || same(m, "get_proxy_groups")
        || same(m, "get_rules")
        || same(m, "get_dns_config")
        || same(m, "get_proxy_mode")
        || same(m, "stop_tun_mode")
        || same(m, "start_corduit")
        || same(m, "stop_corduit")
        || same(m, "get_corduit_status")
        || same(m, "get_traffic_stats")
        || same(m, "get_connections")
        || same(m, "get_system_info")
        || same(m, "get_version")
        || same(m, "get_build_info")
        || same(m, "get_active_connections")
        || same(m, "close_all_connections")
        || same(m, "get_connection_stats")
        || same(m, "is_wintun_available")
        || same(m, "get_wintun_dll_path")
        || same(m, "ensure_wintun_dll")
        || same(m, "enable_tun_mode")
        || same(m, "disable_tun_mode")
        || same(m, "get_tun_status")
        || same(m, "get_windows_proxy_mode_str")
        || same(m, "get_windows_tun_stats")
        || same(m, "enable_uwp_loopback")
        || same(m, "open_uwp_loopback_utility")
        || same(m, "get_android_vpn_fd")
        || same(m, "clear_android_vpn_fd")
        || same(m, "get_android_proxy_mode")
        || same(m, "start_android_vpn")
        || same(m, "stop_android_vpn")
        || same(m, "get_ios_vpn_fd")
        || same(m, "clear_ios_vpn_fd")
        || same(m, "clear_vpn_fd")
        || same(m, "stop_rpc_server")
        || same(m, "get_rpc_server_status")
}

fn one(name: &'static str, kind: ParamKind) -> (r: Vec<Param>)
    ensures
        params_view(r@) == seq![(name@, kind)],
{
    let r = vec![Param { name, kind }];
    proof {
        assert(params_view(r@) =~= seq![(name@, kind)]);
    }
    r
}

fn and(list: Vec<Param>, name: &'static str, kind: ParamKind) -> (r: Vec<Param>)
    ensures
        params_view(r@) == params_view(list@).push((name@, kind)),
{
    let mut r = list;
    r.push(Param { name, kind });
    proof {
        assert(params_view(r@) =~= params_view(list@).push((name@, kind)));
    }
    r
}

fn single(m: &str) -> (r: Option<Param>)
    ensures
        match single_param(m@) {
            None => r is None,
            Some(p) => r is Some && (r->Some_0.name@, r->Some_0.kind) == p,
        },
{
    if same(m, "start_proxy_from_yaml") || same(m, "reload_config_from_yaml") {
        Some(Param { name: "yaml_config", kind: ParamKind::Text })
    } else if same(m, "start_proxy_from_file") || same(m, "reload_config_from_file") {
        Some(Param { name: "config_path", kind: ParamKind::Text })
    } else if same(m, "close_connection_by_id") {
        Some(Param { name: "id", kind: ParamKind::Text })
    } else if same(m, "set_proxy_mode") {
        Some(Param { name: "mode", kind: ParamKind::I32 })
    } else if same(m, "initialize_corduit") || same(m, "reload_corduit") || same(m, "test_config") {
        Some(Param { name: "config_json", kind: ParamKind::Text })
    } else if same(m, "close_connection") || same(m, "close_active_connection") {
        Some(Param { name: "connection_id", kind: ParamKind::Text })
    } else if same(m, "get_logs") {
        Some(Param { name: "lines", kind: ParamKind::OptU32 })
    } else if same(m, "set_log_level") {
        Some(Param { name: "level", kind: ParamKind::Text })
    } else if same(m, "get_selected_proxy_in_group") {
        Some(Param { name: "group_name", kind: ParamKind::Text })
    } else if same(m, "enable_tun_mode_with_mode") || same(m, "set_windows_proxy_mode") || same(m, "set_android_proxy_mode") {
        Some(Param { name: "mode", kind: ParamKind::Text })
    } else if same(m, "set_android_vpn_fd") || same(m, "set_ios_vpn_fd") || same(m, "set_vpn_fd") {
        Some(Param { name: "fd", kind: ParamKind::I32 })
    } else if same(m, "set_protect_socket_callback_enabled") {
        Some(Param { name: "enabled", kind: ParamKind::Bool })
    } else {
        None
    }
}

fn several(m: &str) -> (r: Option<Vec<Param>>)
    ensures
        match several_params(m@) {
            None => r is None,
            Some(p) => r is Some && params_view(r->Some_0@) == p,
        },
{
    if same(m, "select_proxy") {
        let p = one("group_tag", ParamKind::Text);
        let p = and(p, "proxy_tag", ParamKind::Text);
        Some(p)
    } else if same(m, "test_proxy_latency_dto") {
        let p = one("tag", ParamKind::Text);
        let p = and(p, "test_url", ParamKind::Text);
        let p = and(p, "timeout_ms", ParamKind::U64);
        Some(p)
    } else if same(m, "test_all_proxies_latency") {
        let p = one("test_url", ParamKind::Text);
        let p = and(p, "timeout_ms", ParamKind::U64);
        Some(p)
    } else if same(m, "start_tun_mode") {
        let p = one("tun_name", ParamKind::Text);
        let p = and(p, "tun_address", ParamKind::Text);
        let p = and(p, "tun_netmask", ParamKind::Text);
        Some(p)
    } else if same(m, "test_proxy_latency") || same(m, "test_tcp_connectivity") {
        let p = one("server", ParamKind::Text);
        let p = and(p, "port", ParamKind::U16);
        let p = and(p, "timeout_ms", ParamKind::U32);
        Some(p)
    } else if same(m, "test_outbound_latency") {
        let p = one("outbound_name", ParamKind::Text);
        let p = and(p, "timeout_ms", ParamKind::U32);
        Some(p)
    } else if same(m, "test_shadowsocks_latency") {
        let p = one("server", ParamKind::Text);
        let p = and(p, "port", ParamKind::U16);
        let p = and(p, "password", ParamKind::Text);
        let p = and(p, "cipher", ParamKind::Text);
        let p = and(p, "timeout_ms", ParamKind::U32);
        Some(p)
    } else if same(m, "test_proxies_latency") {
        let p = one("proxies", ParamKind::Proxies);
        let p = and(p, "timeout_ms", ParamKind::U32);
        Some(p)
    } else if same(m, "select_proxy_in_group") {
        let p = one("group_name", ParamKind::Text);
        let p = and(p, "proxy_name", ParamKind::Text);
        Some(p)
    } else if same(m, "start_rpc_server") {
        let p = one("port", ParamKind::U16);
        let p = and(p, "token", ParamKind::OptText);
        Some(p)
    } else {
        None
    }
}

/// The parameters of a method, where there is such a method.
pub fn params(m: &str) -> (r: Option<Vec<Param>>)
    ensures
        match params_of(m@) {
            None => r is None,
            Some(p) => r is Some && params_view(r->Some_0@) == p,
        },
{
    if is_bare(m) {
        let r: Vec<Param> = Vec::new();
        proof {
            assert(params_view(r@) =~= seq![]);
        }
        return Some(r);
    }
    match single(m) {
        Some(p) => Some(one(p.name, p.kind)),
        None => several(m),
    }
}

/// The value of one argument, or what is said of it.
pub open spec fn arg_of(args: JsonView, name: Seq<char>, kind: ParamKind) -> Result<
    ArgView,
    Seq<char>,
> {
    match kind {
        ParamKind::Text => match text_arg(args, name) {
            Ok(v) => Ok(ArgView::Text(v)),
            Err(e) => Err(e),
        },
        ParamKind::OptText => match opt_text_arg(args, name) {
            Ok(v) => Ok(ArgView::OptText(v)),
            Err(e) => Err(e),
        },
        ParamKind::U16 => match u16_arg(args, name) {
            Ok(v) => Ok(ArgView::U16(v)),
            Err(e) => Err(e),
        },
        ParamKind::U32 => match u32_arg(args, name) {
            Ok(v) => Ok(ArgView::U32(v)),
            Err(e) => Err(e),
        },
        ParamKind::OptU32 => match opt_u32_arg(args, name) {
            Ok(v) => Ok(ArgView::OptU32(v)),
            Err(e) => Err(e),
        },
        ParamKind::U64 => match u64_arg(args, name) {
            Ok(v) => Ok(ArgView::U64(v)),
            Err(e) => Err(e),
        },
        ParamKind::I32 => match i32_arg(args, name) {
            Ok(v) => Ok(ArgView::I32(v)),
            Err(e) => Err(e),
        },
        ParamKind::Bool => match bool_arg(args, name) {
            Ok(v) => Ok(ArgView::Bool(v)),
            Err(e) => Err(e),
        },
        ParamKind::Proxies => match proxies_arg(args, name) {
            Ok(v) => Ok(ArgView::Proxies(v)),
            Err(e) => Err(e),
        },
    }
}

/// The values of all arguments, or what is said of the first that does not fit.
pub open spec fn all_args(args: JsonView, params: Seq<(Seq<char>, ParamKind)>) -> Result<
    Seq<ArgView>,
    Seq<char>,
>
    decreases params.len(),
{
    if params.len() == 0 {
        Ok(Seq::empty())
    } else {
        match arg_of(args, params[0].0, params[0].1) {
            Err(e) => Err(e),
            Ok(first) => match all_args(args, params.skip(1)) {
                Err(e) => Err(e),
                Ok(rest) => Ok(seq![first] + rest),
            },
        }
    }
}

/// What a request comes to: the arguments of the call, or what is said of the request.
pub open spec fn call_of(method: Seq<char>, args: JsonView) -> Result<Seq<ArgView>, Seq<char>> {
    match params_of(method) {
        None => Err("unknown method '"@ + method + "'"@),
        Some(params) => all_args(args, params),
    }
}

fn read_arg(args: &Args, name: &str, kind: ParamKind) -> (r: Result<Arg, String>)
    ensures
        match arg_of(args.0@, name@, kind) {
            Err(e) => r is Err && r->Err_0@ == e,
            Ok(v) => r is Ok && r->Ok_0@ == v,
        },
{
    match kind {
        ParamKind::Text => match args.string(name) {
            Ok(v) => Ok(Arg::Text(v)),
            Err(e) => Err(e),
        },
        ParamKind::OptText => match args.opt_string(name) {
            Ok(v) => Ok(Arg::OptText(v)),
            Err(e) => Err(e),
        },
        ParamKind::U16 => match args.u16(name) {
            Ok(v) => Ok(Arg::U16(v)),
            Err(e) => Err(e),
        },
        ParamKind::U32 => match args.u32(name) {
            Ok(v) => Ok(Arg::U32(v)),
            Err(e) => Err(e),
        },
        ParamKind::OptU32 => match args.opt_u32(name) {
            Ok(v) => Ok(Arg::OptU32(v)),
            Err(e) => Err(e),
        },
        ParamKind::U64 => match args.u64(name) {
            Ok(v) => Ok(Arg::U64(v)),
            Err(e) => Err(e),
        },
        ParamKind::I32 => match args.i32(name) {
            Ok(v) => Ok(Arg::I32(v)),
            Err(e) => Err(e),
        },
        ParamKind::Bool => match args.bool(name) {
            Ok(v) => Ok(Arg::Bool(v)),
            Err(e) => Err(e),
        },
        ParamKind::Proxies => match args.proxies(name) {
            Ok(v) => Ok(Arg::Proxies(v)),
            Err(e) => Err(e),
        },
    }
}

/// The arguments read so far, put before the outcome for the rest.
spec fn followed(done: Seq<ArgView>, rest: Result<Seq<ArgView>, Seq<char>>) -> Result<
    Seq<ArgView>,
    Seq<char>,
> {
    match rest {
        Err(e) => Err(e),
        Ok(l) => Ok(done + l),
    }
}

fn read_args(args: &Args, params: &Vec<Param>) -> (r: Result<Vec<Arg>, String>)
    ensures
        match all_args(args.0@, params_view(params@)) {
            Err(e) => r is Err && r->Err_0@ == e,
            Ok(l) => r is Ok && args_view(r->Ok_0@) == l,
        },
{
    let ghost all = params_view(params@);
    let mut out: Vec<Arg> = Vec::new();
    let mut i: usize = 0;
    proof {
        assert(all.skip(0) =~= all);
        assert(all_args(args.0@, all) matches Ok(l) ==> args_view(out@) + l =~= l);
    }
    while i < params.len()
        invariant
            i <= params@.len(),
            all == params_view(params@),
            all_args(args.0@, all) == followed(
                args_view(out@),
                all_args(args.0@, all.skip(i as int)),
            ),
        decreases params@.len() - i,
    {
        let ghost before = args_view(out@);
        let ghost rest = all.skip(i as int);
        assert(rest.skip(1) =~= all.skip(i + 1));
        assert(rest[0] == (params@[i as int].name@, params@[i as int].kind));
        match read_arg(args, params[i].name, params[i].kind) {
            Err(e) => {
                return Err(e);
            },
            Ok(v) => {
                out.push(v);
                proof {
                    assert(args_view(out@) =~= before.push(v@));
                    if let Ok(l) = all_args(args.0@, all.skip(i + 1)) {
                        assert(before + (seq![v@] + l) =~= args_view(out@) + l);
                    }
                }
            },
        }
        i = i + 1;
    }
    proof {
        assert(all.skip(i as int) =~= Seq::empty());
        assert(args_view(out@) + Seq::<ArgView>::empty() =~= args_view(out@));
    }
    Ok(out)
}

/// Turn a request into a call. An unknown method and an argument that is missing or does
/// not fit are reported, never carried out.
pub fn dispatch(method: &str, args: &Json) -> (r: Result<Call, String>)
    ensures
        match call_of(method@, args@) {
            Err(e) => r is Err && r->Err_0@ == e,
            Ok(l) => r is Ok && r->Ok_0.method@ == method@ && args_view(r->Ok_0.args@) == l,
        },
{
    match params(method) {
        None => Err(concat(&concat("unknown method '", method), "'")),
        Some(params) => match read_args(&Args(args), &params) {
            Err(e) => Err(e),
            Ok(values) => Ok(Call { method: owned(method), args: values }),
        },
    }
}

} // verus!
