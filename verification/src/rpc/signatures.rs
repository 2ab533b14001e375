//! What each method takes, seen from its caller: which values of a request become which
//! arguments of the call.

use crate::json::JsonView;
use crate::rpc::args::proxy_entries;
use crate::rpc::{all_args, arg_of, call_of, params_of, ArgView, ParamKind};
use vstd::prelude::*;
use vstd::string::*;

verus! {

/// Whether an object holds an argument under a name. One that may be left out may also be
/// null.
pub open spec fn given(o: JsonView, name: Seq<char>, arg: ArgView) -> bool {
    match arg {
        ArgView::Text(t) => o.get(name) == Some(JsonView::Text(t)),
        ArgView::OptText(None) => o.get(name) is None || o.get(name) == Some(JsonView::Null),
        ArgView::OptText(Some(t)) => o.get(name) == Some(JsonView::Text(t)),
        ArgView::U16(n) => o.get(name) matches Some(v) && v.as_u64() == Some(n as u64),
        ArgView::U32(n) => o.get(name) matches Some(v) && v.as_u64() == Some(n as u64),
        ArgView::OptU32(None) => o.get(name) is None || o.get(name) == Some(JsonView::Null),
        ArgView::OptU32(Some(n)) => o.get(name) matches Some(v) && v.as_u64() == Some(n as u64),
        ArgView::U64(n) => o.get(name) matches Some(v) && v.as_u64() == Some(n),
        ArgView::I32(n) => o.get(name) matches Some(v) && v.as_i64() == Some(n as i64),
        ArgView::Bool(b) => o.get(name) == Some(JsonView::Bool(b)),
        ArgView::Proxies(l) => o.get(name) matches Some(JsonView::Array(items)) && items.len()
            == l.len() && forall|i: int| 0 <= i < items.len() ==> pair(#[trigger] items[i], l[i]),
    }
}

/// Whether an entry of a list names a server and its port.
pub open spec fn pair(item: JsonView, proxy: (Seq<char>, u16)) -> bool {
    &&& item.get("server"@) == Some(JsonView::Text(proxy.0))
    &&& item.get("port"@) matches Some(port) && port.as_u64() == Some(proxy.1 as u64)
}

/// The kind of an argument.
pub open spec fn kind_of(arg: ArgView) -> ParamKind {
    match arg {
        ArgView::Text(_) => ParamKind::Text,
        ArgView::OptText(_) => ParamKind::OptText,
        ArgView::U16(_) => ParamKind::U16,
        ArgView::U32(_) => ParamKind::U32,
        ArgView::OptU32(_) => ParamKind::OptU32,
        ArgView::U64(_) => ParamKind::U64,
        ArgView::I32(_) => ParamKind::I32,
        ArgView::Bool(_) => ParamKind::Bool,
        ArgView::Proxies(_) => ParamKind::Proxies,
    }
}

/// The value under a name is that of the first entry with this name, and there is one only
/// in an object that has such an entry.
pub proof fn lemma_get(entries: Seq<(Seq<char>, JsonView)>, key: Seq<char>, i: int)
    ensures
        0 <= i < entries.len() && entries[i].0 == key && (forall|k: int|
            0 <= k < i ==> (#[trigger] entries[k]).0 != key) ==> JsonView::Object(entries).get(key)
            == Some(entries[i].1),
        (forall|k: int| 0 <= k < entries.len() ==> (#[trigger] entries[k]).0 != key)
            ==> JsonView::Object(entries).get(key) is None,
        JsonView::Array(Seq::new(entries.len(), |k: int| entries[k].1)).get(key) is None,
        JsonView::Null.get(key) is None,
        JsonView::Text(key).get(key) is None,
    decreases entries.len(),
{
    if entries.len() > 0 {
        let rest = entries.skip(1);
        lemma_get(rest, key, i - 1);
        if 0 <= i < entries.len() && entries[i].0 == key && (forall|k: int|
            0 <= k < i ==> (#[trigger] entries[k]).0 != key) && i > 0 {
            assert(entries[0].0 != key);
            assert(rest[i - 1] == entries[i]);
            assert forall|k: int| 0 <= k < i - 1 implies (#[trigger] rest[k]).0 != key by {
                assert(rest[k] == entries[k + 1]);
            }
        }
        if forall|k: int| 0 <= k < entries.len() ==> (#[trigger] entries[k]).0 != key {
            assert(entries[0].0 != key);
            assert forall|k: int| 0 <= k < rest.len() implies (#[trigger] rest[k]).0 != key by {
                assert(rest[k] == entries[k + 1]);
            }
        }
    }
}

/// A number is read as what it is, in each of the two readings that can hold it, and what
/// is no number is none.
pub proof fn lemma_numbers(u: u64, i: i64, t: Seq<char>, b: bool)
    ensures
        JsonView::Uint(u).as_u64() == Some(u),
        JsonView::Int(i).as_i64() == Some(i),
        JsonView::Uint(u).as_i64() is Some <==> u <= i64::MAX,
        JsonView::Uint(u).as_i64() matches Some(n) ==> n == u,
        JsonView::Int(i).as_u64() is Some <==> i >= 0,
        JsonView::Int(i).as_u64() matches Some(n) ==> n == i,
        JsonView::Text(t).as_u64() is None && JsonView::Text(t).as_i64() is None,
        JsonView::Bool(b).as_u64() is None && JsonView::Bool(b).as_i64() is None,
        JsonView::Null.as_u64() is None && JsonView::Null.as_i64() is None,
        JsonView::Text(t).as_str() == Some(t) && JsonView::Text(t).as_bool() is None,
        JsonView::Bool(b).as_bool() == Some(b) && JsonView::Bool(b).as_str() is None,
        JsonView::Uint(u).as_str() is None && JsonView::Uint(u).as_bool() is None,
{
}

proof fn lemma_entries(items: Seq<JsonView>, l: Seq<(Seq<char>, u16)>)
    ensures
        proxy_entries(items) == Ok::<Seq<(Seq<char>, u16)>, Seq<char>>(l) <==> items.len()
            == l.len() && forall|i: int| 0 <= i < items.len() ==> pair(#[trigger] items[i], l[i]),
    decreases items.len(),
{
    if items.len() == 0 {
        if l.len() == 0 {
            assert(l =~= Seq::empty());
        }
    } else {
        let rest = items.skip(1);
        if l.len() > 0 {
            lemma_entries(rest, l.skip(1));
            assert(seq![l[0]] + l.skip(1) =~= l);
        }
        if let Ok(all) = proxy_entries(items) {
            assert(all.skip(1) =~= proxy_entries(rest)->Ok_0);
        }
        if items.len() == l.len() && forall|i: int|
            0 <= i < items.len() ==> pair(#[trigger] items[i], l[i]) {
            assert(pair(items[0], l[0]));
            assert forall|i: int| 0 <= i < rest.len() implies pair(
                #[trigger] rest[i],
                l.skip(1)[i],
            ) by {
                assert(rest[i] == items[i + 1]);
            }
        }
        if proxy_entries(items) == Ok::<Seq<(Seq<char>, u16)>, Seq<char>>(l) {
            assert forall|i: int| 0 <= i < items.len() implies pair(#[trigger] items[i], l[i]) by {
                if i > 0 {
                    assert(items[i] == rest[i - 1]);
                    assert(l[i] == l.skip(1)[i - 1]);
                }
            }
        }
    }
}

/// An argument is read exactly where the object holds it, with its kind, under its name.
pub proof fn lemma_argument(o: JsonView, name: Seq<char>, kind: ParamKind, arg: ArgView)
    ensures
        arg_of(o, name, kind) == Ok::<ArgView, Seq<char>>(arg) <==> kind_of(arg) == kind && given(
            o,
            name,
            arg,
        ),
{
    if let ArgView::Proxies(l) = arg {
        if let Some(JsonView::Array(items)) = o.get(name) {
            lemma_entries(items, l);
        }
    }
}

/// What is said of an argument that is left out names it.
pub proof fn lemma_missing_argument(o: JsonView, name: Seq<char>, kind: ParamKind)
    requires
        o.get(name) is None,
        kind != ParamKind::OptText,
        kind != ParamKind::OptU32,
    ensures
        arg_of(o, name, kind) == Err::<ArgView, Seq<char>>("missing argument '"@ + name + "'"@),
{
}

/// A request is answered for the first of its arguments that does not fit.
pub proof fn lemma_first_fault(
    o: JsonView,
    params: Seq<(Seq<char>, ParamKind)>,
    k: int,
)
    requires
        0 <= k < params.len(),
        forall|i: int|
            0 <= i < k ==> arg_of(o, (#[trigger] params[i]).0, params[i].1) is Ok,
        arg_of(o, params[k].0, params[k].1) is Err,
    ensures
        all_args(o, params) == Err::<Seq<ArgView>, Seq<char>>(
            arg_of(o, params[k].0, params[k].1)->Err_0,
        ),
    decreases params.len(),
{
    if k > 0 {
        assert(arg_of(o, params[0].0, params[0].1) is Ok);
        let rest = params.skip(1);
        assert forall|i: int| 0 <= i < k - 1 implies arg_of(
            o,
            (#[trigger] rest[i]).0,
            rest[i].1,
        ) is Ok by {
            assert(rest[i] == params[i + 1]);
        }
        lemma_first_fault(o, rest, k - 1);
    }
}

/// A request is accepted exactly with one argument for each parameter, in order, each held
/// by the object under the parameter's name.
proof fn lemma_all_given(o: JsonView, params: Seq<(Seq<char>, ParamKind)>, args: Seq<ArgView>)
    ensures
        all_args(o, params) == Ok::<Seq<ArgView>, Seq<char>>(args) <==> args.len() == params.len()
            && forall|i: int|
            0 <= i < args.len() ==> kind_of(#[trigger] args[i]) == params[i].1 && given(
                o,
                params[i].0,
                args[i],
            ),
    decreases params.len(),
{
    if params.len() == 0 {
        if args.len() == 0 {
            assert(args =~= Seq::empty());
        }
    } else {
        let rest = params.skip(1);
        if args.len() > 0 {
            lemma_all_given(o, rest, args.skip(1));
            lemma_argument(o, params[0].0, params[0].1, args[0]);
            assert(seq![args[0]] + args.skip(1) =~= args);
        }
        if let Ok(all) = all_args(o, params) {
            assert(all.skip(1) =~= all_args(o, rest)->Ok_0);
        }
        if args.len() == params.len() && forall|i: int|
            0 <= i < args.len() ==> kind_of(#[trigger] args[i]) == params[i].1 && given(
                o,
                params[i].0,
                args[i],
            ) {
            assert(kind_of(args[0]) == params[0].1);
            let more = args.skip(1);
            assert forall|i: int| 0 <= i < more.len() implies kind_of(#[trigger] more[i])
                == rest[i].1 && given(o, rest[i].0, more[i]) by {
                assert(more[i] == args[i + 1]);
            }
        }
        if all_args(o, params) == Ok::<Seq<ArgView>, Seq<char>>(args) {
            assert forall|i: int| 0 <= i < args.len() implies kind_of(#[trigger] args[i])
                == params[i].1 && given(o, params[i].0, args[i]) by {
                if i > 0 {
                    assert(args[i] == args.skip(1)[i - 1]);
                    assert(params[i] == rest[i - 1]);
                }
            }
        }
    }
}

/// Where the names of the methods differ: in their lengths, and in letters where lengths
/// are the same.
proof fn lemma_names()
    ensures
        "init_app"@.len() == 8,
        "init_app"@[0] == 'i',
        "stop_proxy"@.len() == 10,
        "stop_proxy"@[1] == 't',
        "is_proxy_running"@.len() == 16,
        "is_proxy_running"@[6] == 'x',
        "get_traffic_stats_dto"@.len() == 21,
        "get_traffic_stats_dto"@[17] == '_',
        "get_connections_dto"@.len() == 19,
        "get_connections_dto"@[4] == 'c',
        "close_all_connections_dto"@.len() == 25,
        "close_all_connections_dto"@[0] == 'c',
        "get_proxies"@.len() == 11,
        "get_proxies"@[4] == 'p',
        "get_proxy_groups"@.len() == 16,
        "get_proxy_groups"@[6] == 'o',
        "get_rules"@.len() == 9,
        "get_dns_config"@.len() == 14,
        "get_dns_config"@[0] == 'g',
        "get_dns_config"@[4] == 'd',
        "get_proxy_mode"@.len() == 14,
        "get_proxy_mode"@[0] == 'g',
        "get_proxy_mode"@[4] == 'p',
        "stop_tun_mode"@.len() == 13,
        "stop_tun_mode"@[2] == 'o',
        "start_corduit"@.len() == 13,
        "start_corduit"@[2] == 'a',
        "stop_corduit"@.len() == 12,
        "stop_corduit"@[1] == 't',
        "get_corduit_status"@.len() == 18,
        "get_corduit_status"@[0] == 'g',
        "get_corduit_status"@[4] == 'c',
        "get_traffic_stats"@.len() == 17,
        "get_traffic_stats"@[0] == 'g',
        "get_connections"@.len() == 15,
        "get_connections"@[4] == 'c',
        "get_system_info"@.len() == 15,
        "get_system_info"@[4] == 's',
        "get_version"@.len() == 11,
        "get_version"@[4] == 'v',
        "get_build_info"@.len() == 14,
        "get_build_info"@[0] == 'g',
        "get_build_info"@[4] == 'b',
        "get_active_connections"@.len() == 22,
        "get_active_connections"@[0] == 'g',
        "get_active_connections"@[5] == 'c',
        "close_all_connections"@.len() == 21,
        "close_all_connections"@[17] == 'i',
        "get_connection_stats"@.len() == 20,
        "get_connection_stats"@[0] == 'g',
        "is_wintun_available"@.len() == 19,
        "is_wintun_available"@[4] == 'i',
        "get_wintun_dll_path"@.len() == 19,
        "get_wintun_dll_path"@[4] == 'w',
        "ensure_wintun_dll"@.len() == 17,
        "ensure_wintun_dll"@[0] == 'e',
        "enable_tun_mode"@.len() == 15,
        "enable_tun_mode"@[4] == 'l',
        "disable_tun_mode"@.len() == 16,
        "disable_tun_mode"@[6] == 'e',
        "get_tun_status"@.len() == 14,
        "get_tun_status"@[0] == 'g',
        "get_tun_status"@[4] == 't',
        "get_windows_proxy_mode_str"@.len() == 26,
        "get_windows_tun_stats"@.len() == 21,
        "get_windows_tun_stats"@[17] == 't',
        "enable_uwp_loopback"@.len() == 19,
        "enable_uwp_loopback"@[4] == 'l',
        "open_uwp_loopback_utility"@.len() == 25,
        "open_uwp_loopback_utility"@[0] == 'o',
        "get_android_vpn_fd"@.len() == 18,
        "get_android_vpn_fd"@[0] == 'g',
        "get_android_vpn_fd"@[4] == 'a',
        "clear_android_vpn_fd"@.len() == 20,
        "clear_android_vpn_fd"@[0] == 'c',
        "get_android_proxy_mode"@.len() == 22,
        "get_android_proxy_mode"@[0] == 'g',
        "get_android_proxy_mode"@[5] == 'n',
        "start_android_vpn"@.len() == 17,
        "start_android_vpn"@[0] == 's',
        "stop_android_vpn"@.len() == 16,
        "stop_android_vpn"@[6] == 'n',
        "get_ios_vpn_fd"@.len() == 14,
        "get_ios_vpn_fd"@[0] == 'g',
        "get_ios_vpn_fd"@[4] == 'i',
        "clear_ios_vpn_fd"@.len() == 16,
        "clear_ios_vpn_fd"@[6] == 'i',
        "clear_vpn_fd"@.len() == 12,
        "clear_vpn_fd"@[1] == 'l',
        "stop_rpc_server"@.len() == 15,
        "stop_rpc_server"@[4] == '_',
        "get_rpc_server_status"@.len() == 21,
        "get_rpc_server_status"@[17] == 'a',
        "start_proxy_from_yaml"@.len() == 21,
        "start_proxy_from_yaml"@[17] == 'y',
        "reload_config_from_yaml"@.len() == 23,
        "reload_config_from_yaml"@[19] == 'y',
        "start_proxy_from_file"@.len() == 21,
        "start_proxy_from_file"@[17] == 'f',
        "reload_config_from_file"@.len() == 23,
        "reload_config_from_file"@[19] == 'f',
        "close_connection_by_id"@.len() == 22,
        "close_connection_by_id"@[0] == 'c',
        "close_connection_by_id"@[5] == '_',
        "set_proxy_mode"@.len() == 14,
        "set_proxy_mode"@[0] == 's',
        "set_proxy_mode"@[4] == 'p',
        "initialize_corduit"@.len() == 18,
        "initialize_corduit"@[0] == 'i',
        "initialize_corduit"@[4] == 'i',
        "reload_corduit"@.len() == 14,
        "reload_corduit"@[0] == 'r',
        "reload_corduit"@[4] == 'a',
        "test_config"@.len() == 11,
        "test_config"@[4] == '_',
        "close_connection"@.len() == 16,
        "close_connection"@[6] == 'c',
        "close_active_connection"@.len() == 23,
        "close_active_connection"@[19] == 't',
        "get_logs"@.len() == 8,
        "get_logs"@[0] == 'g',
        "set_log_level"@.len() == 13,
        "set_log_level"@[2] == 't',
        "get_selected_proxy_in_group"@.len() == 27,
        "enable_tun_mode_with_mode"@.len() == 25,
        "enable_tun_mode_with_mode"@[0] == 'e',
        "set_windows_proxy_mode"@.len() == 22,
        "set_windows_proxy_mode"@[0] == 's',
        "set_windows_proxy_mode"@[5] == 'i',
        "set_android_proxy_mode"@.len() == 22,
        "set_android_proxy_mode"@[0] == 's',
        "set_android_proxy_mode"@[5] == 'n',
        "set_android_vpn_fd"@.len() == 18,
        "set_android_vpn_fd"@[0] == 's',
        "set_android_vpn_fd"@[4] == 'a',
        "set_ios_vpn_fd"@.len() == 14,
        "set_ios_vpn_fd"@[0] == 's',
        "set_ios_vpn_fd"@[4] == 'i',
        "set_vpn_fd"@.len() == 10,
        "set_vpn_fd"@[1] == 'e',
        "set_protect_socket_callback_enabled"@.len() == 35,
        "select_proxy"@.len() == 12,
        "select_proxy"@[1] == 'e',
        "test_proxy_latency_dto"@.len() == 22,
        "test_proxy_latency_dto"@[0] == 't',
        "test_proxy_latency_dto"@[5] == 'p',
        "test_all_proxies_latency"@.len() == 24,
        "test_all_proxies_latency"@[5] == 'a',
        "start_tun_mode"@.len() == 14,
        "start_tun_mode"@[0] == 's',
        "start_tun_mode"@[4] == 't',
        "test_proxy_latency"@.len() == 18,
        "test_proxy_latency"@[0] == 't',
        "test_proxy_latency"@[4] == '_',
        "test_tcp_connectivity"@.len() == 21,
        "test_tcp_connectivity"@[17] == 'v',
        "test_outbound_latency"@.len() == 21,
        "test_outbound_latency"@[17] == 'e',
        "test_shadowsocks_latency"@.len() == 24,
        "test_shadowsocks_latency"@[5] == 's',
        "test_proxies_latency"@.len() == 20,
        "test_proxies_latency"@[0] == 't',
        "select_proxy_in_group"@.len() == 21,
        "select_proxy_in_group"@[17] == 'r',
        "start_rpc_server"@.len() == 16,
        "start_rpc_server"@[6] == 'r',
{
    reveal_strlit("init_app");
    reveal_strlit("stop_proxy");
    reveal_strlit("is_proxy_running");
    reveal_strlit("get_traffic_stats_dto");
    reveal_strlit("get_connections_dto");
    reveal_strlit("close_all_connections_dto");
    reveal_strlit("get_proxies");
    reveal_strlit("get_proxy_groups");
    reveal_strlit("get_rules");
    reveal_strlit("get_dns_config");
    reveal_strlit("get_proxy_mode");
    reveal_strlit("stop_tun_mode");
    reveal_strlit("start_corduit");
    reveal_strlit("stop_corduit");
    reveal_strlit("get_corduit_status");
    reveal_strlit("get_traffic_stats");
    reveal_strlit("get_connections");
    reveal_strlit("get_system_info");
    reveal_strlit("get_version");
    reveal_strlit("get_build_info");
    reveal_strlit("get_active_connections");
    reveal_strlit("close_all_connections");
    reveal_strlit("get_connection_stats");
    reveal_strlit("is_wintun_available");
    reveal_strlit("get_wintun_dll_path");
    reveal_strlit("ensure_wintun_dll");
    reveal_strlit("enable_tun_mode");
    reveal_strlit("disable_tun_mode");
    reveal_strlit("get_tun_status");
    reveal_strlit("get_windows_proxy_mode_str");
    reveal_strlit("get_windows_tun_stats");
    reveal_strlit("enable_uwp_loopback");
    reveal_strlit("open_uwp_loopback_utility");
    reveal_strlit("get_android_vpn_fd");
    reveal_strlit("clear_android_vpn_fd");
    reveal_strlit("get_android_proxy_mode");
    reveal_strlit("start_android_vpn");
    reveal_strlit("stop_android_vpn");
    reveal_strlit("get_ios_vpn_fd");
    reveal_strlit("clear_ios_vpn_fd");
    reveal_strlit("clear_vpn_fd");
    reveal_strlit("stop_rpc_server");
    reveal_strlit("get_rpc_server_status");
    reveal_strlit("start_proxy_from_yaml");
    reveal_strlit("reload_config_from_yaml");
    reveal_strlit("start_proxy_from_file");
    reveal_strlit("reload_config_from_file");
    reveal_strlit("close_connection_by_id");
    reveal_strlit("set_proxy_mode");
    reveal_strlit("initialize_corduit");
    reveal_strlit("reload_corduit");
    reveal_strlit("test_config");
    reveal_strlit("close_connection");
    reveal_strlit("close_active_connection");
    reveal_strlit("get_logs");
    reveal_strlit("set_log_level");
    reveal_strlit("get_selected_proxy_in_group");
    reveal_strlit("enable_tun_mode_with_mode");
    reveal_strlit("set_windows_proxy_mode");
    reveal_strlit("set_android_proxy_mode");
    reveal_strlit("set_android_vpn_fd");
    reveal_strlit("set_ios_vpn_fd");
    reveal_strlit("set_vpn_fd");
    reveal_strlit("set_protect_socket_callback_enabled");
    reveal_strlit("select_proxy");
    reveal_strlit("test_proxy_latency_dto");
    reveal_strlit("test_all_proxies_latency");
    reveal_strlit("start_tun_mode");
    reveal_strlit("test_proxy_latency");
    reveal_strlit("test_tcp_connectivity");
    reveal_strlit("test_outbound_latency");
    reveal_strlit("test_shadowsocks_latency");
    reveal_strlit("test_proxies_latency");
    reveal_strlit("select_proxy_in_group");
    reveal_strlit("start_rpc_server");
}

/// A method that takes nothing is called with nothing, whatever the object holds.
pub proof fn lemma_bare_method(m: Seq<char>, o: JsonView)
    requires
        m == "init_app"@
            || m == "stop_proxy"@
            || m == "is_proxy_running"@
            || m == "get_traffic_stats_dto"@
            || m == "get_connections_dto"@
            || m == "close_all_connections_dto"@
            || m == "get_proxies"@
            || m == "get_proxy_groups"@
            || m == "get_rules"@
            || m == "get_dns_config"@
            || m == "get_proxy_mode"@
            || m == "stop_tun_mode"@
            || m == "start_corduit"@
            || m == "stop_corduit"@
            || m == "get_corduit_status"@
            || m == "get_traffic_stats"@
            || m == "get_connections"@
            || m == "get_system_info"@
            || m == "get_version"@
            || m == "get_build_info"@
            || m == "get_active_connections"@
            || m == "close_all_connections"@
            || m == "get_connection_stats"@
            || m == "is_wintun_available"@
            || m == "get_wintun_dll_path"@
            || m == "ensure_wintun_dll"@
            || m == "enable_tun_mode"@
            || m == "disable_tun_mode"@
            || m == "get_tun_status"@
            || m == "get_windows_proxy_mode_str"@
            || m == "get_windows_tun_stats"@
            || m == "enable_uwp_loopback"@
            || m == "open_uwp_loopback_utility"@
            || m == "get_android_vpn_fd"@
            || m == "clear_android_vpn_fd"@
            || m == "get_android_proxy_mode"@
            || m == "start_android_vpn"@
            || m == "stop_android_vpn"@
            || m == "get_ios_vpn_fd"@
            || m == "clear_ios_vpn_fd"@
            || m == "clear_vpn_fd"@
            || m == "stop_rpc_server"@
            || m == "get_rpc_server_status"@,
    ensures
        call_of(m, o) == Ok::<Seq<ArgView>, Seq<char>>(Seq::empty()),
{
    assert(params_of(m) == Some(Seq::<(Seq<char>, ParamKind)>::empty()));
}

/// Starting and reloading from a configuration text take the text under `yaml_config`.
pub proof fn lemma_from_text_takes(m: Seq<char>, o: JsonView, args: Seq<ArgView>)
    requires
        m == "start_proxy_from_yaml"@ || m == "reload_config_from_yaml"@,
    ensures
        call_of(m, o) == Ok::<Seq<ArgView>, Seq<char>>(args) <==> {
            &&& args.len() == 1
            &&& args[0] is Text && given(o, "yaml_config"@, args[0])
        },
{
    lemma_names();
    let params: Seq<(Seq<char>, ParamKind)> = seq![("yaml_config"@, ParamKind::Text)];
    assert(params_of(m) == Some(params));
    lemma_all_given(o, params, args);
}

/// Starting and reloading from a file take its path under `config_path`.
pub proof fn lemma_from_file_takes(m: Seq<char>, o: JsonView, args: Seq<ArgView>)
    requires
        m == "start_proxy_from_file"@ || m == "reload_config_from_file"@,
    ensures
        call_of(m, o) == Ok::<Seq<ArgView>, Seq<char>>(args) <==> {
            &&& args.len() == 1
            &&& args[0] is Text && given(o, "config_path"@, args[0])
        },
{
    lemma_names();
    let params: Seq<(Seq<char>, ParamKind)> = seq![("config_path"@, ParamKind::Text)];
    assert(params_of(m) == Some(params));
    lemma_all_given(o, params, args);
}

/// Closing a listed connection takes its identifier under `id`.
pub proof fn lemma_close_by_id_takes(o: JsonView, args: Seq<ArgView>)
    ensures
        call_of("close_connection_by_id"@, o) == Ok::<Seq<ArgView>, Seq<char>>(args) <==> {
            &&& args.len() == 1
            &&& args[0] is Text && given(o, "id"@, args[0])
        },
{
    lemma_names();
    let params: Seq<(Seq<char>, ParamKind)> = seq![("id"@, ParamKind::Text)];
    assert(params_of("close_connection_by_id"@) == Some(params));
    lemma_all_given(o, params, args);
}

/// Setting the proxy mode takes its number under `mode`.
pub proof fn lemma_set_proxy_mode_takes(o: JsonView, args: Seq<ArgView>)
    ensures
        call_of("set_proxy_mode"@, o) == Ok::<Seq<ArgView>, Seq<char>>(args) <==> {
            &&& args.len() == 1
            &&& args[0] is I32 && given(o, "mode"@, args[0])
        },
{
    lemma_names();
    let params: Seq<(Seq<char>, ParamKind)> = seq![("mode"@, ParamKind::I32)];
    assert(params_of("set_proxy_mode"@) == Some(params));
    lemma_all_given(o, params, args);
}

/// Setting up, reloading and testing take the configuration under `config_json`.
pub proof fn lemma_configuration_takes(m: Seq<char>, o: JsonView, args: Seq<ArgView>)
    requires
        m == "initialize_corduit"@ || m == "reload_corduit"@ || m == "test_config"@,
    ensures
        call_of(m, o) == Ok::<Seq<ArgView>, Seq<char>>(args) <==> {
            &&& args.len() == 1
            &&& args[0] is Text && given(o, "config_json"@, args[0])
        },
{
    lemma_names();
    let params: Seq<(Seq<char>, ParamKind)> = seq![("config_json"@, ParamKind::Text)];
    assert(params_of(m) == Some(params));
    lemma_all_given(o, params, args);
}

/// Closing a connection takes its identifier under `connection_id`.
pub proof fn lemma_close_by_connection_takes(m: Seq<char>, o: JsonView, args: Seq<ArgView>)
    requires
        m == "close_connection"@ || m == "close_active_connection"@,
    ensures
        call_of(m, o) == Ok::<Seq<ArgView>, Seq<char>>(args) <==> {
            &&& args.len() == 1
            &&& args[0] is Text && given(o, "connection_id"@, args[0])
        },
{
    lemma_names();
    let params: Seq<(Seq<char>, ParamKind)> = seq![("connection_id"@, ParamKind::Text)];
    assert(params_of(m) == Some(params));
    lemma_all_given(o, params, args);
}

/// Reading the log takes how many lines under `lines`, which may be left out.
pub proof fn lemma_logs_takes(o: JsonView, args: Seq<ArgView>)
    ensures
        call_of("get_logs"@, o) == Ok::<Seq<ArgView>, Seq<char>>(args) <==> {
            &&& args.len() == 1
            &&& args[0] is OptU32 && given(o, "lines"@, args[0])
        },
{
    lemma_names();
    let params: Seq<(Seq<char>, ParamKind)> = seq![("lines"@, ParamKind::OptU32)];
    assert(params_of("get_logs"@) == Some(params));
    lemma_all_given(o, params, args);
}

/// Setting the log level takes its name under `level`.
pub proof fn lemma_log_level_takes(o: JsonView, args: Seq<ArgView>)
    ensures
        call_of("set_log_level"@, o) == Ok::<Seq<ArgView>, Seq<char>>(args) <==> {
            &&& args.len() == 1
            &&& args[0] is Text && given(o, "level"@, args[0])
        },
{
    lemma_names();
    let params: Seq<(Seq<char>, ParamKind)> = seq![("level"@, ParamKind::Text)];
    assert(params_of("set_log_level"@) == Some(params));
    lemma_all_given(o, params, args);
}

/// Asking for the choice of a group takes its name under `group_name`.
pub proof fn lemma_selected_in_group_takes(o: JsonView, args: Seq<ArgView>)
    ensures
        call_of("get_selected_proxy_in_group"@, o) == Ok::<Seq<ArgView>, Seq<char>>(args) <==> {
            &&& args.len() == 1
            &&& args[0] is Text && given(o, "group_name"@, args[0])
        },
{
    lemma_names();
    let params: Seq<(Seq<char>, ParamKind)> = seq![("group_name"@, ParamKind::Text)];
    assert(params_of("get_selected_proxy_in_group"@) == Some(params));
    lemma_all_given(o, params, args);
}

/// Setting the mode of a platform takes its name under `mode`.
pub proof fn lemma_platform_mode_takes(m: Seq<char>, o: JsonView, args: Seq<ArgView>)
    requires
        m == "enable_tun_mode_with_mode"@ || m == "set_windows_proxy_mode"@ || m == "set_android_proxy_mode"@,
    ensures
        call_of(m, o) == Ok::<Seq<ArgView>, Seq<char>>(args) <==> {
            &&& args.len() == 1
            &&& args[0] is Text && given(o, "mode"@, args[0])
        },
{
    lemma_names();
    let params: Seq<(Seq<char>, ParamKind)> = seq![("mode"@, ParamKind::Text)];
    assert(params_of(m) == Some(params));
    lemma_all_given(o, params, args);
}

/// Handing over a tunnel takes its descriptor under `fd`.
pub proof fn lemma_descriptor_takes(m: Seq<char>, o: JsonView, args: Seq<ArgView>)
    requires
        m == "set_android_vpn_fd"@ || m == "set_ios_vpn_fd"@ || m == "set_vpn_fd"@,
    ensures
        call_of(m, o) == Ok::<Seq<ArgView>, Seq<char>>(args) <==> {
            &&& args.len() == 1
            &&& args[0] is I32 && given(o, "fd"@, args[0])
        },
{
    lemma_names();
    let params: Seq<(Seq<char>, ParamKind)> = seq![("fd"@, ParamKind::I32)];
    assert(params_of(m) == Some(params));
    lemma_all_given(o, params, args);
}

/// Switching socket protection takes a truth value under `enabled`.
pub proof fn lemma_protection_takes(o: JsonView, args: Seq<ArgView>)
    ensures
        call_of("set_protect_socket_callback_enabled"@, o) == Ok::<Seq<ArgView>, Seq<char>>(args) <==> {
            &&& args.len() == 1
            &&& args[0] is Bool && given(o, "enabled"@, args[0])
        },
{
    lemma_names();
    let params: Seq<(Seq<char>, ParamKind)> = seq![("enabled"@, ParamKind::Bool)];
    assert(params_of("set_protect_socket_callback_enabled"@) == Some(params));
    lemma_all_given(o, params, args);
}

/// Choosing a proxy takes the tag of the group, then that of the proxy.
pub proof fn lemma_select_proxy_takes(o: JsonView, args: Seq<ArgView>)
    ensures
        call_of("select_proxy"@, o) == Ok::<Seq<ArgView>, Seq<char>>(args) <==> {
            &&& args.len() == 2
            &&& args[0] is Text && given(o, "group_tag"@, args[0])
            &&& args[1] is Text && given(o, "proxy_tag"@, args[1])
        },
{
    lemma_names();
    let params: Seq<(Seq<char>, ParamKind)> = seq![
        ("group_tag"@, ParamKind::Text),
        ("proxy_tag"@, ParamKind::Text),
    ];
    assert(params_of("select_proxy"@) == Some(params));
    lemma_all_given(o, params, args);
}

/// Testing a proxy takes its tag, the address to ask and the time allowed.
pub proof fn lemma_test_proxy_latency_dto_takes(o: JsonView, args: Seq<ArgView>)
    ensures
        call_of("test_proxy_latency_dto"@, o) == Ok::<Seq<ArgView>, Seq<char>>(args) <==> {
            &&& args.len() == 3
            &&& args[0] is Text && given(o, "tag"@, args[0])
            &&& args[1] is Text && given(o, "test_url"@, args[1])
            &&& args[2] is U64 && given(o, "timeout_ms"@, args[2])
        },
{
    lemma_names();
    let params: Seq<(Seq<char>, ParamKind)> = seq![
        ("tag"@, ParamKind::Text),
        ("test_url"@, ParamKind::Text),
        ("timeout_ms"@, ParamKind::U64),
    ];
    assert(params_of("test_proxy_latency_dto"@) == Some(params));
    lemma_all_given(o, params, args);
}

/// Testing all proxies takes the address to ask and the time allowed.
pub proof fn lemma_test_all_proxies_latency_takes(o: JsonView, args: Seq<ArgView>)
    ensures
        call_of("test_all_proxies_latency"@, o) == Ok::<Seq<ArgView>, Seq<char>>(args) <==> {
            &&& args.len() == 2
            &&& args[0] is Text && given(o, "test_url"@, args[0])
            &&& args[1] is U64 && given(o, "timeout_ms"@, args[1])
        },
{
    lemma_names();
    let params: Seq<(Seq<char>, ParamKind)> = seq![
        ("test_url"@, ParamKind::Text),
        ("timeout_ms"@, ParamKind::U64),
    ];
    assert(params_of("test_all_proxies_latency"@) == Some(params));
    lemma_all_given(o, params, args);
}

/// Starting a tunnel takes its name, its address and its netmask.
pub proof fn lemma_start_tun_mode_takes(o: JsonView, args: Seq<ArgView>)
    ensures
        call_of("start_tun_mode"@, o) == Ok::<Seq<ArgView>, Seq<char>>(args) <==> {
            &&& args.len() == 3
            &&& args[0] is Text && given(o, "tun_name"@, args[0])
            &&& args[1] is Text && given(o, "tun_address"@, args[1])
            &&& args[2] is Text && given(o, "tun_netmask"@, args[2])
        },
{
    lemma_names();
    let params: Seq<(Seq<char>, ParamKind)> = seq![
        ("tun_name"@, ParamKind::Text),
        ("tun_address"@, ParamKind::Text),
        ("tun_netmask"@, ParamKind::Text),
    ];
    assert(params_of("start_tun_mode"@) == Some(params));
    lemma_all_given(o, params, args);
}

/// Testing a server takes its name, its port and the time allowed.
pub proof fn lemma_test_proxy_latency_takes(m: Seq<char>, o: JsonView, args: Seq<ArgView>)
    requires
        m == "test_proxy_latency"@ || m == "test_tcp_connectivity"@,
    ensures
        call_of(m, o) == Ok::<Seq<ArgView>, Seq<char>>(args) <==> {
            &&& args.len() == 3
            &&& args[0] is Text && given(o, "server"@, args[0])
            &&& args[1] is U16 && given(o, "port"@, args[1])
            &&& args[2] is U32 && given(o, "timeout_ms"@, args[2])
        },
{
    lemma_names();
    let params: Seq<(Seq<char>, ParamKind)> = seq![
        ("server"@, ParamKind::Text),
        ("port"@, ParamKind::U16),
        ("timeout_ms"@, ParamKind::U32),
    ];
    assert(params_of(m) == Some(params));
    lemma_all_given(o, params, args);
}

/// Testing an outbound takes its name and the time allowed.
pub proof fn lemma_test_outbound_latency_takes(o: JsonView, args: Seq<ArgView>)
    ensures
        call_of("test_outbound_latency"@, o) == Ok::<Seq<ArgView>, Seq<char>>(args) <==> {
            &&& args.len() == 2
            &&& args[0] is Text && given(o, "outbound_name"@, args[0])
            &&& args[1] is U32 && given(o, "timeout_ms"@, args[1])
        },
{
    lemma_names();
    let params: Seq<(Seq<char>, ParamKind)> = seq![
        ("outbound_name"@, ParamKind::Text),
        ("timeout_ms"@, ParamKind::U32),
    ];
    assert(params_of("test_outbound_latency"@) == Some(params));
    lemma_all_given(o, params, args);
}

/// Testing a Shadowsocks server takes its name, its port, the password, the cipher and the time
/// allowed.
pub proof fn lemma_test_shadowsocks_latency_takes(o: JsonView, args: Seq<ArgView>)
    ensures
        call_of("test_shadowsocks_latency"@, o) == Ok::<Seq<ArgView>, Seq<char>>(args) <==> {
            &&& args.len() == 5
            &&& args[0] is Text && given(o, "server"@, args[0])
            &&& args[1] is U16 && given(o, "port"@, args[1])
            &&& args[2] is Text && given(o, "password"@, args[2])
            &&& args[3] is Text && given(o, "cipher"@, args[3])
            &&& args[4] is U32 && given(o, "timeout_ms"@, args[4])
        },
{
    lemma_names();
    let params: Seq<(Seq<char>, ParamKind)> = seq![
        ("server"@, ParamKind::Text),
        ("port"@, ParamKind::U16),
        ("password"@, ParamKind::Text),
        ("cipher"@, ParamKind::Text),
        ("timeout_ms"@, ParamKind::U32),
    ];
    assert(params_of("test_shadowsocks_latency"@) == Some(params));
    lemma_all_given(o, params, args);
}

/// Testing several servers takes them with their ports, and the time allowed.
pub proof fn lemma_test_proxies_latency_takes(o: JsonView, args: Seq<ArgView>)
    ensures
        call_of("test_proxies_latency"@, o) == Ok::<Seq<ArgView>, Seq<char>>(args) <==> {
            &&& args.len() == 2
            &&& args[0] is Proxies && given(o, "proxies"@, args[0])
            &&& args[1] is U32 && given(o, "timeout_ms"@, args[1])
        },
{
    lemma_names();
    let params: Seq<(Seq<char>, ParamKind)> = seq![
        ("proxies"@, ParamKind::Proxies),
        ("timeout_ms"@, ParamKind::U32),
    ];
    assert(params_of("test_proxies_latency"@) == Some(params));
    lemma_all_given(o, params, args);
}

/// Choosing within a group takes the name of the group first, then that of the proxy.
pub proof fn lemma_select_proxy_in_group_takes(o: JsonView, args: Seq<ArgView>)
    ensures
        call_of("select_proxy_in_group"@, o) == Ok::<Seq<ArgView>, Seq<char>>(args) <==> {
            &&& args.len() == 2
            &&& args[0] is Text && given(o, "group_name"@, args[0])
            &&& args[1] is Text && given(o, "proxy_name"@, args[1])
        },
{
    lemma_names();
    let params: Seq<(Seq<char>, ParamKind)> = seq![
        ("group_name"@, ParamKind::Text),
        ("proxy_name"@, ParamKind::Text),
    ];
    assert(params_of("select_proxy_in_group"@) == Some(params));
    lemma_all_given(o, params, args);
}

/// Starting the server takes its port, and a token that may be left out.
pub proof fn lemma_start_rpc_server_takes(o: JsonView, args: Seq<ArgView>)
    ensures
        call_of("start_rpc_server"@, o) == Ok::<Seq<ArgView>, Seq<char>>(args) <==> {
            &&& args.len() == 2
            &&& args[0] is U16 && given(o, "port"@, args[0])
            &&& args[1] is OptText && given(o, "token"@, args[1])
        },
{
    lemma_names();
    let params: Seq<(Seq<char>, ParamKind)> = seq![("port"@, ParamKind::U16), ("token"@, ParamKind::OptText)];
    assert(params_of("start_rpc_server"@) == Some(params));
    lemma_all_given(o, params, args);
}

/// A method that is not declared is refused by its name.
pub proof fn lemma_unknown_method(m: Seq<char>, o: JsonView)
    requires
        !crate::rpc::declared(m),
    ensures
        call_of(m, o) == Err::<Seq<ArgView>, Seq<char>>("unknown method '"@ + m + "'"@),
{
    crate::rpc::lemma_declared_is_dispatched(m);
}

} // verus!
