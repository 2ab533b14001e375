//! What the controller's answers say, read by their keys, and which calls its requests come
//! to.

use crate::json::{entry, lemma_inserted, JsonView};
use crate::rpc::calendar::timestamp_text;
use crate::rpc::controller::{mode_number, mode_text, rule_type_text, RouteView};
use crate::rpc::conversation::{delay_answer, failed, next_step, ok_empty, version_object, StepView};
use crate::rpc::shapes::{
    configs_object, connection_object, connections_object, group_object, proxies_by_name,
    proxy_object, rule_object, table_of, text_field, with_groups, GeneralSnapshot,
};
use crate::rpc::signatures::{
    lemma_close_by_id_takes, lemma_from_file_takes, lemma_get, lemma_log_level_takes,
    lemma_select_proxy_takes, lemma_set_proxy_mode_takes, lemma_test_proxy_latency_dto_takes,
};
use crate::rpc::{call_of, ArgView};
use vstd::prelude::*;
use vstd::string::*;

verus! {

/// Where the keys of the answers differ: in their lengths, and in letters where lengths are
/// the same.
proof fn lemma_keys()
    ensures
        "name"@.len() == 4,
        "name"@[0] == 'n',
        "name"@[1] == 'a',
        "type"@.len() == 4,
        "type"@[0] == 't',
        "type"@[1] == 'y',
        "server"@.len() == 6,
        "server"@[0] == 's',
        "port"@.len() == 4,
        "port"@[0] == 'p',
        "port"@[1] == 'o',
        "alive"@.len() == 5,
        "alive"@[0] == 'a',
        "history"@.len() == 7,
        "history"@[6] == 'y',
        "all"@.len() == 3,
        "all"@[0] == 'a',
        "now"@.len() == 3,
        "now"@[0] == 'n',
        "payload"@.len() == 7,
        "payload"@[6] == 'd',
        "proxy"@.len() == 5,
        "proxy"@[0] == 'p',
        "id"@.len() == 2,
        "id"@[0] == 'i',
        "upload"@.len() == 6,
        "upload"@[0] == 'u',
        "download"@.len() == 8,
        "download"@[0] == 'd',
        "start"@.len() == 5,
        "start"@[0] == 's',
        "metadata"@.len() == 8,
        "metadata"@[0] == 'm',
        "rule"@.len() == 4,
        "rule"@[0] == 'r',
        "rule"@[1] == 'u',
        "rulePayload"@.len() == 11,
        "rulePayload"@[3] == 'e',
        "chains"@.len() == 6,
        "chains"@[0] == 'c',
        "network"@.len() == 7,
        "network"@[6] == 'k',
        "sourceIP"@.len() == 8,
        "sourceIP"@[0] == 's',
        "sourcePort"@.len() == 10,
        "sourcePort"@[2] == 'u',
        "destinationIP"@.len() == 13,
        "destinationIP"@[1] == 'e',
        "destinationPort"@.len() == 15,
        "host"@.len() == 4,
        "host"@[0] == 'h',
        "host"@[1] == 'o',
        "downloadTotal"@.len() == 13,
        "downloadTotal"@[1] == 'o',
        "uploadTotal"@.len() == 11,
        "uploadTotal"@[3] == 'o',
        "connections"@.len() == 11,
        "connections"@[3] == 'n',
        "mode"@.len() == 4,
        "mode"@[0] == 'm',
        "mode"@[1] == 'o',
        "log-level"@.len() == 9,
        "log-level"@[0] == 'l',
        "allow-lan"@.len() == 9,
        "allow-lan"@[0] == 'a',
        "bind-address"@.len() == 12,
        "ipv6"@.len() == 4,
        "ipv6"@[0] == 'i',
        "ipv6"@[1] == 'p',
        "tcp-concurrent"@.len() == 14,
        "socks-port"@.len() == 10,
        "socks-port"@[2] == 'c',
        "mixed-port"@.len() == 10,
        "mixed-port"@[2] == 'x',
        "dns"@.len() == 3,
        "dns"@[0] == 'd',
        "up"@.len() == 2,
        "up"@[0] == 'u',
        "down"@.len() == 4,
        "down"@[0] == 'd',
        "down"@[1] == 'o',
        "time"@.len() == 4,
        "time"@[0] == 't',
        "time"@[1] == 'i',
        "delay"@.len() == 5,
        "delay"@[0] == 'd',
        "version"@.len() == 7,
        "version"@[6] == 'n',
        "premium"@.len() == 7,
        "premium"@[6] == 'm',
        "meta"@.len() == 4,
        "meta"@[0] == 'm',
        "meta"@[1] == 'e',
        "controller"@.len() == 10,
        "controller"@[2] == 'n',
        "routes"@.len() == 6,
        "routes"@[0] == 'r',
        "proxies"@.len() == 7,
        "proxies"@[6] == 's',
        "group_tag"@.len() == 9,
        "group_tag"@[0] == 'g',
        "proxy_tag"@.len() == 9,
        "proxy_tag"@[0] == 'p',
        "tag"@.len() == 3,
        "tag"@[0] == 't',
        "test_url"@.len() == 8,
        "test_url"@[0] == 't',
        "timeout_ms"@.len() == 10,
        "timeout_ms"@[2] == 'm',
        "level"@.len() == 5,
        "level"@[0] == 'l',
        "config_path"@.len() == 11,
        "config_path"@[3] == 'f',
        "message"@.len() == 7,
        "message"@[6] == 'e',
{
    reveal_strlit("name");
    reveal_strlit("type");
    reveal_strlit("server");
    reveal_strlit("port");
    reveal_strlit("alive");
    reveal_strlit("history");
    reveal_strlit("all");
    reveal_strlit("now");
    reveal_strlit("payload");
    reveal_strlit("proxy");
    reveal_strlit("id");
    reveal_strlit("upload");
    reveal_strlit("download");
    reveal_strlit("start");
    reveal_strlit("metadata");
    reveal_strlit("rule");
    reveal_strlit("rulePayload");
    reveal_strlit("chains");
    reveal_strlit("network");
    reveal_strlit("sourceIP");
    reveal_strlit("sourcePort");
    reveal_strlit("destinationIP");
    reveal_strlit("destinationPort");
    reveal_strlit("host");
    reveal_strlit("downloadTotal");
    reveal_strlit("uploadTotal");
    reveal_strlit("connections");
    reveal_strlit("mode");
    reveal_strlit("log-level");
    reveal_strlit("allow-lan");
    reveal_strlit("bind-address");
    reveal_strlit("ipv6");
    reveal_strlit("tcp-concurrent");
    reveal_strlit("socks-port");
    reveal_strlit("mixed-port");
    reveal_strlit("dns");
    reveal_strlit("up");
    reveal_strlit("down");
    reveal_strlit("time");
    reveal_strlit("delay");
    reveal_strlit("version");
    reveal_strlit("premium");
    reveal_strlit("meta");
    reveal_strlit("controller");
    reveal_strlit("routes");
    reveal_strlit("proxies");
    reveal_strlit("group_tag");
    reveal_strlit("proxy_tag");
    reveal_strlit("tag");
    reveal_strlit("test_url");
    reveal_strlit("timeout_ms");
    reveal_strlit("level");
    reveal_strlit("config_path");
    reveal_strlit("message");
}

/// The text under a key, and nothing where there is none.
pub open spec fn text_at(o: JsonView, key: Seq<char>) -> Seq<char> {
    match o.get(key) {
        Some(JsonView::Text(t)) => t,
        _ => Seq::empty(),
    }
}

/// The number under a key, and zero where there is none.
pub open spec fn number_at(o: JsonView, key: Seq<char>) -> u64 {
    match o.get(key) {
        Some(v) => match v.as_u64() {
            Some(n) => n,
            None => 0,
        },
        None => 0,
    }
}

/// Whether an object holds a text under a key.
pub open spec fn says(o: JsonView, key: Seq<char>, text: Seq<char>) -> bool {
    o.get(key) == Some(JsonView::Text(text))
}

/// Whether an object holds a number under a key.
pub open spec fn counts(o: JsonView, key: Seq<char>, n: u64) -> bool {
    o.get(key) == Some(JsonView::Uint(n))
}

/// A rule is told with its kind in capitals, what it matches and where it sends it.
pub proof fn lemma_rule_told(rule: JsonView)
    ensures
        says(rule_object(rule), "type"@, rule_type_text(text_at(rule, "rule_type"@))),
        says(rule_object(rule), "payload"@, text_at(rule, "payload"@)),
        says(rule_object(rule), "proxy"@, text_at(rule, "outbound"@)),
{
    lemma_keys();
    let e = rule_object(rule)->Object_0;
    lemma_get(e, "type"@, 0);
    lemma_get(e, "payload"@, 1);
    lemma_get(e, "proxy"@, 2);
}

/// A connection is told with what it carried, when it began, which rule sent it where, and
/// where it goes: by its name where it has one, and else by its address.
pub proof fn lemma_connection_told(c: JsonView)
    ensures
        ({
            let o = connection_object(c);
            &&& says(o, "id"@, text_at(c, "id"@))
            &&& counts(o, "upload"@, number_at(c, "upload"@))
            &&& counts(o, "download"@, number_at(c, "download"@))
            &&& says(o, "rule"@, text_at(c, "rule"@))
            &&& o.get("chains"@) == Some(
                JsonView::Array(seq![JsonView::Text(text_at(c, "outbound"@))]),
            )
            &&& o.get("metadata"@) matches Some(m) && {
                &&& says(m, "network"@, "tcp"@)
                &&& says(m, "type"@, text_at(c, "protocol"@))
                &&& says(m, "destinationIP"@, text_at(c, "dst_addr"@))
                &&& says(m, "sourceIP"@, Seq::empty()) && says(m, "sourcePort"@, Seq::empty())
                &&& text_at(c, "dst_domain"@).len() > 0 ==> says(
                    m,
                    "host"@,
                    text_at(c, "dst_domain"@),
                )
                &&& text_at(c, "dst_domain"@).len() == 0 ==> says(m, "host"@, text_at(c, "dst_addr"@))
            }
            &&& c.get("start_time"@) matches Some(JsonView::Int(t)) ==> says(
                o,
                "start"@,
                timestamp_text(t as int),
            )
        }),
{
    lemma_keys();
    let o = connection_object(c);
    let e = o->Object_0;
    lemma_get(e, "id"@, 0);
    lemma_get(e, "upload"@, 1);
    lemma_get(e, "download"@, 2);
    lemma_get(e, "start"@, 3);
    lemma_get(e, "metadata"@, 4);
    lemma_get(e, "rule"@, 5);
    lemma_get(e, "rulePayload"@, 6);
    lemma_get(e, "chains"@, 7);
    let m = o.get("metadata"@)->0;
    let e = m->Object_0;
    lemma_get(e, "network"@, 0);
    lemma_get(e, "type"@, 1);
    lemma_get(e, "sourceIP"@, 2);
    lemma_get(e, "sourcePort"@, 3);
    lemma_get(e, "destinationIP"@, 4);
    lemma_get(e, "destinationPort"@, 5);
    lemma_get(e, "host"@, 6);
}

/// The connections are told all, in their order, with what went up and down in total.
pub proof fn lemma_connections_told(connections: Seq<JsonView>, stats: JsonView, i: int)
    requires
        0 <= i < connections.len(),
    ensures
        ({
            let o = connections_object(JsonView::Array(connections), stats);
            &&& counts(o, "downloadTotal"@, number_at(stats, "total_download"@))
            &&& counts(o, "uploadTotal"@, number_at(stats, "total_upload"@))
            &&& o.get("connections"@) matches Some(JsonView::Array(list)) && list.len()
                == connections.len() && list[i] == connection_object(connections[i])
        }),
{
    lemma_keys();
    let e = connections_object(JsonView::Array(connections), stats)->Object_0;
    lemma_get(e, "downloadTotal"@, 0);
    lemma_get(e, "uploadTotal"@, 1);
    lemma_get(e, "connections"@, 2);
}

/// A proxy is told by its name with its kind, and with its server, its port and whether it
/// is alive where these are known. It has no members.
pub proof fn lemma_proxy_told(p: JsonView, name: Seq<char>, now: int)
    ensures
        ({
            let o = proxy_object(p, name, now);
            &&& says(o, "name"@, name)
            &&& says(o, "type"@, text_at(p, "protocol_type"@))
            &&& p.get("server"@) matches Some(JsonView::Text(s)) ==> says(o, "server"@, s)
            &&& p.get("server"@) is None ==> o.get("server"@) is None
            &&& p.get("port"@) matches Some(JsonView::Uint(n)) ==> counts(o, "port"@, n)
            &&& p.get("port"@) is None ==> o.get("port"@) is None
            &&& p.get("alive"@) matches Some(JsonView::Bool(b)) ==> o.get("alive"@) == Some(
                JsonView::Bool(b),
            )
            &&& p.get("alive"@) is None ==> o.get("alive"@) is None
            &&& o.get("all"@) == Some(JsonView::Array(Seq::empty()))
            &&& says(o, "now"@, Seq::empty())
        }),
{
    lemma_keys();
    let o = proxy_object(p, name, now);
    let e = o->Object_0;
    let n = e.len() as int;
    lemma_get(e, "name"@, 0);
    lemma_get(e, "type"@, 1);
    lemma_get(e, "server"@, 2);
    lemma_get(e, "port"@, 2);
    lemma_get(e, "port"@, 3);
    lemma_get(e, "alive"@, 2);
    lemma_get(e, "alive"@, 3);
    lemma_get(e, "alive"@, 4);
    lemma_get(e, "all"@, n - 2);
    lemma_get(e, "now"@, n - 1);
    assert(e[n - 1].0 == "now"@ && e[n - 2].0 == "all"@ && e[n - 3].0 == "history"@);
    assert forall|k: int| 2 <= k < n - 3 implies (#[trigger] e[k]).0 == "server"@ || e[k].0
        == "port"@ || e[k].0 == "alive"@ by {}
}

/// A group is told by its name with its kind, its members in their order, and the one that
/// is selected.
pub proof fn lemma_group_told(g: JsonView, name: Seq<char>, names: Seq<Seq<char>>)
    ensures
        ({
            let o = group_object(g, name);
            let list = Seq::new(names.len(), |i: int| JsonView::Text(names[i]));
            &&& says(o, "name"@, name)
            &&& says(o, "type"@, text_at(g, "group_type"@))
            &&& says(o, "now"@, text_at(g, "selected"@))
            &&& g.get("proxies"@) == Some(JsonView::Array(list)) ==> o.get("all"@) == Some(
                JsonView::Array(list),
            )
        }),
{
    lemma_keys();
    let e = group_object(g, name)->Object_0;
    lemma_get(e, "name"@, 0);
    lemma_get(e, "type"@, 1);
    lemma_get(e, "all"@, 2);
    lemma_get(e, "now"@, 3);
    lemma_all_texts(names);
}

proof fn lemma_all_texts(names: Seq<Seq<char>>)
    ensures
        ({
            let list = Seq::new(names.len(), |i: int| JsonView::Text(names[i]));
            crate::rpc::shapes::only_texts(list) == list
        }),
    decreases names.len(),
{
    let list = Seq::new(names.len(), |i: int| JsonView::Text(names[i]));
    if names.len() > 0 {
        let before = names.drop_last();
        lemma_all_texts(before);
        assert(list.drop_last() =~= Seq::new(before.len(), |i: int| JsonView::Text(before[i])));
        assert(list.drop_last().push(list.last()) =~= list);
    } else {
        assert(list =~= Seq::empty());
    }
}

/// What is told under a name is the last group with that tag, and the last proxy with it
/// where no group has it. Under a name that is no tag nothing is told.
pub proof fn lemma_table_told(proxies: Seq<JsonView>, groups: Seq<JsonView>, now: int, name: Seq<char>)
    ensures
        ({
            let table = JsonView::Object(
                table_of(JsonView::Array(proxies), JsonView::Array(groups), now),
            );
            let g = last_tagged(groups, name);
            let p = last_tagged(proxies, name);
            table.get(name) == match (g, p) {
                (Some(g), _) => Some(group_object(g, name)),
                (None, Some(p)) => Some(proxy_object(p, name, now)),
                (None, None) => None,
            }
        }),
{
    lemma_proxies_entered(proxies, now, name);
    lemma_groups_entered(proxies_by_name(proxies, now), groups, name);
}

/// The last of some objects with a tag.
pub open spec fn last_tagged(items: Seq<JsonView>, tag: Seq<char>) -> Option<JsonView>
    decreases items.len(),
{
    if items.len() == 0 {
        None
    } else if items.last().get("tag"@) == Some(JsonView::Text(tag)) {
        Some(items.last())
    } else {
        last_tagged(items.drop_last(), tag)
    }
}

proof fn lemma_proxies_entered(proxies: Seq<JsonView>, now: int, name: Seq<char>)
    ensures
        entry(proxies_by_name(proxies, now), name) == match last_tagged(proxies, name) {
            Some(p) => Some(proxy_object(p, name, now)),
            None => None,
        },
    decreases proxies.len(),
{
    if proxies.len() > 0 {
        let before = proxies.drop_last();
        lemma_proxies_entered(before, now, name);
        if let Some(tag) = text_field(proxies.last(), "tag"@) {
            lemma_inserted(
                proxies_by_name(before, now),
                tag,
                proxy_object(proxies.last(), tag, now),
                name,
            );
        }
    }
}

proof fn lemma_groups_entered(
    table: Seq<(Seq<char>, JsonView)>,
    groups: Seq<JsonView>,
    name: Seq<char>,
)
    ensures
        entry(with_groups(table, groups), name) == match last_tagged(groups, name) {
            Some(g) => Some(group_object(g, name)),
            None => entry(table, name),
        },
    decreases groups.len(),
{
    if groups.len() > 0 {
        let before = groups.drop_last();
        lemma_groups_entered(table, before, name);
        if let Some(tag) = text_field(groups.last(), "tag"@) {
            lemma_inserted(
                with_groups(table, before),
                tag,
                group_object(groups.last(), tag),
                name,
            );
        }
    }
}

/// The settings are told as they are, the ports where there are any.
pub proof fn lemma_settings_told(s: GeneralSnapshot, dns: Option<JsonView>)
    ensures
        ({
            let o = configs_object(s, dns);
            &&& says(o, "mode"@, mode_text(s.runtime_mode, s.mode@))
            &&& says(o, "log-level"@, s.log_level@)
            &&& o.get("allow-lan"@) == Some(JsonView::Bool(s.allow_lan))
            &&& says(o, "bind-address"@, s.bind_address@)
            &&& o.get("ipv6"@) == Some(JsonView::Bool(s.ipv6))
            &&& o.get("tcp-concurrent"@) == Some(JsonView::Bool(s.tcp_concurrent))
            &&& s.socks_port matches Some(p) ==> counts(o, "socks-port"@, p as u64)
            &&& s.mixed_port matches Some(p) ==> counts(o, "mixed-port"@, p as u64)
            &&& s.socks_port is None ==> o.get("socks-port"@) is None
            &&& s.mixed_port is None ==> o.get("mixed-port"@) is None
            &&& o.get("dns"@) == dns
        }),
{
    lemma_keys();
    let o = configs_object(s, dns);
    let e = o->Object_0;
    lemma_get(e, "mode"@, 0);
    lemma_get(e, "log-level"@, 1);
    lemma_get(e, "allow-lan"@, 2);
    lemma_get(e, "bind-address"@, 3);
    lemma_get(e, "ipv6"@, 4);
    lemma_get(e, "tcp-concurrent"@, 5);
    lemma_get(e, "socks-port"@, 6);
    lemma_get(e, "mixed-port"@, 6);
    lemma_get(e, "mixed-port"@, 7);
    lemma_get(e, "dns"@, e.len() - 1);
    assert forall|k: int| 6 <= k < e.len() implies (#[trigger] e[k]).0 == "socks-port"@ || e[k].0
        == "mixed-port"@ || e[k].0 == "dns"@ by {}
}

/// Traffic is told as it was counted: what goes up as up, what comes down as down.
pub proof fn lemma_traffic_told(body: Option<JsonView>, stats: JsonView, now: int)
    ensures
        ({
            let said = seq![Ok::<JsonView, Seq<char>>(stats)];
            &&& next_step(RouteView::Traffic, body, said, now) matches StepView::Done(r)
            &&& r.status == 200
            &&& r.body matches Some(o)
            &&& counts(o, "up"@, number_at(stats, "upload"@))
            &&& counts(o, "down"@, number_at(stats, "download"@))
        }),
{
    lemma_keys();
    let said = seq![Ok::<JsonView, Seq<char>>(stats)];
    if let StepView::Done(r) = next_step(RouteView::Traffic, body, said, now) {
        let e = r.body->0->Object_0;
        lemma_get(e, "up"@, 0);
        lemma_get(e, "down"@, 1);
    }
}

/// A delay that was measured is told; a test that failed is answered with what it says.
pub proof fn lemma_delay_told(n: u64, fault: Seq<char>, more: Seq<(Seq<char>, JsonView)>)
    ensures
        ({
            let r = delay_answer(
                Ok(JsonView::Object(seq![("latency_ms"@, JsonView::Uint(n))] + more)),
            );
            &&& r.status == 200
            &&& r.body matches Some(o) && counts(o, "delay"@, n)
        }),
        delay_answer(Err(fault)).status == 504,
        delay_answer(Err(fault)).body matches Some(o) && says(o, "message"@, fault),
{
    let told = seq![("latency_ms"@, JsonView::Uint(n))] + more;
    lemma_get(told, "latency_ms"@, 0);
    let e = delay_answer(Ok(JsonView::Object(told))).body->0->Object_0;
    lemma_get(e, "delay"@, 0);
    let f = delay_answer(Err(fault)).body->0->Object_0;
    lemma_get(f, "message"@, 0);
}

/// The version is the engine's own, and no extension of another vendor is claimed.
pub proof fn lemma_version_told(v: Seq<char>)
    ensures
        says(version_object(Ok(JsonView::Text(v))), "version"@, v),
        version_object(Ok(JsonView::Text(v))).get("premium"@) == Some(JsonView::Bool(false)),
        version_object(Ok(JsonView::Text(v))).get("meta"@) == Some(JsonView::Bool(false)),
{
    lemma_keys();
    let e = version_object(Ok(JsonView::Text(v)))->Object_0;
    lemma_get(e, "version"@, 0);
    lemma_get(e, "premium"@, 1);
    lemma_get(e, "meta"@, 2);
}

/// What is refused is answered with its status and what is said of it.
pub proof fn lemma_failure_told(status: u16, message: Seq<char>)
    ensures
        failed(status, message).status == status,
        failed(status, message).body matches Some(o) && says(o, "message"@, message),
{
    let e = failed(status, message).body->0->Object_0;
    lemma_get(e, "message"@, 0);
}

/// Selecting a proxy in a group calls for that: the group of the path first, then the proxy
/// of the body. What comes of it is the answer.
pub proof fn lemma_selection_asked(
    group: Seq<char>,
    proxy: Seq<char>,
    body: JsonView,
    now: int,
    fault: Seq<char>,
    value: JsonView,
)
    requires
        body.get("name"@) == Some(JsonView::Text(proxy)),
    ensures
        next_step(RouteView::ProxySelect(group), Some(body), Seq::empty(), now) matches StepView::Ask(
            method,
            params,
        ) && method == "select_proxy"@ && call_of(method, params) == Ok::<Seq<ArgView>, Seq<char>>(
            seq![ArgView::Text(group), ArgView::Text(proxy)],
        ),
        next_step(RouteView::ProxySelect(group), Some(body), seq![Ok(value)], now)
            == StepView::Done(ok_empty()),
        next_step(RouteView::ProxySelect(group), Some(body), seq![Err(fault)], now)
            == StepView::Done(failed(400, fault)),
{
    lemma_keys();
    if let StepView::Ask(method, params) = next_step(
        RouteView::ProxySelect(group),
        Some(body),
        Seq::empty(),
        now,
    ) {
        let e = params->Object_0;
        lemma_get(e, "group_tag"@, 0);
        lemma_get(e, "proxy_tag"@, 1);
        lemma_select_proxy_takes(params, seq![ArgView::Text(group), ArgView::Text(proxy)]);
    }
}

/// A delay test calls for one of the proxy in the path, at the address and within the time
/// of the query.
pub proof fn lemma_delay_asked(name: Seq<char>, url: Seq<char>, timeout: u64, now: int)
    ensures
        next_step(RouteView::ProxyDelay(name, url, timeout), None, Seq::empty(), now) matches StepView::Ask(
            method,
            params,
        ) && method == "test_proxy_latency_dto"@ && call_of(method, params) == Ok::<
            Seq<ArgView>,
            Seq<char>,
        >(seq![ArgView::Text(name), ArgView::Text(url), ArgView::U64(timeout)]),
{
    lemma_keys();
    if let StepView::Ask(method, params) = next_step(
        RouteView::ProxyDelay(name, url, timeout),
        None,
        Seq::empty(),
        now,
    ) {
        let e = params->Object_0;
        lemma_get(e, "tag"@, 0);
        lemma_get(e, "test_url"@, 1);
        lemma_get(e, "timeout_ms"@, 2);
        lemma_test_proxy_latency_dto_takes(
            params,
            seq![ArgView::Text(name), ArgView::Text(url), ArgView::U64(timeout)],
        );
    }
}

/// Closing a connection calls for closing that one.
pub proof fn lemma_closing_asked(id: Seq<char>, now: int, fault: Seq<char>, value: JsonView)
    ensures
        next_step(RouteView::ConnectionClose(id), None, Seq::empty(), now) matches StepView::Ask(
            method,
            params,
        ) && method == "close_connection_by_id"@ && call_of(method, params) == Ok::<
            Seq<ArgView>,
            Seq<char>,
        >(seq![ArgView::Text(id)]),
        next_step(RouteView::ConnectionClose(id), None, seq![Ok(value)], now) == StepView::Done(
            ok_empty(),
        ),
        next_step(RouteView::ConnectionClose(id), None, seq![Err(fault)], now) == StepView::Done(
            failed(404, fault),
        ),
{
    if let StepView::Ask(method, params) = next_step(
        RouteView::ConnectionClose(id),
        None,
        Seq::empty(),
        now,
    ) {
        lemma_get(params->Object_0, "id"@, 0);
        lemma_close_by_id_takes(params, seq![ArgView::Text(id)]);
    }
}

/// A reload calls for one from the path of the body.
pub proof fn lemma_reload_asked(path: Seq<char>, body: JsonView, now: int)
    requires
        body.get("path"@) == Some(JsonView::Text(path)),
    ensures
        next_step(RouteView::ConfigsPut, Some(body), Seq::empty(), now) matches StepView::Ask(
            method,
            params,
        ) && method == "reload_config_from_file"@ && call_of(method, params) == Ok::<
            Seq<ArgView>,
            Seq<char>,
        >(seq![ArgView::Text(path)]),
{
    if let StepView::Ask(method, params) = next_step(
        RouteView::ConfigsPut,
        Some(body),
        Seq::empty(),
        now,
    ) {
        lemma_get(params->Object_0, "config_path"@, 0);
        lemma_from_file_takes(method, params, seq![ArgView::Text(path)]);
    }
}

/// A patch of the mode and the level sets the mode first, then the level; one of the mode
/// alone ends behind that, and one of the level alone begins there. A mode that there is not
/// is refused, and so is a patch of neither.
pub proof fn lemma_patch_asked(
    mode: Seq<char>,
    level: Seq<char>,
    n: i32,
    both: JsonView,
    first: JsonView,
    second: JsonView,
    neither: JsonView,
    value: JsonView,
    fault: Seq<char>,
    now: int,
)
    requires
        mode_number(mode) == Some(n),
        both.get("mode"@) == Some(JsonView::Text(mode)),
        both.get("log-level"@) == Some(JsonView::Text(level)),
        first.get("mode"@) == Some(JsonView::Text(mode)),
        first.get("log-level"@) is None,
        second.get("mode"@) is None,
        second.get("log-level"@) == Some(JsonView::Text(level)),
        neither.get("mode"@) is None,
        neither.get("log-level"@) is None,
        crate::rpc::conversation::listener_field(both, 0) is None,
        crate::rpc::conversation::listener_field(first, 0) is None,
        crate::rpc::conversation::listener_field(second, 0) is None,
    ensures
        ({
            let none = Seq::<core::result::Result<JsonView, Seq<char>>>::empty();
            let patch = RouteView::ConfigsPatch;
            &&& next_step(patch, Some(both), none, now) == next_step(patch, Some(first), none, now)
            &&& next_step(patch, Some(both), none, now) matches StepView::Ask(m, p) && m
                == "set_proxy_mode"@ && call_of(m, p) == Ok::<Seq<ArgView>, Seq<char>>(
                seq![ArgView::I32(n)],
            )
            &&& next_step(patch, Some(both), seq![Ok(value)], now) == next_step(
                patch,
                Some(second),
                none,
                now,
            )
            &&& next_step(patch, Some(second), none, now) matches StepView::Ask(m, p) && m
                == "set_log_level"@ && call_of(m, p) == Ok::<Seq<ArgView>, Seq<char>>(
                seq![ArgView::Text(level)],
            )
            &&& next_step(patch, Some(first), seq![Ok(value)], now) == StepView::Done(ok_empty())
            &&& next_step(patch, Some(both), seq![Err(fault)], now) == StepView::Done(
                failed(500, fault),
            )
            &&& next_step(patch, Some(both), seq![Ok(value), Ok(value)], now) == StepView::Done(
                ok_empty(),
            )
            &&& next_step(patch, Some(both), seq![Ok(value), Err(fault)], now) == StepView::Done(
                failed(400, fault),
            )
            &&& next_step(patch, Some(neither), none, now) matches StepView::Done(r) && r.status
                == 400
            &&& next_step(patch, None, none, now) matches StepView::Done(r) && r.status == 400
        }),
{
    let none = Seq::<core::result::Result<JsonView, Seq<char>>>::empty();
    if let StepView::Ask(m, p) = next_step(RouteView::ConfigsPatch, Some(both), none, now) {
        lemma_get(p->Object_0, "mode"@, 0);
        lemma_set_proxy_mode_takes(p, seq![ArgView::I32(n)]);
    }
    if let StepView::Ask(m, p) = next_step(RouteView::ConfigsPatch, Some(second), none, now) {
        lemma_get(p->Object_0, "level"@, 0);
        lemma_log_level_takes(p, seq![ArgView::Text(level)]);
    }
}

/// What the other paths call for, and what a failure of the engine is answered with.
pub proof fn lemma_reads_asked(name: Seq<char>, fault: Seq<char>, now: int)
    ensures
        ({
            let none = Seq::<core::result::Result<JsonView, Seq<char>>>::empty();
            let sorry = seq![Err::<JsonView, Seq<char>>(fault)];
            let unavailable = StepView::Done(failed(503, fault));
            &&& next_step(RouteView::Version, None, none, now) matches StepView::Ask(m, _) && m
                == "get_version"@
            &&& next_step(RouteView::Proxies, None, none, now) matches StepView::Ask(m, _) && m
                == "get_proxies"@
            &&& next_step(RouteView::ProxyGet(name), None, none, now) matches StepView::Ask(m, _)
                && m == "get_proxies"@
            &&& next_step(RouteView::Rules, None, none, now) matches StepView::Ask(m, _) && m
                == "get_rules"@
            &&& next_step(RouteView::Connections, None, none, now) matches StepView::Ask(m, _) && m
                == "get_connections_dto"@
            &&& next_step(RouteView::Traffic, None, none, now) matches StepView::Ask(m, _) && m
                == "get_traffic_stats_dto"@
            &&& next_step(RouteView::ConnectionsCloseAll, None, none, now) matches StepView::Ask(
                m,
                _,
            ) && m == "close_all_connections_dto"@
            &&& next_step(RouteView::ConfigsGet, None, none, now) == StepView::Settings
            &&& next_step(RouteView::Memory, None, none, now) == StepView::Memory
            &&& next_step(RouteView::Proxies, None, sorry, now) == unavailable
            &&& next_step(RouteView::ProxyGet(name), None, sorry, now) == unavailable
            &&& next_step(RouteView::Rules, None, sorry, now) == unavailable
            &&& next_step(RouteView::Connections, None, sorry, now) == unavailable
            &&& next_step(RouteView::Traffic, None, sorry, now) == unavailable
            &&& next_step(RouteView::ConnectionsCloseAll, None, sorry, now) == StepView::Done(
                failed(500, fault),
            )
            &&& next_step(RouteView::NotFound, None, none, now) == StepView::Done(
                failed(404, "not found"@),
            )
        }),
{
}

} // verus!
