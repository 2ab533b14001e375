//! The JSON objects that the external controller serves, made from what the engine tells.

use crate::json::{
    append, entries_view, insert, inserted, items_view, lemma_json_view, put, Json, JsonView,
};
use crate::rpc::calendar::{epoch_to_rfc3339, timestamp_text};
use crate::rpc::controller::{
    host_and_port, mode_name, mode_text, rule_type_name, rule_type_text, split_host_port,
};
use crate::text::{chars_of, owned};
use vstd::prelude::*;
use vstd::string::*;

verus! {

// ---------------------------------------------------------------------------
// Fields
// ---------------------------------------------------------------------------

/// A text under a key.
pub open spec fn text_field(value: JsonView, key: Seq<char>) -> Option<Seq<char>> {
    match value.get(key) {
        Some(v) => v.as_str(),
        None => None,
    }
}

/// A text under a key, empty where there is none.
pub open spec fn text_or_empty(value: JsonView, key: Seq<char>) -> Seq<char> {
    match text_field(value, key) {
        Some(s) => s,
        None => Seq::empty(),
    }
}

/// A number under a key.
pub open spec fn number_field(value: JsonView, key: Seq<char>) -> Option<u64> {
    match value.get(key) {
        Some(v) => v.as_u64(),
        None => None,
    }
}

/// A number under a key, zero where there is none.
pub open spec fn number_or_zero(value: JsonView, key: Seq<char>) -> u64 {
    match number_field(value, key) {
        Some(n) => n,
        None => 0,
    }
}

/// A signed number under a key, zero where there is none.
pub open spec fn signed_or_zero(value: JsonView, key: Seq<char>) -> i64 {
    match value.get(key) {
        Some(v) => match v.as_i64() {
            Some(n) => n,
            None => 0,
        },
        None => 0,
    }
}

/// The items of an array, none for anything else.
pub open spec fn items_of(value: JsonView) -> Seq<JsonView> {
    match value {
        JsonView::Array(items) => items,
        _ => Seq::empty(),
    }
}

/// The text under a key.
pub fn str_field<'a>(value: &'a Json, key: &str) -> (r: Option<&'a str>)
    ensures
        match text_field(value@, key@) {
            None => r is None,
            Some(s) => r is Some && r->Some_0@ == s,
        },
{
    match value.get(key) {
        Some(v) => v.as_str(),
        None => None,
    }
}

/// The text under a key as a value of its own, empty where there is none.
fn text_copy(value: &Json, key: &str) -> (r: Json)
    ensures
        r@ == JsonView::Text(text_or_empty(value@, key@)),
{
    match str_field(value, key) {
        Some(s) => Json::text(s),
        None => empty_text(),
    }
}

fn empty_text() -> (r: Json)
    ensures
        r@ == JsonView::Text(Seq::empty()),
{
    let s = String::new();
    proof {
        assert(s@ =~= Seq::empty());
    }
    Json::Text(s)
}

/// The number under a key.
pub fn u64_field(value: &Json, key: &str) -> (r: Option<u64>)
    ensures
        r == number_field(value@, key@),
{
    match value.get(key) {
        Some(v) => v.as_u64(),
        None => None,
    }
}

fn number_copy(value: &Json, key: &str) -> (r: Json)
    ensures
        r@ == JsonView::Uint(number_or_zero(value@, key@)),
{
    match u64_field(value, key) {
        Some(n) => Json::Uint(n),
        None => Json::Uint(0),
    }
}

fn i64_field(value: &Json, key: &str) -> (r: i64)
    ensures
        r == signed_or_zero(value@, key@),
{
    match value.get(key) {
        Some(v) => match v.as_i64() {
            Some(n) => n,
            None => 0,
        },
        None => 0,
    }
}

/// The items of an array, or nothing.
fn array_items(value: &Json) -> (r: Option<&Vec<Json>>)
    ensures
        items_of(value@) == match r {
            Some(v) => items_view(v@),
            None => Seq::empty(),
        },
{
    proof {
        lemma_json_view(*value);
    }
    match value {
        Json::Array(v) => Some(v),
        _ => None,
    }
}

/// An array of nothing.
pub fn empty_array() -> (r: Json)
    ensures
        r@ == JsonView::Array(Seq::empty()),
{
    let items: Vec<Json> = Vec::new();
    proof {
        assert(items_view(items@) =~= Seq::empty());
    }
    Json::array(items)
}

fn no_entries() -> (r: Vec<(String, Json)>)
    ensures
        entries_view(r@) == Seq::<(Seq<char>, JsonView)>::empty(),
{
    let r: Vec<(String, Json)> = Vec::new();
    proof {
        assert(entries_view(r@) =~= Seq::empty());
    }
    r
}

// ---------------------------------------------------------------------------
// Proxies
// ---------------------------------------------------------------------------

/// The delay samples of a proxy: the one that the engine holds, taken now.
pub open spec fn history_of(proxy: JsonView, now: int) -> JsonView {
    match number_field(proxy, "latency_ms"@) {
        Some(delay) => JsonView::Array(
            seq![
                JsonView::Object(
                    seq![
                        ("time"@, JsonView::Text(timestamp_text(now))),
                        ("delay"@, JsonView::Uint(delay)),
                    ],
                ),
            ],
        ),
        None => JsonView::Array(Seq::empty()),
    }
}

/// The delay samples of a proxy.
pub fn delay_history(proxy: &Json, now: i64) -> (r: Json)
    ensures
        r@ == history_of(proxy@, now as int),
{
    match u64_field(proxy, "latency_ms") {
        Some(delay) => {
            let mut sample = no_entries();
            put(&mut sample, "time", Json::Text(epoch_to_rfc3339(now)));
            put(&mut sample, "delay", Json::Uint(delay));
            let mut items: Vec<Json> = Vec::new();
            proof {
                assert(items_view(items@) =~= Seq::empty());
            }
            append(&mut items, Json::object(sample));
            let r = Json::array(items);
            proof {
                assert(entries_view(sample@) =~= seq![
                    ("time"@, JsonView::Text(timestamp_text(now as int))),
                    ("delay"@, JsonView::Uint(delay)),
                ]);
                assert(items_view(items@) =~= seq![JsonView::Object(entries_view(sample@))]);
            }
            r
        },
        None => empty_array(),
    }
}

/// An entry that is there only where its value is.
pub open spec fn optional(key: Seq<char>, value: Option<JsonView>) -> Seq<(Seq<char>, JsonView)> {
    match value {
        Some(v) => seq![(key, v)],
        None => Seq::empty(),
    }
}

pub open spec fn as_text(s: Option<Seq<char>>) -> Option<JsonView> {
    match s {
        Some(s) => Some(JsonView::Text(s)),
        None => None,
    }
}

pub open spec fn as_number(n: Option<u64>) -> Option<JsonView> {
    match n {
        Some(n) => Some(JsonView::Uint(n)),
        None => None,
    }
}

pub open spec fn as_flag(value: Option<JsonView>) -> Option<JsonView> {
    match value {
        Some(JsonView::Bool(b)) => Some(JsonView::Bool(b)),
        _ => None,
    }
}

/// The object of one proxy.
pub open spec fn proxy_object(proxy: JsonView, name: Seq<char>, now: int) -> JsonView {
    JsonView::Object(
        seq![
            ("name"@, JsonView::Text(name)),
            ("type"@, JsonView::Text(text_or_empty(proxy, "protocol_type"@))),
        ] + optional("server"@, as_text(text_field(proxy, "server"@))) + optional(
            "port"@,
            as_number(number_field(proxy, "port"@)),
        ) + optional("alive"@, as_flag(proxy.get("alive"@))) + seq![
            ("history"@, history_of(proxy, now)),
            ("all"@, JsonView::Array(Seq::empty())),
            ("now"@, JsonView::Text(Seq::empty())),
        ],
    )
}

fn proxy_entry(proxy: &Json, name: &str, now: i64) -> (r: Json)
    ensures
        r@ == proxy_object(proxy@, name@, now as int),
{
    let mut entry = no_entries();
    put(&mut entry, "name", Json::text(name));
    put(&mut entry, "type", text_copy(proxy, "protocol_type"));
    let ghost head = entries_view(entry@);
    if let Some(server) = str_field(proxy, "server") {
        put(&mut entry, "server", Json::text(server));
    }
    let ghost with_server = entries_view(entry@);
    if let Some(port) = u64_field(proxy, "port") {
        put(&mut entry, "port", Json::Uint(port));
    }
    let ghost with_port = entries_view(entry@);
    if let Some(Json::Bool(alive)) = proxy.get("alive") {
        put(&mut entry, "alive", Json::Bool(*alive));
    }
    let ghost with_alive = entries_view(entry@);
    put(&mut entry, "history", delay_history(proxy, now));
    put(&mut entry, "all", empty_array());
    put(&mut entry, "now", empty_text());
    proof {
        let p = proxy@;
        assert(head =~= seq![
            ("name"@, JsonView::Text(name@)),
            ("type"@, JsonView::Text(text_or_empty(p, "protocol_type"@))),
        ]);
        assert(with_server =~= head + optional("server"@, as_text(text_field(p, "server"@))));
        assert(with_port =~= with_server + optional(
            "port"@,
            as_number(number_field(p, "port"@)),
        ));
        assert(with_alive =~= with_port + optional("alive"@, as_flag(p.get("alive"@))));
        assert(entries_view(entry@) =~= with_alive + seq![
            ("history"@, history_of(p, now as int)),
            ("all"@, JsonView::Array(Seq::empty())),
            ("now"@, JsonView::Text(Seq::empty())),
        ]);
    }
    Json::object(entry)
}

/// The texts among values.
pub open spec fn only_texts(items: Seq<JsonView>) -> Seq<JsonView>
    decreases items.len(),
{
    if items.len() == 0 {
        Seq::empty()
    } else if items.last() is Text {
        only_texts(items.drop_last()).push(items.last())
    } else {
        only_texts(items.drop_last())
    }
}

/// The members of a group.
pub open spec fn members_of(group: JsonView) -> Seq<JsonView> {
    match group.get("proxies"@) {
        Some(v) => only_texts(items_of(v)),
        None => Seq::empty(),
    }
}

fn keep_texts(items: &Vec<Json>) -> (r: Vec<Json>)
    ensures
        items_view(r@) == only_texts(items_view(items@)),
{
    let ghost all = items_view(items@);
    let mut r: Vec<Json> = Vec::new();
    let mut i: usize = 0;
    proof {
        assert(items_view(r@) =~= Seq::empty());
    }
    while i < items.len()
        invariant
            i <= items@.len(),
            all == items_view(items@),
            items_view(r@) == only_texts(all.take(i as int)),
        decreases items@.len() - i,
    {
        proof {
            assert(all.take(i + 1).drop_last() =~= all.take(i as int));
            assert(all.take(i + 1).last() == items@[i as int]@);
        }
        if let Json::Text(s) = &items[i] {
            append(&mut r, Json::text(s.as_str()));
        }
        i = i + 1;
    }
    proof {
        assert(all.take(i as int) =~= all);
    }
    r
}

fn members(group: &Json) -> (r: Json)
    ensures
        r@ == JsonView::Array(members_of(group@)),
{
    match group.get("proxies") {
        Some(v) => match array_items(v) {
            Some(items) => Json::array(keep_texts(items)),
            None => {
                proof {
                    assert(only_texts(Seq::empty()) =~= Seq::empty());
                }
                empty_array()
            },
        },
        None => empty_array(),
    }
}

/// The object of one policy group.
pub open spec fn group_object(group: JsonView, name: Seq<char>) -> JsonView {
    JsonView::Object(
        seq![
            ("name"@, JsonView::Text(name)),
            ("type"@, JsonView::Text(text_or_empty(group, "group_type"@))),
            ("all"@, JsonView::Array(members_of(group))),
            ("now"@, JsonView::Text(text_or_empty(group, "selected"@))),
            ("history"@, JsonView::Array(Seq::empty())),
        ],
    )
}

fn group_entry(group: &Json, name: &str) -> (r: Json)
    ensures
        r@ == group_object(group@, name@),
{
    let mut entry = no_entries();
    put(&mut entry, "name", Json::text(name));
    put(&mut entry, "type", text_copy(group, "group_type"));
    put(&mut entry, "all", members(group));
    put(&mut entry, "now", text_copy(group, "selected"));
    put(&mut entry, "history", empty_array());
    proof {
        assert(entries_view(entry@) =~= group_object(group@, name@)->Object_0);
    }
    Json::object(entry)
}

/// The proxies by name. Of two with one name the later stands.
pub open spec fn proxies_by_name(proxies: Seq<JsonView>, now: int) -> Seq<(Seq<char>, JsonView)>
    decreases proxies.len(),
{
    if proxies.len() == 0 {
        Seq::empty()
    } else {
        let before = proxies_by_name(proxies.drop_last(), now);
        match text_field(proxies.last(), "tag"@) {
            Some(name) => inserted(before, name, proxy_object(proxies.last(), name, now)),
            None => before,
        }
    }
}

/// A table with groups put into it.
pub open spec fn with_groups(
    table: Seq<(Seq<char>, JsonView)>,
    groups: Seq<JsonView>,
) -> Seq<(Seq<char>, JsonView)>
    decreases groups.len(),
{
    if groups.len() == 0 {
        table
    } else {
        let before = with_groups(table, groups.drop_last());
        match text_field(groups.last(), "tag"@) {
            Some(name) => inserted(before, name, group_object(groups.last(), name)),
            None => before,
        }
    }
}

/// Every outbound and every policy group, by name.
pub open spec fn table_of(proxies: JsonView, groups: JsonView, now: int) -> Seq<
    (Seq<char>, JsonView),
> {
    with_groups(proxies_by_name(items_of(proxies), now), items_of(groups))
}

fn add_proxies(proxies: &Vec<Json>, now: i64) -> (r: Vec<(String, Json)>)
    ensures
        entries_view(r@) == proxies_by_name(items_view(proxies@), now as int),
{
    let ghost all = items_view(proxies@);
    let mut table = no_entries();
    let mut i: usize = 0;
    while i < proxies.len()
        invariant
            i <= proxies@.len(),
            all == items_view(proxies@),
            entries_view(table@) == proxies_by_name(all.take(i as int), now as int),
        decreases proxies@.len() - i,
    {
        proof {
            assert(all.take(i + 1).drop_last() =~= all.take(i as int));
            assert(all.take(i + 1).last() == proxies@[i as int]@);
        }
        if let Some(name) = str_field(&proxies[i], "tag") {
            insert(&mut table, name, proxy_entry(&proxies[i], name, now));
        }
        i = i + 1;
    }
    proof {
        assert(all.take(i as int) =~= all);
    }
    table
}

fn add_groups(table: &mut Vec<(String, Json)>, groups: &Vec<Json>)
    ensures
        entries_view(final(table)@) == with_groups(
            entries_view(old(table)@),
            items_view(groups@),
        ),
{
    let ghost all = items_view(groups@);
    let ghost start = entries_view(table@);
    let mut i: usize = 0;
    while i < groups.len()
        invariant
            i <= groups@.len(),
            all == items_view(groups@),
            entries_view(table@) == with_groups(start, all.take(i as int)),
        decreases groups@.len() - i,
    {
        proof {
            assert(all.take(i + 1).drop_last() =~= all.take(i as int));
            assert(all.take(i + 1).last() == groups@[i as int]@);
        }
        if let Some(name) = str_field(&groups[i], "tag") {
            insert(table, name, group_entry(&groups[i], name));
        }
        i = i + 1;
    }
    proof {
        assert(all.take(i as int) =~= all);
    }
}

/// Every outbound and every policy group, by name. Both the table and a single object are
/// served from it, so the two never differ.
pub fn proxy_table(proxies: &Json, groups: &Json, now: i64) -> (r: Vec<(String, Json)>)
    ensures
        entries_view(r@) == table_of(proxies@, groups@, now as int),
{
    let mut table = match array_items(proxies) {
        Some(items) => add_proxies(items, now),
        None => no_entries(),
    };
    if let Some(items) = array_items(groups) {
        add_groups(&mut table, items);
    }
    table
}

// ---------------------------------------------------------------------------
// Rules and connections
// ---------------------------------------------------------------------------

/// The object of one rule.
pub open spec fn rule_object(rule: JsonView) -> JsonView {
    JsonView::Object(
        seq![
            ("type"@, JsonView::Text(rule_type_text(text_or_empty(rule, "rule_type"@)))),
            ("payload"@, JsonView::Text(text_or_empty(rule, "payload"@))),
            ("proxy"@, JsonView::Text(text_or_empty(rule, "outbound"@))),
        ],
    )
}

fn rule_entry(rule: &Json) -> (r: Json)
    ensures
        r@ == rule_object(rule@),
{
    let spelling = match str_field(rule, "rule_type") {
        Some(s) => rule_type_name(s),
        None => {
            let s = String::new();
            proof {
                assert(s@ =~= Seq::empty());
                assert(rule_type_text(Seq::empty()) =~= Seq::empty());
            }
            s
        },
    };
    let mut entry = no_entries();
    put(&mut entry, "type", Json::Text(spelling));
    put(&mut entry, "payload", text_copy(rule, "payload"));
    put(&mut entry, "proxy", text_copy(rule, "outbound"));
    proof {
        assert(entries_view(entry@) =~= rule_object(rule@)->Object_0);
    }
    Json::object(entry)
}

/// The objects of all rules.
pub open spec fn rule_objects(rules: JsonView) -> Seq<JsonView> {
    items_of(rules).map_values(|rule: JsonView| rule_object(rule))
}

/// The objects of all rules.
pub fn rule_entries(rules: &Json) -> (r: Vec<Json>)
    ensures
        items_view(r@) == rule_objects(rules@),
{
    let mut r: Vec<Json> = Vec::new();
    let ghost all = items_of(rules@);
    if let Some(items) = array_items(rules) {
        let mut i: usize = 0;
        while i < items.len()
            invariant
                i <= items@.len(),
                all == items_view(items@),
                items_view(r@) =~= all.take(i as int).map_values(
                    |rule: JsonView| rule_object(rule),
                ),
            decreases items@.len() - i,
        {
            append(&mut r, rule_entry(&items[i]));
            i = i + 1;
        }
        proof {
            assert(all.take(i as int) =~= all);
        }
    }
    proof {
        assert(items_view(r@) =~= rule_objects(rules@));
    }
    r
}

/// The destination of a connection by name, or by address where it has no name.
pub open spec fn host_of(connection: JsonView) -> Seq<char> {
    let domain = text_or_empty(connection, "dst_domain"@);
    if domain.len() > 0 {
        domain
    } else {
        text_or_empty(connection, "dst_addr"@)
    }
}

/// Where a connection comes from and goes to. The engine keeps no client address, so the
/// source is empty.
pub open spec fn metadata_of(connection: JsonView) -> JsonView {
    JsonView::Object(
        seq![
            ("network"@, JsonView::Text("tcp"@)),
            ("type"@, JsonView::Text(text_or_empty(connection, "protocol"@))),
            ("sourceIP"@, JsonView::Text(Seq::empty())),
            ("sourcePort"@, JsonView::Text(Seq::empty())),
            ("destinationIP"@, JsonView::Text(text_or_empty(connection, "dst_addr"@))),
            (
                "destinationPort"@,
                JsonView::Text(host_and_port(text_or_empty(connection, "src_addr"@)).1),
            ),
            ("host"@, JsonView::Text(host_of(connection))),
        ],
    )
}

/// The object of one connection.
pub open spec fn connection_object(connection: JsonView) -> JsonView {
    JsonView::Object(
        seq![
            ("id"@, JsonView::Text(text_or_empty(connection, "id"@))),
            ("upload"@, JsonView::Uint(number_or_zero(connection, "upload"@))),
            ("download"@, JsonView::Uint(number_or_zero(connection, "download"@))),
            (
                "start"@,
                JsonView::Text(timestamp_text(signed_or_zero(connection, "start_time"@) as int)),
            ),
            ("metadata"@, metadata_of(connection)),
            ("rule"@, JsonView::Text(text_or_empty(connection, "rule"@))),
            ("rulePayload"@, JsonView::Text(Seq::empty())),
            (
                "chains"@,
                JsonView::Array(seq![JsonView::Text(text_or_empty(connection, "outbound"@))]),
            ),
        ],
    )
}

fn host_name(connection: &Json) -> (r: Json)
    ensures
        r@ == JsonView::Text(host_of(connection@)),
{
    if let Some(domain) = str_field(connection, "dst_domain") {
        if chars_of(domain).len() > 0 {
            return Json::text(domain);
        }
    }
    text_copy(connection, "dst_addr")
}

fn destination_port(connection: &Json) -> (r: Json)
    ensures
        r@ == JsonView::Text(host_and_port(text_or_empty(connection@, "src_addr"@)).1),
{
    let addr = match str_field(connection, "src_addr") {
        Some(s) => owned(s),
        None => {
            let s = String::new();
            proof {
                assert(s@ =~= Seq::empty());
            }
            s
        },
    };
    let (_, port) = split_host_port(&addr);
    Json::Text(port)
}

fn metadata(connection: &Json) -> (r: Json)
    ensures
        r@ == metadata_of(connection@),
{
    let mut m = no_entries();
    put(&mut m, "network", Json::text("tcp"));
    put(&mut m, "type", text_copy(connection, "protocol"));
    put(&mut m, "sourceIP", empty_text());
    put(&mut m, "sourcePort", empty_text());
    put(&mut m, "destinationIP", text_copy(connection, "dst_addr"));
    put(&mut m, "destinationPort", destination_port(connection));
    put(&mut m, "host", host_name(connection));
    proof {
        assert(entries_view(m@) =~= metadata_of(connection@)->Object_0);
    }
    Json::object(m)
}

fn chains(connection: &Json) -> (r: Json)
    ensures
        r@ == JsonView::Array(seq![JsonView::Text(text_or_empty(connection@, "outbound"@))]),
{
    let mut items: Vec<Json> = Vec::new();
    proof {
        assert(items_view(items@) =~= Seq::empty());
    }
    append(&mut items, text_copy(connection, "outbound"));
    proof {
        assert(items_view(items@) =~= seq![
            JsonView::Text(text_or_empty(connection@, "outbound"@)),
        ]);
    }
    Json::array(items)
}

/// The object of one connection.
pub fn connection_entry(connection: &Json) -> (r: Json)
    ensures
        r@ == connection_object(connection@),
{
    let mut entry = no_entries();
    put(&mut entry, "id", text_copy(connection, "id"));
    put(&mut entry, "upload", number_copy(connection, "upload"));
    put(&mut entry, "download", number_copy(connection, "download"));
    let started: i64 = i64_field(connection, "start_time");
    put(&mut entry, "start", Json::Text(epoch_to_rfc3339(started)));
    put(&mut entry, "metadata", metadata(connection));
    put(&mut entry, "rule", text_copy(connection, "rule"));
    put(&mut entry, "rulePayload", empty_text());
    put(&mut entry, "chains", chains(connection));
    proof {
        assert(entries_view(entry@) =~= connection_object(connection@)->Object_0);
    }
    Json::object(entry)
}

/// The objects of all connections, with the totals of the traffic.
pub open spec fn connections_object(connections: JsonView, stats: JsonView) -> JsonView {
    JsonView::Object(
        seq![
            ("downloadTotal"@, JsonView::Uint(number_or_zero(stats, "total_download"@))),
            ("uploadTotal"@, JsonView::Uint(number_or_zero(stats, "total_upload"@))),
            (
                "connections"@,
                JsonView::Array(
                    items_of(connections).map_values(|c: JsonView| connection_object(c)),
                ),
            ),
        ],
    )
}

fn connection_entries(connections: &Json) -> (r: Vec<Json>)
    ensures
        items_view(r@) == items_of(connections@).map_values(|c: JsonView| connection_object(c)),
{
    let mut r: Vec<Json> = Vec::new();
    let ghost all = items_of(connections@);
    if let Some(items) = array_items(connections) {
        let mut i: usize = 0;
        while i < items.len()
            invariant
                i <= items@.len(),
                all == items_view(items@),
                items_view(r@) =~= all.take(i as int).map_values(
                    |c: JsonView| connection_object(c),
                ),
            decreases items@.len() - i,
        {
            append(&mut r, connection_entry(&items[i]));
            i = i + 1;
        }
        proof {
            assert(all.take(i as int) =~= all);
        }
    }
    proof {
        assert(items_view(r@) =~= all.map_values(|c: JsonView| connection_object(c)));
    }
    r
}

/// The objects of all connections, with the totals of the traffic.
pub fn connections_entry(connections: &Json, stats: &Json) -> (r: Json)
    ensures
        r@ == connections_object(connections@, stats@),
{
    let mut m = no_entries();
    put(&mut m, "downloadTotal", number_copy(stats, "total_download"));
    put(&mut m, "uploadTotal", number_copy(stats, "total_upload"));
    put(&mut m, "connections", Json::array(connection_entries(connections)));
    proof {
        assert(entries_view(m@) =~= connections_object(connections@, stats@)->Object_0);
    }
    Json::object(m)
}

// ---------------------------------------------------------------------------
// Settings
// ---------------------------------------------------------------------------

/// The general settings of the engine as they stand.
#[derive(Debug)]
pub struct GeneralSnapshot {
    pub mode: String,
    /// The engine's own number of the mode, where one overrides the configuration.
    pub runtime_mode: i32,
    pub log_level: String,
    pub allow_lan: bool,
    pub bind_address: String,
    pub ipv6: bool,
    pub tcp_concurrent: bool,
    pub socks_port: Option<u16>,
    pub mixed_port: Option<u16>,
}

pub open spec fn as_port(port: Option<u16>) -> Option<JsonView> {
    match port {
        Some(p) => Some(JsonView::Uint(p as u64)),
        None => None,
    }
}

/// The object of the settings. The name resolution stands in it where the engine tells it.
pub open spec fn configs_object(s: GeneralSnapshot, dns: Option<JsonView>) -> JsonView {
    JsonView::Object(
        seq![
            ("mode"@, JsonView::Text(mode_text(s.runtime_mode, s.mode@))),
            ("log-level"@, JsonView::Text(s.log_level@)),
            ("allow-lan"@, JsonView::Bool(s.allow_lan)),
            ("bind-address"@, JsonView::Text(s.bind_address@)),
            ("ipv6"@, JsonView::Bool(s.ipv6)),
            ("tcp-concurrent"@, JsonView::Bool(s.tcp_concurrent)),
        ] + optional("socks-port"@, as_port(s.socks_port)) + optional(
            "mixed-port"@,
            as_port(s.mixed_port),
        ) + optional("dns"@, dns),
    )
}

/// The object of the settings.
pub fn configs_entry(s: &GeneralSnapshot, dns: Option<&Json>) -> (r: Json)
    ensures
        r@ == configs_object(
            *s,
            match dns {
                Some(d) => Some(d@),
                None => None,
            },
        ),
{
    let mut m = no_entries();
    put(&mut m, "mode", Json::Text(mode_name(s.runtime_mode, &s.mode)));
    put(&mut m, "log-level", Json::text(&s.log_level));
    put(&mut m, "allow-lan", Json::Bool(s.allow_lan));
    put(&mut m, "bind-address", Json::text(&s.bind_address));
    put(&mut m, "ipv6", Json::Bool(s.ipv6));
    put(&mut m, "tcp-concurrent", Json::Bool(s.tcp_concurrent));
    let ghost head = entries_view(m@);
    if let Some(port) = s.socks_port {
        put(&mut m, "socks-port", Json::Uint(port as u64));
    }
    let ghost with_socks = entries_view(m@);
    if let Some(port) = s.mixed_port {
        put(&mut m, "mixed-port", Json::Uint(port as u64));
    }
    let ghost with_mixed = entries_view(m@);
    if let Some(dns) = dns {
        put(&mut m, "dns", dns.copy());
    }
    proof {
        assert(head =~= seq![
            ("mode"@, JsonView::Text(mode_text(s.runtime_mode, s.mode@))),
            ("log-level"@, JsonView::Text(s.log_level@)),
            ("allow-lan"@, JsonView::Bool(s.allow_lan)),
            ("bind-address"@, JsonView::Text(s.bind_address@)),
            ("ipv6"@, JsonView::Bool(s.ipv6)),
            ("tcp-concurrent"@, JsonView::Bool(s.tcp_concurrent)),
        ]);
        assert(with_socks =~= head + optional("socks-port"@, as_port(s.socks_port)));
        assert(with_mixed =~= with_socks + optional("mixed-port"@, as_port(s.mixed_port)));
        let told = match dns {
            Some(d) => Some(d@),
            None => None,
        };
        assert(entries_view(m@) =~= with_mixed + optional("dns"@, told));
    }
    Json::object(m)
}

} // verus!
