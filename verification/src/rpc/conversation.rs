//! What the external controller does with a routed request: which engine calls it makes,
//! one after the other, and what it answers.

use crate::json::{
    append, entries_view, entry, find_entry, items_view, json_read, json_text, print_json, put,
    read_json, Json, JsonView,
};
use crate::rpc::{
    all_args, arg_of, call_of, several_params, single_param, takes_nothing, ParamKind,
};
use crate::rpc::controller::{
    mode_number, presented, route_of, runtime_mode, Route, RouteView, PACKAGE_VERSION,
};
use crate::rpc::shapes::{
    configs_entry, configs_object, connections_entry, connections_object, empty_array,
    number_field, number_or_zero, proxy_table, rule_entries, rule_objects, str_field, table_of, text_field,
    u64_field, GeneralSnapshot,
};
use crate::text::{concat, owned};
use vstd::prelude::*;
use vstd::string::*;

verus! {

/// An answer: a status, and a JSON body or none.
#[derive(Debug)]
pub struct Reply {
    pub status: u16,
    pub body: Option<Json>,
}

/// An answer as a mathematical value.
#[verifier::ext_equal]
pub struct ReplyView {
    pub status: u16,
    pub body: Option<JsonView>,
}

impl View for Reply {
    type V = ReplyView;

    open spec fn view(&self) -> ReplyView {
        ReplyView {
            status: self.status,
            body: match self.body {
                Some(b) => Some(b@),
                None => None,
            },
        }
    }
}

/// What to do next.
#[derive(Debug)]
pub enum Step {
    /// Make a call and come back with its outcome.
    Ask { method: &'static str, params: Json },
    /// Take the settings, and answer with [`configs_reply`].
    Settings,
    /// Take the memory use, and answer with [`memory_reply`].
    Memory,
    /// Answer.
    Done(Reply),
}

/// What to do next, as a mathematical value.
#[verifier::ext_equal]
pub enum StepView {
    Ask(Seq<char>, JsonView),
    Settings,
    Memory,
    Done(ReplyView),
}

impl View for Step {
    type V = StepView;

    open spec fn view(&self) -> StepView {
        match *self {
            Step::Ask { method, params } => StepView::Ask(method@, params@),
            Step::Settings => StepView::Settings,
            Step::Memory => StepView::Memory,
            Step::Done(reply) => StepView::Done(reply@),
        }
    }
}

/// The outcome of a call as a mathematical value.
pub open spec fn outcome(r: Result<Json, String>) -> Result<JsonView, Seq<char>> {
    match r {
        Ok(v) => Ok(v@),
        Err(e) => Err(e@),
    }
}

/// Outcomes as mathematical values.
pub open spec fn outcomes(v: Seq<Result<Json, String>>) -> Seq<Result<JsonView, Seq<char>>> {
    Seq::new(v.len(), |i: int| outcome(v[i]))
}

// ---------------------------------------------------------------------------
// Answers
// ---------------------------------------------------------------------------

/// A JSON value, successfully.
pub open spec fn ok_with(value: JsonView) -> ReplyView {
    ReplyView { status: 200, body: Some(value) }
}

/// Nothing, successfully.
pub open spec fn ok_empty() -> ReplyView {
    ReplyView { status: 204, body: None }
}

/// A failure with a message.
pub open spec fn failed(status: u16, message: Seq<char>) -> ReplyView {
    ReplyView {
        status,
        body: Some(JsonView::Object(seq![("message"@, JsonView::Text(message))])),
    }
}

fn json_ok(value: Json) -> (r: Reply)
    ensures
        r@ == ok_with(value@),
{
    Reply { status: 200, body: Some(value) }
}

fn no_content() -> (r: Reply)
    ensures
        r@ == ok_empty(),
{
    Reply { status: 204, body: None }
}

/// A failure with a message.
pub fn json_error(status: u16, message: &str) -> (r: Reply)
    ensures
        r@ == failed(status, message@),
{
    let mut m: Vec<(String, Json)> = Vec::new();
    proof {
        assert(entries_view(m@) =~= Seq::empty());
    }
    put(&mut m, "message", Json::text(message));
    proof {
        assert(entries_view(m@) =~= seq![("message"@, JsonView::Text(message@))]);
    }
    Reply { status, body: Some(Json::object(m)) }
}

/// The text of an answer's body: a fixed one where the body has no text.
pub open spec fn body_string(r: ReplyView) -> Option<Seq<char>> {
    match r.body {
        None => None,
        Some(b) => Some(
            match json_text(b) {
                Some(t) => t,
                None => if r.status == 200 {
                    "{\"error\":\"response encode failed\"}"@
                } else {
                    "{\"message\":\"request failed\"}"@
                },
            },
        ),
    }
}

impl Reply {
    /// The text of the body.
    pub fn body_text(&self) -> (r: Option<String>)
        ensures
            match body_string(self@) {
                None => r is None,
                Some(t) => r is Some && r->Some_0@ == t,
            },
    {
        match &self.body {
            None => None,
            Some(b) => match print_json(b) {
                Some(t) => Some(t),
                None => if self.status == 200 {
                    Some(owned("{\"error\":\"response encode failed\"}"))
                } else {
                    Some(owned("{\"message\":\"request failed\"}"))
                },
            },
        }
    }
}

/// The value in the bytes of a request body, nothing where there are none or they spell no
/// value.
pub open spec fn body_of(bytes: Seq<u8>) -> Option<JsonView> {
    if bytes.len() == 0 {
        None
    } else {
        match json_read(bytes) {
            Ok(v) => Some(v),
            Err(_) => None,
        }
    }
}

/// Parse a request body.
pub fn parse_body(bytes: &[u8]) -> (r: Option<Json>)
    ensures
        match body_of(bytes@) {
            None => r is None,
            Some(v) => r is Some && r->Some_0@ == v,
        },
{
    if bytes.len() == 0 {
        return None;
    }
    match read_json(bytes) {
        Ok(v) => Some(v),
        Err(_) => None,
    }
}

/// The headers of an answer: its content type where it has a body, and leave for browser
/// dashboards on other origins.
pub open spec fn header_list(has_body: bool) -> Seq<(Seq<char>, Seq<char>)> {
    let cors = seq![
        ("access-control-allow-origin"@, "*"@),
        ("access-control-allow-methods"@, "GET, POST, PUT, PATCH, DELETE, OPTIONS"@),
        ("access-control-allow-headers"@, "Authorization, Content-Type"@),
        ("access-control-max-age"@, "86400"@),
    ];
    if has_body {
        seq![("content-type"@, "application/json"@)] + cors
    } else {
        cors
    }
}

/// Headers as mathematical values.
pub open spec fn headers_view(v: Seq<(&'static str, &'static str)>) -> Seq<
    (Seq<char>, Seq<char>),
> {
    Seq::new(v.len(), |i: int| (v[i].0@, v[i].1@))
}

impl Reply {
    /// The headers of the answer, in order.
    pub fn headers(&self) -> (r: Vec<(&'static str, &'static str)>)
        ensures
            headers_view(r@) == header_list(self.body is Some),
    {
        let mut r: Vec<(&'static str, &'static str)> = Vec::new();
        if self.body.is_some() {
            r.push(("content-type", "application/json"));
        }
        r.push(("access-control-allow-origin", "*"));
        r.push(("access-control-allow-methods", "GET, POST, PUT, PATCH, DELETE, OPTIONS"));
        r.push(("access-control-allow-headers", "Authorization, Content-Type"));
        r.push(("access-control-max-age", "86400"));
        proof {
            assert(headers_view(r@) =~= header_list(self.body is Some));
        }
        r
    }
}

// ---------------------------------------------------------------------------
// Parameters of calls
// ---------------------------------------------------------------------------

pub open spec fn no_params() -> JsonView {
    JsonView::Object(Seq::empty())
}

pub open spec fn text_param(key: Seq<char>, value: Seq<char>) -> JsonView {
    JsonView::Object(seq![(key, JsonView::Text(value))])
}

pub open spec fn mode_param(mode: i32) -> JsonView {
    JsonView::Object(seq![("mode"@, JsonView::Uint(mode as u64))])
}

pub open spec fn select_params(group: Seq<char>, proxy: Seq<char>) -> JsonView {
    JsonView::Object(
        seq![("group_tag"@, JsonView::Text(group)), ("proxy_tag"@, JsonView::Text(proxy))],
    )
}

pub open spec fn delay_params(name: Seq<char>, url: Seq<char>, timeout: u64) -> JsonView {
    JsonView::Object(
        seq![
            ("tag"@, JsonView::Text(name)),
            ("test_url"@, JsonView::Text(url)),
            ("timeout_ms"@, JsonView::Uint(timeout)),
        ],
    )
}

fn no_entries() -> (r: Vec<(String, Json)>)
    ensures
        entries_view(r@) == Seq::<(Seq<char>, JsonView)>::empty(),
{
    let r: Vec<(String, Json)> = Vec::new();
    proof {
        assert(entries_view(r@) =~= Seq::empty());
    }
    r
}

fn ask_plain(method: &'static str) -> (r: Step)
    ensures
        r@ == StepView::Ask(method@, no_params()),
{
    Step::Ask { method, params: Json::object(no_entries()) }
}

fn ask_text(method: &'static str, key: &str, value: &str) -> (r: Step)
    ensures
        r@ == StepView::Ask(method@, text_param(key@, value@)),
{
    let mut m = no_entries();
    put(&mut m, key, Json::text(value));
    proof {
        assert(entries_view(m@) =~= text_param(key@, value@)->Object_0);
    }
    Step::Ask { method, params: Json::object(m) }
}

fn ask_mode(mode: i32) -> (r: Step)
    requires
        mode >= 0,
    ensures
        r@ == StepView::Ask("set_proxy_mode"@, mode_param(mode)),
{
    let mut m = no_entries();
    put(&mut m, "mode", Json::Uint(mode as u64));
    proof {
        assert(entries_view(m@) =~= mode_param(mode)->Object_0);
    }
    Step::Ask { method: "set_proxy_mode", params: Json::object(m) }
}

fn ask_select(group: &str, proxy: &str) -> (r: Step)
    ensures
        r@ == StepView::Ask("select_proxy"@, select_params(group@, proxy@)),
{
    let mut m = no_entries();
    put(&mut m, "group_tag", Json::text(group));
    put(&mut m, "proxy_tag", Json::text(proxy));
    proof {
        assert(entries_view(m@) =~= select_params(group@, proxy@)->Object_0);
    }
    Step::Ask { method: "select_proxy", params: Json::object(m) }
}

fn ask_delay(name: &str, url: &str, timeout: u64) -> (r: Step)
    ensures
        r@ == StepView::Ask("test_proxy_latency_dto"@, delay_params(name@, url@, timeout)),
{
    let mut m = no_entries();
    put(&mut m, "tag", Json::text(name));
    put(&mut m, "test_url", Json::text(url));
    put(&mut m, "timeout_ms", Json::Uint(timeout));
    proof {
        assert(entries_view(m@) =~= delay_params(name@, url@, timeout)->Object_0);
    }
    Step::Ask { method: "test_proxy_latency_dto", params: Json::object(m) }
}

// ---------------------------------------------------------------------------
// One route after the other
// ---------------------------------------------------------------------------

/// The version. Neither vendor extension is there, so neither is claimed.
pub open spec fn version_object(told: Result<JsonView, Seq<char>>) -> JsonView {
    let version = match told {
        Ok(JsonView::Text(v)) => v,
        _ => PACKAGE_VERSION@,
    };
    JsonView::Object(
        seq![
            ("version"@, JsonView::Text(version)),
            ("premium"@, JsonView::Bool(false)),
            ("meta"@, JsonView::Bool(false)),
        ],
    )
}

fn version_reply(told: &Result<Json, String>) -> (r: Reply)
    ensures
        r@ == ok_with(version_object(outcome(*told))),
{
    let version = match told {
        Ok(v) => match v.as_str() {
            Some(s) => Json::text(s),
            None => Json::text(PACKAGE_VERSION),
        },
        Err(_) => Json::text(PACKAGE_VERSION),
    };
    let mut m = no_entries();
    put(&mut m, "version", version);
    put(&mut m, "premium", Json::Bool(false));
    put(&mut m, "meta", Json::Bool(false));
    proof {
        assert(entries_view(m@) =~= version_object(outcome(*told))->Object_0);
    }
    json_ok(Json::object(m))
}

/// The routes, for a reader who opens the controller in a browser.
pub const ROUTES: [&'static str; 14] = [
    "GET /version",
    "GET /configs",
    "PATCH /configs",
    "PUT /configs",
    "GET /proxies",
    "GET /proxies/:name",
    "PUT /proxies/:name",
    "GET /proxies/:name/delay",
    "GET /rules",
    "GET /connections",
    "DELETE /connections",
    "DELETE /connections/:id",
    "GET /traffic",
    "GET /memory",
];

pub open spec fn index_object() -> JsonView {
    JsonView::Object(
        seq![
            ("controller"@, JsonView::Text("Corduit external controller"@)),
            (
                "routes"@,
                JsonView::Array(ROUTES@.map_values(|s: &'static str| JsonView::Text(s@))),
            ),
        ],
    )
}

fn index_reply() -> (r: Reply)
    ensures
        r@ == ok_with(index_object()),
{
    let mut items: Vec<Json> = Vec::new();
    let routes = ROUTES;
    let mut i: usize = 0;
    while i < 14
        invariant
            i <= 14,
            routes@ == ROUTES@,
            routes@.len() == 14,
            items_view(items@) =~= ROUTES@.take(i as int).map_values(
                |s: &'static str| JsonView::Text(s@),
            ),
        decreases 14 - i,
    {
        append(&mut items, Json::text(routes[i]));
        i = i + 1;
    }
    proof {
        assert(ROUTES@.take(14) =~= ROUTES@);
    }
    let mut m = no_entries();
    put(&mut m, "controller", Json::text("Corduit external controller"));
    put(&mut m, "routes", Json::array(items));
    proof {
        assert(entries_view(m@) =~= index_object()->Object_0);
    }
    json_ok(Json::object(m))
}

/// Success without a body, or a failure with the message that came back.
pub open spec fn done_or(status: u16, said: Result<JsonView, Seq<char>>) -> StepView {
    match said {
        Ok(_) => StepView::Done(ok_empty()),
        Err(e) => StepView::Done(failed(status, e)),
    }
}

fn finish(status: u16, said: &Result<Json, String>) -> (r: Step)
    ensures
        r@ == done_or(status, outcome(*said)),
{
    match said {
        Ok(_) => Step::Done(no_content()),
        Err(e) => Step::Done(json_error(status, e)),
    }
}

/// The settings that would mean binding a listener anew: a port, or whom it serves.
pub open spec fn listener_fields() -> Seq<Seq<char>> {
    seq![
        "port"@,
        "socks-port"@,
        "redir-port"@,
        "tproxy-port"@,
        "mixed-port"@,
        "allow-lan"@,
    ]
}

/// The first setting of a listener that a body holds, from the `i`th on.
pub open spec fn listener_field(b: JsonView, i: int) -> Option<Seq<char>>
    decreases listener_fields().len() - i,
{
    if i < 0 || i >= listener_fields().len() {
        None
    } else if b.get(listener_fields()[i]) is Some {
        Some(listener_fields()[i])
    } else {
        listener_field(b, i + 1)
    }
}

fn find_listener_field(b: &Json) -> (r: Option<&'static str>)
    ensures
        match listener_field(b@, 0) {
            None => r is None,
            Some(f) => r is Some && r->Some_0@ == f,
        },
{
    let fields: [&'static str; 6] = [
        "port",
        "socks-port",
        "redir-port",
        "tproxy-port",
        "mixed-port",
        "allow-lan",
    ];
    let mut i: usize = 0;
    while i < 6
        invariant
            i <= 6,
            fields@.len() == 6,
            forall|k: int| 0 <= k < 6 ==> (#[trigger] fields@[k])@ == listener_fields()[k],
            listener_field(b@, 0) == listener_field(b@, i as int),
        decreases 6 - i,
    {
        if b.get(fields[i]).is_some() {
            return Some(fields[i]);
        }
        i = i + 1;
    }
    None
}

/// Changing the settings that can change while the engine runs: first the mode, then the
/// level of the log. What cannot be applied is refused before anything is, the settings of
/// a listener included.
pub open spec fn patch_step(
    body: Option<JsonView>,
    said: Seq<Result<JsonView, Seq<char>>>,
) -> StepView {
    match body {
        None => StepView::Done(failed(400, "request body is not valid JSON"@)),
        Some(b) => match (text_field(b, "mode"@), text_field(b, "log-level"@)) {
            (None, None) => StepView::Done(
                failed(
                    400,
                    "no supported field to patch: this controller applies `mode` and `log-level`"@,
                ),
            ),
            _ if listener_field(b, 0) is Some => StepView::Done(
                failed(
                    400,
                    "`"@ + listener_field(b, 0)->Some_0
                        + "` cannot change at runtime: this controller applies `mode` and `log-level`"@,
                ),
            ),
            (None, Some(level)) => if said.len() == 0 {
                StepView::Ask("set_log_level"@, text_param("level"@, level))
            } else {
                done_or(400, said[0])
            },
            (Some(mode), level) => match mode_number(mode) {
                None => StepView::Done(
                    failed(
                        400,
                        "unknown mode `"@ + mode + "`: expected `rule`, `global` or `direct`"@,
                    ),
                ),
                Some(n) => if said.len() == 0 {
                    StepView::Ask("set_proxy_mode"@, mode_param(n))
                } else if said[0] is Err || level is None {
                    done_or(500, said[0])
                } else if said.len() == 1 {
                    StepView::Ask("set_log_level"@, text_param("level"@, level->Some_0))
                } else {
                    done_or(400, said[1])
                },
            },
        },
    }
}

fn patch(body: Option<&Json>, said: &Vec<Result<Json, String>>) -> (r: Step)
    ensures
        r@ == patch_step(
            match body {
                Some(b) => Some(b@),
                None => None,
            },
            outcomes(said@),
        ),
{
    let b = match body {
        Some(b) => b,
        None => {
            return Step::Done(json_error(400, "request body is not valid JSON"));
        },
    };
    let level = str_field(b, "log-level");
    let mode = str_field(b, "mode");
    if level.is_some() || mode.is_some() {
        if let Some(field) = find_listener_field(b) {
            return Step::Done(
                json_error(
                    400,
                    &concat(
                        &concat("`", field),
                        "` cannot change at runtime: this controller applies `mode` and `log-level`",
                    ),
                ),
            );
        }
    }
    match mode {
        None => match level {
            None => Step::Done(
                json_error(
                    400,
                    "no supported field to patch: this controller applies `mode` and `log-level`",
                ),
            ),
            Some(level) => if said.len() == 0 {
                ask_text("set_log_level", "level", level)
            } else {
                finish(400, &said[0])
            },
        },
        Some(mode) => match runtime_mode(mode) {
            None => Step::Done(
                json_error(
                    400,
                    &concat(
                        &concat("unknown mode `", mode),
                        "`: expected `rule`, `global` or `direct`",
                    ),
                ),
            ),
            Some(n) => {
                if said.len() == 0 {
                    return ask_mode(n);
                }
                match (&said[0], level) {
                    (Ok(_), Some(level)) => if said.len() == 1 {
                        ask_text("set_log_level", "level", level)
                    } else {
                        finish(400, &said[1])
                    },
                    _ => finish(500, &said[0]),
                }
            },
        },
    }
}

/// Reloading the configuration from a file.
pub open spec fn reload_step(
    body: Option<JsonView>,
    said: Seq<Result<JsonView, Seq<char>>>,
) -> StepView {
    match body {
        None => StepView::Done(failed(400, "request body is not valid JSON"@)),
        Some(b) => match text_field(b, "path"@) {
            None => StepView::Done(
                failed(400, "reload requires a `path` field pointing at a configuration file"@),
            ),
            Some(path) => if said.len() == 0 {
                StepView::Ask("reload_config_from_file"@, text_param("config_path"@, path))
            } else {
                done_or(400, said[0])
            },
        },
    }
}

fn reload(body: Option<&Json>, said: &Vec<Result<Json, String>>) -> (r: Step)
    ensures
        r@ == reload_step(
            match body {
                Some(b) => Some(b@),
                None => None,
            },
            outcomes(said@),
        ),
{
    match body {
        None => Step::Done(json_error(400, "request body is not valid JSON")),
        Some(b) => match str_field(b, "path") {
            None => Step::Done(
                json_error(400, "reload requires a `path` field pointing at a configuration file"),
            ),
            Some(path) => if said.len() == 0 {
                ask_text("reload_config_from_file", "config_path", path)
            } else {
                finish(400, &said[0])
            },
        },
    }
}

/// Selecting a member of a group.
pub open spec fn select_step(
    group: Seq<char>,
    body: Option<JsonView>,
    said: Seq<Result<JsonView, Seq<char>>>,
) -> StepView {
    match body {
        None => StepView::Done(failed(400, "request body is not valid JSON"@)),
        Some(b) => match text_field(b, "name"@) {
            None => StepView::Done(failed(400, "selecting a proxy requires a `name` field"@)),
            Some(proxy) => if said.len() == 0 {
                StepView::Ask("select_proxy"@, select_params(group, proxy))
            } else {
                done_or(400, said[0])
            },
        },
    }
}

fn select(group: &str, body: Option<&Json>, said: &Vec<Result<Json, String>>) -> (r: Step)
    ensures
        r@ == select_step(
            group@,
            match body {
                Some(b) => Some(b@),
                None => None,
            },
            outcomes(said@),
        ),
{
    match body {
        None => Step::Done(json_error(400, "request body is not valid JSON")),
        Some(b) => match str_field(b, "name") {
            None => Step::Done(json_error(400, "selecting a proxy requires a `name` field")),
            Some(proxy) => if said.len() == 0 {
                ask_select(group, proxy)
            } else {
                finish(400, &said[0])
            },
        },
    }
}

/// The table of proxies, or one object of it. Groups that cannot be had are left out.
pub open spec fn table_step(
    name: Option<Seq<char>>,
    said: Seq<Result<JsonView, Seq<char>>>,
    now: int,
) -> StepView {
    if said.len() == 0 {
        StepView::Ask("get_proxies"@, no_params())
    } else {
        match said[0] {
            Err(e) => StepView::Done(failed(503, e)),
            Ok(proxies) => if said.len() == 1 {
                StepView::Ask("get_proxy_groups"@, no_params())
            } else {
                let groups = match said[1] {
                    Ok(g) => g,
                    Err(_) => JsonView::Array(Seq::empty()),
                };
                let table = table_of(proxies, groups, now);
                match name {
                    None => StepView::Done(
                        ok_with(
                            JsonView::Object(seq![("proxies"@, JsonView::Object(table))]),
                        ),
                    ),
                    Some(name) => match JsonView::Object(table).get(name) {
                        Some(entry) => StepView::Done(ok_with(entry)),
                        None => StepView::Done(failed(404, "not found"@)),
                    },
                }
            },
        }
    }
}

fn table(name: Option<&str>, said: &Vec<Result<Json, String>>, now: i64) -> (r: Step)
    ensures
        r@ == table_step(
            match name {
                Some(n) => Some(n@),
                None => None,
            },
            outcomes(said@),
            now as int,
        ),
{
    if said.len() == 0 {
        return ask_plain("get_proxies");
    }
    let proxies = match &said[0] {
        Err(e) => {
            return Step::Done(json_error(503, e));
        },
        Ok(v) => v,
    };
    if said.len() == 1 {
        return ask_plain("get_proxy_groups");
    }
    let none = empty_array();
    let groups = match &said[1] {
        Ok(v) => v,
        Err(_) => &none,
    };
    let entries = proxy_table(proxies, groups, now);
    match name {
        None => {
            let mut m = no_entries();
            put(&mut m, "proxies", Json::object(entries));
            proof {
                assert(entries_view(m@) =~= seq![
                    ("proxies"@, JsonView::Object(entries_view(entries@))),
                ]);
            }
            Step::Done(json_ok(Json::object(m)))
        },
        Some(name) => match find_entry(&entries, name) {
            Some(entry) => Step::Done(json_ok(entry.copy())),
            None => Step::Done(json_error(404, "not found")),
        },
    }
}

/// What a delay test came to. A test that failed is a gateway timeout, by which a
/// dashboard shows the proxy as timed out.
pub open spec fn delay_answer(said: Result<JsonView, Seq<char>>) -> ReplyView {
    match said {
        Err(e) => failed(504, e),
        Ok(v) => match number_field(v, "latency_ms"@) {
            Some(delay) => ok_with(JsonView::Object(seq![("delay"@, JsonView::Uint(delay))])),
            None => failed(
                504,
                match text_field(v, "error"@) {
                    Some(e) => e,
                    None => "latency test failed"@,
                },
            ),
        },
    }
}

fn delay_reply(said: &Result<Json, String>) -> (r: Reply)
    ensures
        r@ == delay_answer(outcome(*said)),
{
    match said {
        Err(e) => json_error(504, e),
        Ok(v) => match u64_field(v, "latency_ms") {
            Some(delay) => {
                let mut m = no_entries();
                put(&mut m, "delay", Json::Uint(delay));
                proof {
                    assert(entries_view(m@) =~= seq![("delay"@, JsonView::Uint(delay))]);
                }
                json_ok(Json::object(m))
            },
            None => match str_field(v, "error") {
                Some(e) => json_error(504, e),
                None => json_error(504, "latency test failed"),
            },
        },
    }
}

pub open spec fn rules_step(said: Seq<Result<JsonView, Seq<char>>>) -> StepView {
    if said.len() == 0 {
        StepView::Ask("get_rules"@, no_params())
    } else {
        match said[0] {
            Err(e) => StepView::Done(failed(503, e)),
            Ok(rules) => StepView::Done(
                ok_with(JsonView::Object(seq![("rules"@, JsonView::Array(rule_objects(rules)))])),
            ),
        }
    }
}

fn rules(said: &Vec<Result<Json, String>>) -> (r: Step)
    ensures
        r@ == rules_step(outcomes(said@)),
{
    if said.len() == 0 {
        return ask_plain("get_rules");
    }
    match &said[0] {
        Err(e) => Step::Done(json_error(503, e)),
        Ok(rules) => {
            let mut m = no_entries();
            put(&mut m, "rules", Json::array(rule_entries(rules)));
            proof {
                assert(entries_view(m@) =~= seq![
                    ("rules"@, JsonView::Array(rule_objects(rules@))),
                ]);
            }
            Step::Done(json_ok(Json::object(m)))
        },
    }
}

/// All connections. Totals that cannot be had are zero.
pub open spec fn connections_step(said: Seq<Result<JsonView, Seq<char>>>) -> StepView {
    if said.len() == 0 {
        StepView::Ask("get_connections_dto"@, no_params())
    } else {
        match said[0] {
            Err(e) => StepView::Done(failed(503, e)),
            Ok(connections) => if said.len() == 1 {
                StepView::Ask("get_traffic_stats_dto"@, no_params())
            } else {
                let stats = match said[1] {
                    Ok(s) => s,
                    Err(_) => no_params(),
                };
                StepView::Done(ok_with(connections_object(connections, stats)))
            },
        }
    }
}

fn connections(said: &Vec<Result<Json, String>>) -> (r: Step)
    ensures
        r@ == connections_step(outcomes(said@)),
{
    if said.len() == 0 {
        return ask_plain("get_connections_dto");
    }
    let list = match &said[0] {
        Err(e) => {
            return Step::Done(json_error(503, e));
        },
        Ok(v) => v,
    };
    if said.len() == 1 {
        return ask_plain("get_traffic_stats_dto");
    }
    let nothing = Json::object(no_entries());
    let stats = match &said[1] {
        Ok(v) => v,
        Err(_) => &nothing,
    };
    Step::Done(json_ok(connections_entry(list, stats)))
}

/// The traffic of the current interval.
pub open spec fn traffic_step(said: Seq<Result<JsonView, Seq<char>>>) -> StepView {
    if said.len() == 0 {
        StepView::Ask("get_traffic_stats_dto"@, no_params())
    } else {
        match said[0] {
            Err(e) => StepView::Done(failed(503, e)),
            Ok(stats) => StepView::Done(
                ok_with(
                    JsonView::Object(
                        seq![
                            ("up"@, JsonView::Uint(number_or_zero(stats, "upload"@))),
                            ("down"@, JsonView::Uint(number_or_zero(stats, "download"@))),
                        ],
                    ),
                ),
            ),
        }
    }
}

fn traffic(said: &Vec<Result<Json, String>>) -> (r: Step)
    ensures
        r@ == traffic_step(outcomes(said@)),
{
    if said.len() == 0 {
        return ask_plain("get_traffic_stats_dto");
    }
    match &said[0] {
        Err(e) => Step::Done(json_error(503, e)),
        Ok(stats) => {
            let up: u64 = match u64_field(stats, "upload") {
                Some(n) => n,
                None => 0,
            };
            let down: u64 = match u64_field(stats, "download") {
                Some(n) => n,
                None => 0,
            };
            let mut m = no_entries();
            put(&mut m, "up", Json::Uint(up));
            put(&mut m, "down", Json::Uint(down));
            proof {
                assert(entries_view(m@) =~= seq![
                    ("up"@, JsonView::Uint(up)),
                    ("down"@, JsonView::Uint(down)),
                ]);
            }
            Step::Done(json_ok(Json::object(m)))
        },
    }
}

/// What to do next for a route, given its body and the outcomes so far.
pub open spec fn next_step(
    route: RouteView,
    body: Option<JsonView>,
    said: Seq<Result<JsonView, Seq<char>>>,
    now: int,
) -> StepView {
    match route {
        RouteView::Preflight => StepView::Done(ok_empty()),
        RouteView::Unauthorized => StepView::Done(failed(401, "unauthorized"@)),
        RouteView::NotFound => StepView::Done(failed(404, "not found"@)),
        RouteView::Index => StepView::Done(ok_with(index_object())),
        RouteView::Version => if said.len() == 0 {
            StepView::Ask("get_version"@, no_params())
        } else {
            StepView::Done(ok_with(version_object(said[0])))
        },
        RouteView::ConfigsGet => StepView::Settings,
        RouteView::ConfigsPatch => patch_step(body, said),
        RouteView::ConfigsPut => reload_step(body, said),
        RouteView::Proxies => table_step(None, said, now),
        RouteView::ProxyGet(name) => table_step(Some(name), said, now),
        RouteView::ProxySelect(name) => select_step(name, body, said),
        RouteView::ProxyDelay(name, url, timeout) => if said.len() == 0 {
            StepView::Ask("test_proxy_latency_dto"@, delay_params(name, url, timeout))
        } else {
            StepView::Done(delay_answer(said[0]))
        },
        RouteView::Rules => rules_step(said),
        RouteView::Connections => connections_step(said),
        RouteView::ConnectionsCloseAll => if said.len() == 0 {
            StepView::Ask("close_all_connections_dto"@, no_params())
        } else {
            done_or(500, said[0])
        },
        RouteView::ConnectionClose(id) => if said.len() == 0 {
            StepView::Ask("close_connection_by_id"@, text_param("id"@, id))
        } else {
            done_or(404, said[0])
        },
        RouteView::Traffic => traffic_step(said),
        RouteView::Memory => StepView::Memory,
    }
}

/// What to do next for a route, given its body, the outcomes of the calls so far, and the
/// time in seconds since 1970.
pub fn step(
    route: &Route,
    body: Option<&Json>,
    said: &Vec<Result<Json, String>>,
    now: i64,
) -> (r: Step)
    ensures
        r@ == next_step(
            route@,
            match body {
                Some(b) => Some(b@),
                None => None,
            },
            outcomes(said@),
            now as int,
        ),
{
    match route {
        Route::Preflight => Step::Done(no_content()),
        Route::Unauthorized => Step::Done(json_error(401, "unauthorized")),
        Route::NotFound => Step::Done(json_error(404, "not found")),
        Route::Index => Step::Done(index_reply()),
        Route::Version => if said.len() == 0 {
            ask_plain("get_version")
        } else {
            Step::Done(version_reply(&said[0]))
        },
        Route::ConfigsGet => Step::Settings,
        Route::ConfigsPatch => patch(body, said),
        Route::ConfigsPut => reload(body, said),
        Route::Proxies => table(None, said, now),
        Route::ProxyGet(name) => table(Some(name.as_str()), said, now),
        Route::ProxySelect(name) => select(name, body, said),
        Route::ProxyDelay { name, url, timeout } => if said.len() == 0 {
            ask_delay(name, url, *timeout)
        } else {
            Step::Done(delay_reply(&said[0]))
        },
        Route::Rules => rules(said),
        Route::Connections => connections(said),
        Route::ConnectionsCloseAll => if said.len() == 0 {
            ask_plain("close_all_connections_dto")
        } else {
            finish(500, &said[0])
        },
        Route::ConnectionClose(id) => if said.len() == 0 {
            ask_text("close_connection_by_id", "id", id)
        } else {
            finish(404, &said[0])
        },
        Route::Traffic => traffic(said),
        Route::Memory => Step::Memory,
    }
}

/// The answer with the settings, once they are known, or what was said instead.
pub fn configs_reply(
    settings: &Result<GeneralSnapshot, String>,
    dns: &Result<Json, String>,
) -> (r: Reply)
    ensures
        r@ == match *settings {
            Err(e) => failed(503, e@),
            Ok(s) => ok_with(
                configs_object(
                    s,
                    match *dns {
                        Ok(d) => Some(d@),
                        Err(_) => None,
                    },
                ),
            ),
        },
{
    match settings {
        Err(e) => json_error(503, e),
        Ok(s) => match dns {
            Ok(d) => json_ok(configs_entry(s, Some(d))),
            Err(_) => json_ok(configs_entry(s, None)),
        },
    }
}

/// The answer with the memory in use and the memory that there is, in bytes, or what was
/// said instead.
pub fn memory_reply(info: &Result<(u64, u64), String>) -> (r: Reply)
    ensures
        r@ == match *info {
            Err(e) => failed(503, e@),
            Ok((used, total)) => ok_with(
                JsonView::Object(
                    seq![("inuse"@, JsonView::Uint(used)), ("oslimit"@, JsonView::Uint(total))],
                ),
            ),
        },
{
    match info {
        Err(e) => json_error(503, e),
        Ok((used, total)) => {
            let mut m = no_entries();
            put(&mut m, "inuse", Json::Uint(*used));
            put(&mut m, "oslimit", Json::Uint(*total));
            proof {
                assert(entries_view(m@) =~= seq![
                    ("inuse"@, JsonView::Uint(*used)),
                    ("oslimit"@, JsonView::Uint(*total)),
                ]);
            }
            json_ok(Json::object(m))
        },
    }
}

// ---------------------------------------------------------------------------
// Laws
// ---------------------------------------------------------------------------

/// A request without the secret, or with another, is answered with a refusal and nothing
/// else: no call is made for it.
pub proof fn lemma_refused_without_secret(
    method: Seq<char>,
    path: Seq<char>,
    query: Seq<char>,
    header: Option<Seq<char>>,
    secret: Seq<char>,
    body: Option<JsonView>,
    said: Seq<Result<JsonView, Seq<char>>>,
    now: int,
)
    requires
        method != "OPTIONS"@,
        secret.len() > 0,
        match header {
            Some(h) => presented(h) != secret,
            None => true,
        },
    ensures
        next_step(route_of(method, path, query, header, secret), body, said, now)
            == StepView::Done(failed(401, "unauthorized"@)),
{
}

/// A preflight is answered whether or not it carries the secret.
pub proof fn lemma_preflight_answered(
    path: Seq<char>,
    query: Seq<char>,
    header: Option<Seq<char>>,
    secret: Seq<char>,
    body: Option<JsonView>,
    said: Seq<Result<JsonView, Seq<char>>>,
    now: int,
)
    ensures
        next_step(route_of("OPTIONS"@, path, query, header, secret), body, said, now)
            == StepView::Done(ok_empty()),
{
}

/// No request takes more than two calls.
pub proof fn lemma_conversation_ends(
    route: RouteView,
    body: Option<JsonView>,
    said: Seq<Result<JsonView, Seq<char>>>,
    now: int,
)
    requires
        said.len() >= 2,
    ensures
        !(next_step(route, body, said, now) is Ask),
{
}

/// A call without parameters is accepted by a method that takes none.
proof fn lemma_plain_call(method: Seq<char>)
    requires
        takes_nothing(method),
    ensures
        call_of(method, no_params()) is Ok,
{
}

/// A method with one parameter accepts a call that gives it.
proof fn lemma_single_call(method: Seq<char>, params: JsonView, key: Seq<char>, kind: ParamKind)
    requires
        takes_nothing(method) || single_param(method) == Some((key, kind)),
        arg_of(params, key, kind) is Ok,
    ensures
        call_of(method, params) is Ok,
{
    reveal_with_fuel(all_args, 2);
    assert(seq![(key, kind)].skip(1) =~= Seq::empty());
}

/// The methods with one parameter that the controller calls.
proof fn lemma_single_methods()
    ensures
        single_param("reload_config_from_file"@) == Some(("config_path"@, ParamKind::Text)),
        single_param("close_connection_by_id"@) == Some(("id"@, ParamKind::Text)),
        single_param("set_proxy_mode"@) == Some(("mode"@, ParamKind::I32)),
        single_param("set_log_level"@) == Some(("level"@, ParamKind::Text)),
        single_param("select_proxy"@) is None,
        single_param("test_proxy_latency_dto"@) is None,
        several_params("select_proxy"@) == Some(
            seq![("group_tag"@, ParamKind::Text), ("proxy_tag"@, ParamKind::Text)],
        ),
        several_params("test_proxy_latency_dto"@) == Some(
            seq![
                ("tag"@, ParamKind::Text),
                ("test_url"@, ParamKind::Text),
                ("timeout_ms"@, ParamKind::U64),
            ],
        ),
{
    reveal_strlit("start_proxy_from_yaml");
    reveal_strlit("reload_config_from_yaml");
    reveal_strlit("start_proxy_from_file");
    reveal_strlit("reload_config_from_file");
    reveal_strlit("close_connection_by_id");
    reveal_strlit("set_proxy_mode");
    reveal_strlit("initialize_corduit");
    reveal_strlit("reload_corduit");
    reveal_strlit("test_config");
    reveal_strlit("close_connection");
    reveal_strlit("close_active_connection");
    reveal_strlit("get_logs");
    reveal_strlit("set_log_level");
    reveal_strlit("get_selected_proxy_in_group");
    reveal_strlit("enable_tun_mode_with_mode");
    reveal_strlit("set_windows_proxy_mode");
    reveal_strlit("set_android_proxy_mode");
    reveal_strlit("set_android_vpn_fd");
    reveal_strlit("set_ios_vpn_fd");
    reveal_strlit("set_vpn_fd");
    reveal_strlit("set_protect_socket_callback_enabled");
    reveal_strlit("select_proxy");
    reveal_strlit("test_proxy_latency_dto");
    assert("start_proxy_from_yaml"@.len() == 21);
    assert("reload_config_from_yaml"@.len() == 23);
    assert("start_proxy_from_file"@.len() == 21);
    assert("reload_config_from_file"@.len() == 23);
    assert("close_connection_by_id"@.len() == 22);
    assert("set_proxy_mode"@.len() == 14);
    assert("initialize_corduit"@.len() == 18);
    assert("reload_corduit"@.len() == 14);
    assert("test_config"@.len() == 11);
    assert("close_connection"@.len() == 16);
    assert("close_active_connection"@.len() == 23);
    assert("get_logs"@.len() == 8);
    assert("set_log_level"@.len() == 13);
    assert("get_selected_proxy_in_group"@.len() == 27);
    assert("enable_tun_mode_with_mode"@.len() == 25);
    assert("set_windows_proxy_mode"@.len() == 22);
    assert("set_android_proxy_mode"@.len() == 22);
    assert("set_android_vpn_fd"@.len() == 18);
    assert("set_ios_vpn_fd"@.len() == 14);
    assert("set_vpn_fd"@.len() == 10);
    assert("set_protect_socket_callback_enabled"@.len() == 35);
    assert("select_proxy"@.len() == 12);
    assert("test_proxy_latency_dto"@.len() == 22);
    assert("reload_config_from_file"@[19] != "reload_config_from_yaml"@[19]);
    assert("test_proxy_latency_dto"@[0] == 't');
    assert("close_connection_by_id"@[0] == 'c');
    assert("set_windows_proxy_mode"@[0] == 's');
    assert("set_android_proxy_mode"@[0] == 's');
}

/// The parameters of a selection are what the method takes.
proof fn lemma_select_call(group: Seq<char>, proxy: Seq<char>)
    ensures
        call_of("select_proxy"@, select_params(group, proxy)) is Ok,
{
    lemma_single_methods();
    reveal_strlit("group_tag");
    reveal_strlit("proxy_tag");
    assert("group_tag"@[0] != "proxy_tag"@[0]);
    let given = select_params(group, proxy);
    let entries = given->Object_0;
    assert(entries.skip(1)[0].0 == "proxy_tag"@);
    assert(given.get("group_tag"@) == Some(JsonView::Text(group)));
    reveal_with_fuel(entry, 3);
    assert(given.get("proxy_tag"@) == Some(JsonView::Text(proxy)));
    let params = seq![("group_tag"@, ParamKind::Text), ("proxy_tag"@, ParamKind::Text)];
    reveal_with_fuel(all_args, 3);
    assert(params.skip(1)[0] == params[1]);
    assert(params.skip(1).skip(1).len() == 0);
}

/// The parameters of a delay test are what the method takes.
proof fn lemma_delay_call(name: Seq<char>, url: Seq<char>, timeout: u64)
    ensures
        call_of("test_proxy_latency_dto"@, delay_params(name, url, timeout)) is Ok,
{
    lemma_single_methods();
    reveal_strlit("tag");
    reveal_strlit("test_url");
    reveal_strlit("timeout_ms");
    let given = delay_params(name, url, timeout);
    let entries = given->Object_0;
    reveal_with_fuel(entry, 4);
    assert(entries.skip(1)[0] == entries[1]);
    assert(entries.skip(1).skip(1)[0] == entries[2]);
    assert("tag"@.len() == 3 && "test_url"@.len() == 8 && "timeout_ms"@.len() == 10);
    assert(given.get("tag"@) == Some(JsonView::Text(name)));
    assert(given.get("test_url"@) == Some(JsonView::Text(url)));
    assert(given.get("timeout_ms"@) == Some(JsonView::Uint(timeout)));
    let params = seq![
        ("tag"@, ParamKind::Text),
        ("test_url"@, ParamKind::Text),
        ("timeout_ms"@, ParamKind::U64),
    ];
    reveal_with_fuel(all_args, 4);
    assert(params.skip(1)[0] == params[1]);
    assert(params.skip(1).skip(1)[0] == params[2]);
    assert(params.skip(1).skip(1).skip(1).len() == 0);
}

/// Every call that the controller makes names a method that there is and gives what the
/// method takes: it is carried out, never turned away.
pub proof fn lemma_asked_calls_are_accepted(
    route: RouteView,
    body: Option<JsonView>,
    said: Seq<Result<JsonView, Seq<char>>>,
    now: int,
)
    ensures
        match next_step(route, body, said, now) {
            StepView::Ask(method, params) => call_of(method, params) is Ok,
            _ => true,
        },
{
    if let StepView::Ask(method, params) = next_step(route, body, said, now) {
        lemma_single_methods();
        match route {
            RouteView::ConfigsPatch => {
                let b = body->Some_0;
                if method == "set_log_level"@ {
                    let level = text_field(b, "log-level"@)->Some_0;
                    if params == text_param("level"@, level) {
                        assert(params.get("level"@) == Some(JsonView::Text(level)));
                        lemma_single_call(method, params, "level"@, ParamKind::Text);
                    }
                }
                if method == "set_proxy_mode"@ {
                    let mode = text_field(b, "mode"@)->Some_0;
                    let n = mode_number(mode)->Some_0;
                    if params == mode_param(n) {
                        assert(params.get("mode"@) == Some(JsonView::Uint(n as u64)));
                        lemma_single_call(method, params, "mode"@, ParamKind::I32);
                    }
                }
            },
            RouteView::ConfigsPut => {
                let path = text_field(body->Some_0, "path"@)->Some_0;
                assert(params.get("config_path"@) == Some(JsonView::Text(path)));
                lemma_single_call(method, params, "config_path"@, ParamKind::Text);
            },
            RouteView::ConnectionClose(id) => {
                assert(params.get("id"@) == Some(JsonView::Text(id)));
                lemma_single_call(method, params, "id"@, ParamKind::Text);
            },
            RouteView::ProxySelect(name) => {
                lemma_select_call(name, text_field(body->Some_0, "name"@)->Some_0);
            },
            RouteView::ProxyDelay(name, url, timeout) => {
                lemma_delay_call(name, url, timeout);
            },
            _ => {
                lemma_plain_call(method);
            },
        }
    }
}

/// A proxy is served alone in the shape in which the table serves it.
pub proof fn lemma_one_shape(
    name: Seq<char>,
    body: Option<JsonView>,
    said: Seq<Result<JsonView, Seq<char>>>,
    now: int,
)
    requires
        said.len() >= 2,
        said[0] is Ok,
    ensures
        match next_step(RouteView::Proxies, body, said, now) {
            StepView::Done(whole) => whole.status == 200 && whole.body is Some && match (
            whole.body->Some_0).get("proxies"@) {
                Some(table) => next_step(RouteView::ProxyGet(name), body, said, now)
                    == StepView::Done(
                    match table.get(name) {
                        Some(object) => ok_with(object),
                        None => failed(404, "not found"@),
                    },
                ),
                None => false,
            },
            _ => false,
        },
{
    let proxies = said[0]->Ok_0;
    let groups = match said[1] {
        Ok(g) => g,
        Err(_) => JsonView::Array(Seq::empty()),
    };
    let table = JsonView::Object(table_of(proxies, groups, now));
    let whole = JsonView::Object(seq![("proxies"@, table)]);
    assert(whole.get("proxies"@) == Some(table));
}

} // verus!
