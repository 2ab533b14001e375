//! The JSON-RPC server on the local host: who may call, what a request asks for, and how
//! an outcome is told.
//!
//! A request is `{"method": name, "params": {...}}`. Success is `{"code": 0, "data": value}`,
//! failure is `{"code": 1, "error": message}`.

use crate::json::{
    entries_view, entry, json_parsed, json_text, parse_json, print_json, put, Json, JsonView,
};
use crate::net::{loopback, socket_text, SocketAddr};
use crate::rpc::conversation::{headers_view, outcome};
use crate::rpc::uri::{first_with, query_after};
use crate::rpc::{args_view, call_of, dispatch, ArgView, Call};
use crate::text::{chars_at, chars_of, concat, owned, same, split_on, string_range, utf8_string};
use vstd::prelude::*;
use vstd::string::*;
use vstd::utf8::{decode_utf8, valid_utf8};

verus! {

/// The largest request body, in bytes.
pub const MAX_REQUEST_BODY: usize = 16_777_216;

/// Refuse every address that others could reach: the server controls the engine.
pub fn check_bind(addr: &SocketAddr) -> (r: Result<(), String>)
    ensures
        r is Ok <==> loopback(*addr),
        r is Err ==> r->Err_0@ == "RPC server refuses non-loopback address "@ + socket_text(*addr),
{
    if addr.is_loopback() {
        Ok(())
    } else {
        Err(concat("RPC server refuses non-loopback address ", &addr.text()))
    }
}

/// What to do with a request.
#[derive(Debug)]
pub enum Verdict {
    /// Answer with a status and a body or none.
    Answer { status: u16, body: Option<&'static str> },
    /// Carry the request out, and answer with status 200.
    Process,
}

/// What to do with a request, as a mathematical value.
#[verifier::ext_equal]
pub enum VerdictView {
    Answer(u16, Option<Seq<char>>),
    Process,
}

impl View for Verdict {
    type V = VerdictView;

    open spec fn view(&self) -> VerdictView {
        match *self {
            Verdict::Answer { status, body: Some(b) } => VerdictView::Answer(status, Some(b@)),
            Verdict::Answer { status, body: None } => VerdictView::Answer(status, None),
            Verdict::Process => VerdictView::Process,
        }
    }
}

/// Whether an authorization header presents the token: the name of the scheme, one space,
/// and the token.
pub open spec fn bears(header: Option<Seq<char>>, token: Seq<char>) -> bool {
    match header {
        Some(h) => h == "Bearer "@ + token,
        None => false,
    }
}

/// What to do with a request. The health of the server is no secret; everything else takes
/// the token.
pub open spec fn verdict_of(
    method: Seq<char>,
    path: Seq<char>,
    header: Option<Seq<char>>,
    body_len: nat,
    token: Seq<char>,
) -> VerdictView {
    if method == "OPTIONS"@ {
        VerdictView::Answer(204, None)
    } else if method == "GET"@ && path == "/health"@ {
        VerdictView::Answer(200, Some("{\"ok\":true}"@))
    } else if method != "POST"@ || path != "/rpc"@ {
        VerdictView::Answer(404, Some("{\"code\":1,\"error\":\"not found\"}"@))
    } else if !bears(header, token) {
        VerdictView::Answer(401, Some("{\"code\":1,\"error\":\"unauthorized\"}"@))
    } else if body_len > MAX_REQUEST_BODY {
        VerdictView::Answer(413, Some("{\"code\":1,\"error\":\"request too large\"}"@))
    } else {
        VerdictView::Process
    }
}

fn bears_token(header: Option<&str>, token: &str) -> (r: bool)
    ensures
        r == bears(
            match header {
                Some(h) => Some(h@),
                None => None,
            },
            token@,
        ),
{
    match header {
        None => false,
        Some(h) => {
            let chars = chars_of(h);
            let n: usize = chars_of("Bearer ").len();
            proof {
                let whole = "Bearer "@ + token@;
                assert(whole.subrange(0, n as int) =~= "Bearer "@);
                assert(whole.subrange(n as int, whole.len() as int) =~= token@);
            }
            if !chars_at(&chars, 0, "Bearer ") {
                return false;
            }
            let rest = string_range(&chars, n, chars.len());
            proof {
                assert(h@ =~= "Bearer "@ + rest@) by {
                    assert(h@.subrange(0, n as int) == "Bearer "@);
                    assert(h@ =~= h@.subrange(0, n as int) + h@.subrange(
                        n as int,
                        h@.len() as int,
                    ));
                }
            }
            same(&rest, token)
        },
    }
}

/// Decide what to do with a request, given the length of its body.
pub fn judge(
    method: &str,
    path: &str,
    header: Option<&str>,
    body_len: usize,
    token: &str,
) -> (r: Verdict)
    ensures
        r@ == verdict_of(
            method@,
            path@,
            match header {
                Some(h) => Some(h@),
                None => None,
            },
            body_len as nat,
            token@,
        ),
{
    if same(method, "OPTIONS") {
        Verdict::Answer { status: 204, body: None }
    } else if same(method, "GET") && same(path, "/health") {
        Verdict::Answer { status: 200, body: Some("{\"ok\":true}") }
    } else if !same(method, "POST") || !same(path, "/rpc") {
        Verdict::Answer { status: 404, body: Some("{\"code\":1,\"error\":\"not found\"}") }
    } else if !bears_token(header, token) {
        Verdict::Answer {
            status: 401,
            body: Some("{\"code\":1,\"error\":\"unauthorized\"}"),
        }
    } else if body_len > MAX_REQUEST_BODY {
        Verdict::Answer {
            status: 413,
            body: Some("{\"code\":1,\"error\":\"request too large\"}"),
        }
    } else {
        Verdict::Process
    }
}

/// Whether a WebSocket may be opened, or why not. Browsers set no headers on it, so the
/// token travels in the query.
pub open spec fn upgrade_of(query: Option<Seq<char>>, token: Seq<char>) -> Result<(), Seq<char>> {
    let given = match query {
        Some(q) => first_with(split_on(q, '&'), "token="@),
        None => None,
    };
    match given {
        None => Err("missing token"@),
        Some(t) => if t == token {
            Ok(())
        } else {
            Err("unauthorized"@)
        },
    }
}

/// Decide whether a WebSocket may be opened. A refusal carries the body of its answer,
/// which has status 401.
pub fn check_upgrade(query: Option<&str>, token: &str) -> (r: Result<(), String>)
    ensures
        match upgrade_of(
            match query {
                Some(q) => Some(q@),
                None => None,
            },
            token@,
        ) {
            Ok(_) => r is Ok,
            Err(reason) => r is Err && r->Err_0@ == "{\"code\":1,\"error\":\""@ + reason
                + "\"}"@,
        },
{
    let given = match query {
        Some(q) => query_after(q, "token="),
        None => None,
    };
    match given {
        None => Err(concat(&concat("{\"code\":1,\"error\":\"", "missing token"), "\"}")),
        Some(t) => if same(&t, token) {
            Ok(())
        } else {
            Err(concat(&concat("{\"code\":1,\"error\":\"", "unauthorized"), "\"}"))
        },
    }
}

/// The text of a request body, or what is said of it.
pub fn payload_text(body: Vec<u8>) -> (r: Result<String, String>)
    ensures
        r is Ok <==> valid_utf8(body@),
        r is Ok ==> r->Ok_0@ == decode_utf8(body@),
        r is Err ==> r->Err_0@ == "request body is not valid UTF-8"@,
{
    match utf8_string(body) {
        Some(text) => Ok(text),
        None => Err(owned("request body is not valid UTF-8")),
    }
}

/// The call that a parsed payload asks for, with its method, or what is said of it.
pub open spec fn requested(parsed: Result<JsonView, Seq<char>>) -> Result<
    (Seq<char>, Seq<ArgView>),
    Seq<char>,
> {
    match parsed {
        Err(e) => Err("invalid request JSON: "@ + e),
        Ok(value) => match value.get("method"@) {
            Some(JsonView::Text(method)) => {
                let params = match value.get("params"@) {
                    Some(p) => p,
                    None => JsonView::Null,
                };
                match call_of(method, params) {
                    Ok(args) => Ok((method, args)),
                    Err(e) => Err(e),
                }
            },
            _ => Err("missing 'method'"@),
        },
    }
}

/// Turn a parsed payload into a call.
pub fn request_call(parsed: &Result<Json, String>) -> (r: Result<Call, String>)
    ensures
        match requested(outcome(*parsed)) {
            Err(e) => r is Err && r->Err_0@ == e,
            Ok((method, args)) => r is Ok && r->Ok_0.method@ == method && args_view(
                r->Ok_0.args@,
            ) == args,
        },
{
    let value = match parsed {
        Err(e) => {
            return Err(concat("invalid request JSON: ", e));
        },
        Ok(v) => v,
    };
    let method = match value.get("method") {
        Some(v) => v.as_str(),
        None => None,
    };
    match method {
        None => Err(owned("missing 'method'")),
        Some(method) => match value.get("params") {
            Some(params) => dispatch(method, params),
            None => dispatch(method, &Json::Null),
        },
    }
}

/// The call that the bytes of a payload ask for, with its method, or what is said of them.
pub open spec fn asked(body: Seq<u8>) -> Result<(Seq<char>, Seq<ArgView>), Seq<char>> {
    if valid_utf8(body) {
        requested(json_parsed(decode_utf8(body)))
    } else {
        Err("request body is not valid UTF-8"@)
    }
}

/// Read a payload: the call that it asks for.
pub fn read_request(body: Vec<u8>) -> (r: Result<Call, String>)
    ensures
        match asked(body@) {
            Err(e) => r is Err && r->Err_0@ == e,
            Ok((method, args)) => r is Ok && r->Ok_0.method@ == method && args_view(
                r->Ok_0.args@,
            ) == args,
        },
{
    match payload_text(body) {
        Err(e) => Err(e),
        Ok(text) => request_call(&parse_json(&text)),
    }
}

/// The object that tells an outcome.
pub open spec fn response_object(r: Result<JsonView, Seq<char>>) -> JsonView {
    match r {
        Ok(data) => JsonView::Object(seq![("code"@, JsonView::Uint(0)), ("data"@, data)]),
        Err(e) => JsonView::Object(
            seq![("code"@, JsonView::Uint(1)), ("error"@, JsonView::Text(e))],
        ),
    }
}

/// The object that tells an outcome.
pub fn encode_response(result: Result<Json, String>) -> (r: Json)
    ensures
        r@ == response_object(outcome(result)),
{
    let mut m: Vec<(String, Json)> = Vec::new();
    proof {
        assert(entries_view(m@) =~= Seq::empty());
    }
    match result {
        Ok(data) => {
            put(&mut m, "code", Json::Uint(0));
            put(&mut m, "data", data);
        },
        Err(e) => {
            put(&mut m, "code", Json::Uint(1));
            put(&mut m, "error", Json::Text(e));
        },
    }
    proof {
        assert(entries_view(m@) =~= response_object(outcome(result))->Object_0);
    }
    Json::object(m)
}

/// The text that tells an outcome: a fixed one where the outcome has no text.
pub open spec fn response_string(r: Result<JsonView, Seq<char>>) -> Seq<char> {
    match json_text(response_object(r)) {
        Some(t) => t,
        None => "{\"code\":1,\"error\":\"response encode failed\"}"@,
    }
}

/// The text that tells an outcome.
pub fn response_text(result: Result<Json, String>) -> (r: String)
    ensures
        r@ == response_string(outcome(result)),
{
    match print_json(&encode_response(result)) {
        Some(t) => t,
        None => owned("{\"code\":1,\"error\":\"response encode failed\"}"),
    }
}

/// The headers of an answer: its content type where it has a body, and leave for a
/// dashboard on another origin.
pub open spec fn header_list(has_body: bool) -> Seq<(Seq<char>, Seq<char>)> {
    let cors = seq![
        ("access-control-allow-origin"@, "*"@),
        ("access-control-allow-methods"@, "GET, POST, OPTIONS"@),
        ("access-control-allow-headers"@, "Authorization, Content-Type"@),
        ("access-control-max-age"@, "86400"@),
    ];
    if has_body {
        seq![("content-type"@, "application/json"@)] + cors
    } else {
        cors
    }
}

/// The headers of an answer, in order.
pub fn headers(has_body: bool) -> (r: Vec<(&'static str, &'static str)>)
    ensures
        headers_view(r@) == header_list(has_body),
{
    let mut r: Vec<(&'static str, &'static str)> = Vec::new();
    if has_body {
        r.push(("content-type", "application/json"));
    }
    r.push(("access-control-allow-origin", "*"));
    r.push(("access-control-allow-methods", "GET, POST, OPTIONS"));
    r.push(("access-control-allow-headers", "Authorization, Content-Type"));
    r.push(("access-control-max-age", "86400"));
    proof {
        assert(headers_view(r@) =~= header_list(has_body));
    }
    r
}

/// A client can tell success from failure by the code, and finds the value or the message
/// under its own name.
pub proof fn lemma_response_is_readable(r: Result<JsonView, Seq<char>>)
    ensures
        match r {
            Ok(data) => response_object(r).get("code"@) == Some(JsonView::Uint(0))
                && response_object(r).get("data"@) == Some(data),
            Err(e) => response_object(r).get("code"@) == Some(JsonView::Uint(1))
                && response_object(r).get("error"@) == Some(JsonView::Text(e)),
        },
{
    reveal_strlit("code");
    reveal_strlit("data");
    reveal_strlit("error");
    reveal_with_fuel(entry, 3);
    let entries = response_object(r)->Object_0;
    assert(entries.skip(1)[0] == entries[1]);
    assert("code"@[0] != "data"@[0] && "code"@[0] != "error"@[0]);
}

/// Without the token nothing is carried out, whatever is asked.
pub proof fn lemma_token_required(
    method: Seq<char>,
    path: Seq<char>,
    header: Option<Seq<char>>,
    body_len: nat,
    token: Seq<char>,
)
    requires
        !bears(header, token),
    ensures
        !(verdict_of(method, path, header, body_len, token) is Process),
        method == "POST"@ && path == "/rpc"@ ==> verdict_of(method, path, header, body_len, token)
            == VerdictView::Answer(401, Some("{\"code\":1,\"error\":\"unauthorized\"}"@)),
{
    reveal_strlit("POST");
    reveal_strlit("OPTIONS");
    reveal_strlit("GET");
    assert("POST"@.len() == 4 && "OPTIONS"@.len() == 7 && "GET"@.len() == 3);
}

} // verus!
