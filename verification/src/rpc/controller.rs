//! The external controller: the REST protocol that dashboards speak.
//!
//! Nothing here reaches into the engine. A request is authenticated and routed, and each
//! route is a short conversation: [`super::conversation::step`] says which call to make
//! next, or what to answer once the outcomes are in.

use crate::net::{loopback, parse_socket_addr, socket_addr_of, socket_text, SocketAddr};
use crate::rpc::uri::{
    number_of, parse_number, path_segments, query_param, query_value, segments,
};
use crate::text::{
    chars_at, chars_of, concat, find, holds, index_from, lower, owned, same, same_ignoring_case,
    string_of, string_range, strings_view, to_upper_char, trim, trimmed, upper_char,
};
use vstd::prelude::*;
use vstd::string::*;

verus! {

/// The timeout of a delay test where the client asks for none, in milliseconds.
pub const DEFAULT_DELAY_TIMEOUT_MS: u64 = 5000;

/// The address that a delay test probes where the client names none.
pub const DEFAULT_DELAY_URL: &'static str = "http://www.gstatic.com/generate_204";

/// The version that is reported where the engine names none.
pub const PACKAGE_VERSION: &'static str = "0.2.0";

// ---------------------------------------------------------------------------
// Configuration
// ---------------------------------------------------------------------------

/// Where the controller listens and what protects it.
#[derive(Debug)]
pub struct ExternalControllerConfig {
    /// The address to bind. Port zero asks the system for one.
    pub addr: SocketAddr,
    /// The shared secret. Empty means no authentication, which only loopback allows.
    pub secret: String,
}

/// The address that a setting asks for, spelled out. A port alone means every interface.
pub open spec fn bind_text(raw: Seq<char>) -> Seq<char> {
    if raw[0] == ':' {
        "0.0.0.0:"@ + raw.skip(1)
    } else if !raw.contains(':') {
        "0.0.0.0:"@ + raw
    } else {
        raw
    }
}

/// The address that a setting asks for, or what is said of it.
pub open spec fn bind_addr(setting: Seq<char>) -> Result<SocketAddr, Seq<char>> {
    let raw = trimmed(setting);
    if raw.len() == 0 {
        Err("external-controller is empty"@)
    } else {
        match socket_addr_of(bind_text(raw)) {
            Some(addr) => Ok(addr),
            None => Err("external-controller `"@ + raw + "` is not a host:port address"@),
        }
    }
}

/// What is said of a controller that anyone could reach and use.
pub open spec fn exposed_text(addr: SocketAddr) -> Seq<char> {
    "refusing to expose the external controller on "@ + socket_text(addr)
        + " without a secret: set `secret`, or bind to 127.0.0.1"@
}

fn spell_out(raw: &Vec<char>) -> (r: String)
    requires
        raw@.len() > 0,
    ensures
        r@ == bind_text(raw@),
{
    if raw[0] == ':' {
        let rest = string_range(raw, 1, raw.len());
        proof {
            assert(rest@ =~= raw@.skip(1));
        }
        concat("0.0.0.0:", &rest)
    } else if !holds(raw, ':') {
        concat("0.0.0.0:", &string_of(raw))
    } else {
        string_of(raw)
    }
}

impl ExternalControllerConfig {
    /// Read the two settings: `host:port`, `:port` or `port`, and the secret.
    pub fn parse(external_controller: &str, secret: Option<&str>) -> (r: Result<Self, String>)
        ensures
            match bind_addr(external_controller@) {
                Err(e) => r is Err && r->Err_0@ == e,
                Ok(addr) => r is Ok && r->Ok_0.addr == addr && r->Ok_0.secret@ == match secret {
                    Some(s) => s@,
                    None => Seq::empty(),
                },
            },
    {
        let raw = trim(&chars_of(external_controller));
        if raw.len() == 0 {
            return Err(owned("external-controller is empty"));
        }
        let addr = match parse_socket_addr(&spell_out(&raw)) {
            Some(addr) => addr,
            None => {
                return Err(
                    concat(
                        &concat("external-controller `", &string_of(&raw)),
                        "` is not a host:port address",
                    ),
                );
            },
        };
        let secret = match secret {
            Some(s) => owned(s),
            None => String::new(),
        };
        Ok(ExternalControllerConfig { addr, secret })
    }

    /// Whether a request must present the secret.
    pub fn secret_required(&self) -> (r: bool)
        ensures
            r == (self.secret@.len() > 0),
    {
        chars_of(&self.secret).len() > 0
    }

    /// Refuse a controller that is open to others and asks for no secret.
    pub fn guard(&self) -> (r: Result<(), String>)
        ensures
            r is Ok <==> loopback(self.addr) || self.secret@.len() > 0,
            r is Err ==> r->Err_0@ == exposed_text(self.addr),
    {
        if !self.addr.is_loopback() && !self.secret_required() {
            return Err(
                concat(
                    &concat("refusing to expose the external controller on ", &self.addr.text()),
                    " without a secret: set `secret`, or bind to 127.0.0.1",
                ),
            );
        }
        Ok(())
    }
}

// ---------------------------------------------------------------------------
// Values with a shape of their own
// ---------------------------------------------------------------------------

/// The name of the mode that routes traffic: the engine's own number where it overrides
/// the configuration, else the configured mode.
pub open spec fn mode_text(runtime: i32, configured: Seq<char>) -> Seq<char> {
    if runtime == 1 {
        "global"@
    } else if runtime == 2 {
        "direct"@
    } else if runtime == 3 {
        "rule"@
    } else {
        configured
    }
}

/// The name of the mode that routes traffic.
pub fn mode_name(runtime: i32, configured: &str) -> (r: String)
    ensures
        r@ == mode_text(runtime, configured@),
{
    if runtime == 1 {
        owned("global")
    } else if runtime == 2 {
        owned("direct")
    } else if runtime == 3 {
        owned("rule")
    } else {
        owned(configured)
    }
}

/// The engine's number of a mode.
pub open spec fn mode_number(mode: Seq<char>) -> Option<i32> {
    let name = lower(trimmed(mode));
    if name == "global"@ {
        Some(1)
    } else if name == "direct"@ {
        Some(2)
    } else if name == "rule"@ {
        Some(3)
    } else {
        None
    }
}

/// The engine's number of a mode, whatever its case and the white space around it.
pub fn runtime_mode(mode: &str) -> (r: Option<i32>)
    ensures
        r == mode_number(mode@),
{
    let name = trim(&chars_of(mode));
    proof {
        reveal_strlit("global");
        reveal_strlit("direct");
        reveal_strlit("rule");
        assert(lower("global"@) =~= "global"@);
        assert(lower("direct"@) =~= "direct"@);
        assert(lower("rule"@) =~= "rule"@);
    }
    if same_ignoring_case(&name, "global") {
        Some(1)
    } else if same_ignoring_case(&name, "direct") {
        Some(2)
    } else if same_ignoring_case(&name, "rule") {
        Some(3)
    } else {
        None
    }
}

/// The name of a mode that the engine runs in is read back as its number.
pub proof fn lemma_mode_round_trip(runtime: i32, configured: Seq<char>)
    requires
        1 <= runtime <= 3,
    ensures
        mode_number(mode_text(runtime, configured)) == Some(runtime),
{
    reveal_strlit("global");
    reveal_strlit("direct");
    reveal_strlit("rule");
    let name = mode_text(runtime, configured);
    assert(trimmed(name) == name);
    assert(lower(name) =~= name);
    assert("global"@[0] != "direct"@[0] && "global"@[0] != "rule"@[0]);
    assert("direct"@[0] != "rule"@[0]);
}

/// The protocol's spelling of a rule type: upper case, with hyphens.
pub open spec fn rule_type_text(spelling: Seq<char>) -> Seq<char> {
    spelling.map_values(
        |c: char|
            if c == '_' {
                '-'
            } else {
                upper_char(c)
            },
    )
}

/// The protocol's spelling of a rule type.
pub fn rule_type_name(spelling: &str) -> (r: String)
    ensures
        r@ == rule_type_text(spelling@),
{
    let chars = chars_of(spelling);
    let mut out: Vec<char> = Vec::new();
    let mut i: usize = 0;
    while i < chars.len()
        invariant
            i <= chars@.len(),
            out@ == rule_type_text(chars@.take(i as int)),
        decreases chars@.len() - i,
    {
        let c = if chars[i] == '_' {
            '-'
        } else {
            to_upper_char(chars[i])
        };
        out.push(c);
        proof {
            assert(rule_type_text(chars@.take(i + 1)) =~= rule_type_text(
                chars@.take(i as int),
            ).push(c));
        }
        i = i + 1;
    }
    proof {
        assert(chars@.take(i as int) =~= chars@);
    }
    string_of(&out)
}

/// The index of the first closing bracket with a colon behind it, or the length.
pub open spec fn bracket_from(s: Seq<char>, from: int) -> int
    decreases s.len() - from,
{
    if from >= s.len() {
        s.len() as int
    } else if s[from] == ']' && from + 1 < s.len() && s[from + 1] == ':' {
        from
    } else {
        bracket_from(s, from + 1)
    }
}

/// The host and the port of an address. An address in brackets ends at the bracket; one
/// without brackets has a port only where it has a single colon.
pub open spec fn host_and_port(s: Seq<char>) -> (Seq<char>, Seq<char>) {
    let k = index_from(s, ':', 0);
    if s.len() > 0 && s[0] == '[' && bracket_from(s, 1) < s.len() {
        (s.subrange(1, bracket_from(s, 1)), s.skip(bracket_from(s, 1) + 2))
    } else if k < s.len() && !s.skip(k + 1).contains(':') {
        (s.take(k), s.skip(k + 1))
    } else {
        (s, Seq::empty())
    }
}

fn find_bracket(chars: &Vec<char>, from: usize) -> (r: usize)
    requires
        from <= chars@.len(),
    ensures
        r == bracket_from(chars@, from as int),
        from <= r <= chars@.len(),
        r < chars@.len() ==> r + 1 < chars@.len(),
{
    let mut i: usize = from;
    while i < chars.len() && !(chars[i] == ']' && i + 1 < chars.len() && chars[i + 1] == ':')
        invariant
            from <= i <= chars@.len(),
            bracket_from(chars@, from as int) == bracket_from(chars@, i as int),
        decreases chars@.len() - i,
    {
        i = i + 1;
    }
    i
}

/// The host and the port of an address, the port empty where there is none.
pub fn split_host_port(addr: &str) -> (r: (String, String))
    ensures
        (r.0@, r.1@) == host_and_port(addr@),
{
    let chars = chars_of(addr);
    let n: usize = chars.len();
    if n > 0 && chars[0] == '[' {
        let at: usize = find_bracket(&chars, 1);
        if at < n {
            let port = string_range(&chars, at + 2, n);
            proof {
                assert(port@ =~= chars@.skip(at + 2));
            }
            return (string_range(&chars, 1, at), port);
        }
    }
    let k: usize = find(&chars, ':', 0);
    if k < n {
        let rest = vstd::slice::slice_subrange(&chars, k + 1, n);
        proof {
            assert(rest@ =~= chars@.skip(k + 1));
        }
        if !holds(rest, ':') {
            let host = string_range(&chars, 0, k);
            proof {
                assert(host@ =~= chars@.take(k as int));
            }
            return (host, string_of(rest));
        }
    }
    let none = String::new();
    proof {
        assert(none@ =~= Seq::empty());
    }
    (owned(addr), none)
}

/// The timeout that a query asks for, in milliseconds.
pub open spec fn delay_timeout(query: Seq<char>) -> u64 {
    match query_param(query, "timeout"@) {
        Some(v) => match number_of(v) {
            Some(n) => n,
            None => DEFAULT_DELAY_TIMEOUT_MS,
        },
        None => DEFAULT_DELAY_TIMEOUT_MS,
    }
}

/// The timeout that a query asks for, in milliseconds.
pub fn delay_timeout_ms(query: &str) -> (r: u64)
    ensures
        r == delay_timeout(query@),
{
    match query_value(query, "timeout") {
        Some(v) => match parse_number(&v) {
            Some(n) => n,
            None => DEFAULT_DELAY_TIMEOUT_MS,
        },
        None => DEFAULT_DELAY_TIMEOUT_MS,
    }
}

/// The probe address that a query asks for.
pub open spec fn delay_url(query: Seq<char>) -> Seq<char> {
    match query_param(query, "url"@) {
        Some(v) => v,
        None => DEFAULT_DELAY_URL@,
    }
}

// ---------------------------------------------------------------------------
// Routes
// ---------------------------------------------------------------------------

/// What a request asks for.
#[derive(Debug)]
pub enum Route {
    /// A preflight, which carries no credentials by design.
    Preflight,
    /// The secret was not presented.
    Unauthorized,
    Version,
    ConfigsGet,
    ConfigsPatch,
    ConfigsPut,
    Proxies,
    ProxyGet(String),
    ProxySelect(String),
    ProxyDelay { name: String, url: String, timeout: u64 },
    Rules,
    Connections,
    ConnectionsCloseAll,
    ConnectionClose(String),
    Traffic,
    Memory,
    Index,
    NotFound,
}

/// What a request asks for, as a mathematical value.
#[verifier::ext_equal]
pub enum RouteView {
    Preflight,
    Unauthorized,
    Version,
    ConfigsGet,
    ConfigsPatch,
    ConfigsPut,
    Proxies,
    ProxyGet(Seq<char>),
    ProxySelect(Seq<char>),
    ProxyDelay(Seq<char>, Seq<char>, u64),
    Rules,
    Connections,
    ConnectionsCloseAll,
    ConnectionClose(Seq<char>),
    Traffic,
    Memory,
    Index,
    NotFound,
}

impl View for Route {
    type V = RouteView;

    open spec fn view(&self) -> RouteView {
        match *self {
            Route::Preflight => RouteView::Preflight,
            Route::Unauthorized => RouteView::Unauthorized,
            Route::Version => RouteView::Version,
            Route::ConfigsGet => RouteView::ConfigsGet,
            Route::ConfigsPatch => RouteView::ConfigsPatch,
            Route::ConfigsPut => RouteView::ConfigsPut,
            Route::Proxies => RouteView::Proxies,
            Route::ProxyGet(name) => RouteView::ProxyGet(name@),
            Route::ProxySelect(name) => RouteView::ProxySelect(name@),
            Route::ProxyDelay { name, url, timeout } => RouteView::ProxyDelay(
                name@,
                url@,
                timeout,
            ),
            Route::Rules => RouteView::Rules,
            Route::Connections => RouteView::Connections,
            Route::ConnectionsCloseAll => RouteView::ConnectionsCloseAll,
            Route::ConnectionClose(id) => RouteView::ConnectionClose(id@),
            Route::Traffic => RouteView::Traffic,
            Route::Memory => RouteView::Memory,
            Route::Index => RouteView::Index,
            Route::NotFound => RouteView::NotFound,
        }
    }
}

/// What an authorization header presents, with or without the name of the scheme.
pub open spec fn presented(header: Seq<char>) -> Seq<char> {
    if "Bearer "@.is_prefix_of(header) {
        trimmed(header.skip("Bearer "@.len() as int))
    } else {
        trimmed(header)
    }
}

/// Whether a request presents the secret. Where there is none, anything is accepted.
pub open spec fn is_authorized(header: Option<Seq<char>>, secret: Seq<char>) -> bool {
    secret.len() == 0 || match header {
        Some(h) => presented(h) == secret,
        None => false,
    }
}

/// Whether a request presents the secret. The comparison takes as long whatever it finds.
pub fn authorized(header: Option<&str>, secret: &str) -> (r: bool)
    ensures
        r == is_authorized(
            match header {
                Some(h) => Some(h@),
                None => None,
            },
            secret@,
        ),
{
    if chars_of(secret).len() == 0 {
        return true;
    }
    match header {
        None => false,
        Some(h) => {
            let chars = chars_of(h);
            let scheme = chars_of("Bearer ");
            proof {
                assert("Bearer "@.is_prefix_of(h@) <==> scheme@.len() <= h@.len() && h@.subrange(
                    0,
                    scheme@.len() as int,
                ) =~= "Bearer "@);
            }
            let value = if chars_at(&chars, 0, "Bearer ") {
                let rest = vstd::slice::slice_subrange(&chars, scheme.len(), chars.len());
                proof {
                    assert(rest@ =~= h@.skip(scheme@.len() as int));
                }
                trim(rest)
            } else {
                trim(&chars)
            };
            same(&string_of(&value), secret)
        },
    }
}

/// The route of an admitted request.
pub open spec fn route_by_path(
    method: Seq<char>,
    parts: Seq<Seq<char>>,
    query: Seq<char>,
) -> RouteView {
    if parts.len() == 0 {
        if method == "GET"@ {
            RouteView::Index
        } else {
            RouteView::NotFound
        }
    } else if parts.len() == 1 {
        if method == "GET"@ && parts[0] == "version"@ {
            RouteView::Version
        } else if method == "GET"@ && parts[0] == "configs"@ {
            RouteView::ConfigsGet
        } else if method == "PATCH"@ && parts[0] == "configs"@ {
            RouteView::ConfigsPatch
        } else if method == "PUT"@ && parts[0] == "configs"@ {
            RouteView::ConfigsPut
        } else if method == "GET"@ && parts[0] == "proxies"@ {
            RouteView::Proxies
        } else if method == "GET"@ && parts[0] == "rules"@ {
            RouteView::Rules
        } else if method == "GET"@ && parts[0] == "connections"@ {
            RouteView::Connections
        } else if method == "DELETE"@ && parts[0] == "connections"@ {
            RouteView::ConnectionsCloseAll
        } else if method == "GET"@ && parts[0] == "traffic"@ {
            RouteView::Traffic
        } else if method == "GET"@ && parts[0] == "memory"@ {
            RouteView::Memory
        } else {
            RouteView::NotFound
        }
    } else if parts.len() == 2 {
        if method == "GET"@ && parts[0] == "proxies"@ {
            RouteView::ProxyGet(parts[1])
        } else if method == "PUT"@ && parts[0] == "proxies"@ {
            RouteView::ProxySelect(parts[1])
        } else if method == "DELETE"@ && parts[0] == "connections"@ {
            RouteView::ConnectionClose(parts[1])
        } else {
            RouteView::NotFound
        }
    } else if parts.len() == 3 && method == "GET"@ && parts[0] == "proxies"@ && parts[2]
        == "delay"@ {
        RouteView::ProxyDelay(parts[1], delay_url(query), delay_timeout(query))
    } else {
        RouteView::NotFound
    }
}

/// The route of a request.
pub open spec fn route_of(
    method: Seq<char>,
    path: Seq<char>,
    query: Seq<char>,
    header: Option<Seq<char>>,
    secret: Seq<char>,
) -> RouteView {
    if method == "OPTIONS"@ {
        RouteView::Preflight
    } else if !is_authorized(header, secret) {
        RouteView::Unauthorized
    } else {
        route_by_path(method, path_segments(path), query)
    }
}

fn find_route(method: &str, parts: &Vec<String>, query: &str) -> (r: Route)
    ensures
        r@ == route_by_path(method@, strings_view(parts@), query@),
{
    let get = same(method, "GET");
    if parts.len() == 0 {
        if get {
            Route::Index
        } else {
            Route::NotFound
        }
    } else if parts.len() == 1 {
        let name = parts[0].as_str();
        if get && same(name, "version") {
            Route::Version
        } else if get && same(name, "configs") {
            Route::ConfigsGet
        } else if same(method, "PATCH") && same(name, "configs") {
            Route::ConfigsPatch
        } else if same(method, "PUT") && same(name, "configs") {
            Route::ConfigsPut
        } else if get && same(name, "proxies") {
            Route::Proxies
        } else if get && same(name, "rules") {
            Route::Rules
        } else if get && same(name, "connections") {
            Route::Connections
        } else if same(method, "DELETE") && same(name, "connections") {
            Route::ConnectionsCloseAll
        } else if get && same(name, "traffic") {
            Route::Traffic
        } else if get && same(name, "memory") {
            Route::Memory
        } else {
            Route::NotFound
        }
    } else if parts.len() == 2 {
        let kind = parts[0].as_str();
        if get && same(kind, "proxies") {
            Route::ProxyGet(owned(parts[1].as_str()))
        } else if same(method, "PUT") && same(kind, "proxies") {
            Route::ProxySelect(owned(parts[1].as_str()))
        } else if same(method, "DELETE") && same(kind, "connections") {
            Route::ConnectionClose(owned(parts[1].as_str()))
        } else {
            Route::NotFound
        }
    } else if parts.len() == 3 && get && same(parts[0].as_str(), "proxies") && same(
        parts[2].as_str(),
        "delay",
    ) {
        let url = match query_value(query, "url") {
            Some(v) => v,
            None => owned(DEFAULT_DELAY_URL),
        };
        Route::ProxyDelay {
            name: owned(parts[1].as_str()),
            url,
            timeout: delay_timeout_ms(query),
        }
    } else {
        Route::NotFound
    }
}

/// Authenticate and route a request.
pub fn route(
    method: &str,
    path: &str,
    query: &str,
    header: Option<&str>,
    secret: &str,
) -> (r: Route)
    ensures
        r@ == route_of(
            method@,
            path@,
            query@,
            match header {
                Some(h) => Some(h@),
                None => None,
            },
            secret@,
        ),
{
    if same(method, "OPTIONS") {
        Route::Preflight
    } else if !authorized(header, secret) {
        Route::Unauthorized
    } else {
        find_route(method, &segments(path), query)
    }
}

} // verus!
