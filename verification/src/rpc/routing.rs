//! How a request finds its way: paths and queries as their writers meant them, and the
//! answers of both servers by method, path and secret.

use crate::json::JsonView;
use crate::rpc::controller::{
    delay_timeout, delay_url, host_and_port, is_authorized, route_of, RouteView,
};
use crate::rpc::server::{requested, upgrade_of, verdict_of, VerdictView};
use crate::rpc::signatures::lemma_get;
use crate::rpc::uri::{
    decoded_parts, digits_value, first_with, number_of, path_segments, percent_decoded, query_param,
    raw_value, unescaped,
};
use crate::rpc::{call_of, ArgView};
use crate::text::{
    decimal, digit_char, hex_value, index_from, is_white, lemma_index_from, split_on, trim_end,
    trim_start, trimmed,
};
use vstd::prelude::*;
use vstd::string::*;
use vstd::utf8::{
    encode_utf8, encode_utf8_decode_utf8, encode_utf8_valid_utf8, is_ascii_chars_encode_utf8,
};

verus! {

/// Where the words of requests differ.
proof fn lemma_words()
    ensures
        "GET"@.len() == 3,
        "GET"@[0] == 'G',
        "PUT"@.len() == 3,
        "PUT"@[0] == 'P',
        "PATCH"@.len() == 5,
        "PATCH"@[0] == 'P',
        "DELETE"@.len() == 6,
        "DELETE"@[2] == 'L',
        "POST"@.len() == 4,
        "OPTIONS"@.len() == 7,
        "OPTIONS"@[0] == 'O',
        "version"@.len() == 7,
        "version"@[0] == 'v',
        "configs"@.len() == 7,
        "configs"@[0] == 'c',
        "proxies"@.len() == 7,
        "proxies"@[0] == 'p',
        "rules"@.len() == 5,
        "rules"@[0] == 'r',
        "connections"@.len() == 11,
        "traffic"@.len() == 7,
        "traffic"@[0] == 't',
        "memory"@.len() == 6,
        "memory"@[2] == 'm',
        "delay"@.len() == 5,
        "delay"@[0] == 'd',
        "method"@.len() == 6,
        "method"@[2] == 't',
        "params"@.len() == 6,
        "params"@[2] == 'r',
{
    reveal_strlit("GET");
    reveal_strlit("PUT");
    reveal_strlit("PATCH");
    reveal_strlit("DELETE");
    reveal_strlit("POST");
    reveal_strlit("OPTIONS");
    reveal_strlit("version");
    reveal_strlit("configs");
    reveal_strlit("proxies");
    reveal_strlit("rules");
    reveal_strlit("connections");
    reveal_strlit("traffic");
    reveal_strlit("memory");
    reveal_strlit("delay");
    reveal_strlit("method");
    reveal_strlit("params");
}

// ---------------------------------------------------------------------------
// Escapes
// ---------------------------------------------------------------------------

/// Bytes as `%XX`.
pub open spec fn escaped_bytes(b: Seq<u8>) -> Seq<char>
    decreases b.len(),
{
    if b.len() == 0 {
        Seq::empty()
    } else {
        seq!['%', digit_char((b[0] / 16) as nat), digit_char((b[0] % 16) as nat)] + escaped_bytes(
            b.skip(1),
        )
    }
}

/// A text with every byte escaped.
pub open spec fn escaped(s: Seq<char>) -> Seq<char> {
    escaped_bytes(encode_utf8(s))
}

proof fn lemma_escaped_ascii(b: Seq<u8>)
    ensures
        escaped_bytes(b).len() == 3 * b.len(),
        forall|i: int|
            0 <= i < escaped_bytes(b).len() ==> {
                let c = #[trigger] escaped_bytes(b)[i];
                c == '%' || '0' <= c <= '9' || 'a' <= c <= 'f'
            },
        b.len() > 0 ==> escaped_bytes(b).contains('%'),
    decreases b.len(),
{
    if b.len() > 0 {
        lemma_escaped_ascii(b.skip(1));
        let s = escaped_bytes(b);
        let first = seq!['%', digit_char((b[0] / 16) as nat), digit_char((b[0] % 16) as nat)];
        assert(s[0] == '%');
        assert forall|i: int| 0 <= i < s.len() implies {
            let c = #[trigger] s[i];
            c == '%' || '0' <= c <= '9' || 'a' <= c <= 'f'
        } by {
            if i >= 3 {
                assert(s[i] == escaped_bytes(b.skip(1))[i - 3]);
            } else {
                assert(s[i] == first[i]);
            }
        }
    }
}

proof fn lemma_unescaped(b: Seq<u8>, codes: Seq<u8>)
    requires
        codes.len() == 3 * b.len(),
        forall|i: int| 0 <= i < codes.len() ==> #[trigger] codes[i] == escaped_bytes(b)[i] as u8,
    ensures
        unescaped(codes) == b,
    decreases b.len(),
{
    lemma_escaped_ascii(b);
    if b.len() == 0 {
        assert(b =~= Seq::empty());
    } else {
        let rest = b.skip(1);
        let s = escaped_bytes(b);
        let hi = (b[0] / 16) as nat;
        let lo = (b[0] % 16) as nat;
        assert(s[0] == '%' && s[1] == digit_char(hi) && s[2] == digit_char(lo));
        assert(codes[0] == 37);
        assert(codes[1] == digit_char(hi) as u8);
        assert(codes[2] == digit_char(lo) as u8);
        assert(hex_value(codes[1]) == Some(hi as u8));
        assert(hex_value(codes[2]) == Some(lo as u8));
        let tail = codes.skip(3);
        assert forall|i: int| 0 <= i < tail.len() implies #[trigger] tail[i] == escaped_bytes(
            rest,
        )[i] as u8 by {
            assert(tail[i] == codes[i + 3]);
            assert(s[i + 3] == escaped_bytes(rest)[i]);
        }
        lemma_unescaped(rest, tail);
        assert(seq![b[0]] + rest =~= b);
    }
}

/// What is escaped comes back whole, whatever it holds.
pub proof fn lemma_escapes_undone(s: Seq<char>)
    ensures
        percent_decoded(escaped(s)) == s,
{
    let b = encode_utf8(s);
    let e = escaped(s);
    lemma_escaped_ascii(b);
    encode_utf8_valid_utf8(s);
    encode_utf8_decode_utf8(s);
    if s.len() == 0 {
        assert(b.len() == 0);
        assert(e =~= s);
    } else {
        assert(b.len() > 0) by {
            crate::protocol::tls13::fingerprint::lemma_empty_text(s);
        }
        assert(vstd::utf8::is_ascii_chars(e)) by {
            assert forall|i: int| 0 <= i < e.len() implies ('\0' <= #[trigger] e[i] <= '\u{7f}') by {
                assert(e[i] == escaped_bytes(b)[i]);
            }
        }
        is_ascii_chars_encode_utf8(e);
        let codes = encode_utf8(e);
        assert forall|i: int| 0 <= i < codes.len() implies #[trigger] codes[i] == escaped_bytes(
            b,
        )[i] as u8 by {
            assert(e[i] == escaped_bytes(b)[i]);
        }
        lemma_unescaped(b, codes);
    }
}

/// A text without a percent sign is left alone.
pub proof fn lemma_plain_left_alone(s: Seq<char>)
    requires
        !s.contains('%'),
    ensures
        percent_decoded(s) == s,
{
}

// ---------------------------------------------------------------------------
// Paths and queries
// ---------------------------------------------------------------------------

/// A text is split at the first separator behind a part that holds none.
proof fn lemma_split_first(part: Seq<char>, c: char, rest: Seq<char>)
    requires
        !part.contains(c),
    ensures
        split_on(part + seq![c] + rest, c) == seq![part] + split_on(rest, c),
        split_on(part, c) == seq![part],
{
    let s = part + seq![c] + rest;
    let n = part.len() as int;
    lemma_index_from(s, c, 0);
    let i = index_from(s, c, 0);
    assert(s[n] == c);
    if i < n {
        assert(s[i] == part[i]);
        assert(part.contains(part[i]));
    }
    assert(s.take(n) =~= part);
    assert(s.skip(n + 1) =~= rest);
    lemma_index_from(part, c, 0);
    let k = index_from(part, c, 0);
    if k < part.len() {
        assert(part.contains(part[k]));
    }
}

/// Parts behind slashes.
pub open spec fn path_of(parts: Seq<Seq<char>>) -> Seq<char>
    decreases parts.len(),
{
    if parts.len() == 0 {
        Seq::empty()
    } else {
        seq!['/'] + escaped(parts[0]) + path_of(parts.skip(1))
    }
}

proof fn lemma_path_split(parts: Seq<Seq<char>>)
    requires
        forall|i: int| 0 <= i < parts.len() ==> (#[trigger] parts[i]).len() > 0,
    ensures
        decoded_parts(split_on(path_of(parts), '/')) == parts,
        path_of(parts).len() > 0 ==> path_of(parts)[0] == '/',
    decreases parts.len(),
{
    let none = Seq::<char>::empty();
    if parts.len() == 0 {
        lemma_split_first(none, '/', none);
        assert(path_of(parts) =~= none);
        assert(seq![none].skip(1) =~= Seq::empty());
        assert(parts =~= Seq::empty());
        reveal_with_fuel(decoded_parts, 2);
    } else {
        let rest = parts.skip(1);
        assert forall|i: int| 0 <= i < rest.len() implies (#[trigger] rest[i]).len() > 0 by {
            assert(rest[i] == parts[i + 1]);
        }
        lemma_path_split(rest);
        let e = escaped(parts[0]);
        let tail = path_of(rest);
        lemma_escaped_ascii(encode_utf8(parts[0]));
        crate::protocol::tls13::fingerprint::lemma_empty_text(parts[0]);
        assert(parts[0].len() > 0);
        assert(!e.contains('/')) by {
            if e.contains('/') {
                let i = choose|i: int| 0 <= i < e.len() && e[i] == '/';
                assert(escaped_bytes(encode_utf8(parts[0]))[i] == '/');
            }
        }
        lemma_split_first(none, '/', e + tail);
        assert(none + seq!['/'] + (e + tail) =~= path_of(parts));
        lemma_escapes_undone(parts[0]);
        let behind = split_on(e + tail, '/');
        if rest.len() == 0 {
            assert(e + tail =~= e);
            lemma_split_first(e, '/', none);
            assert(behind =~= seq![e]);
            assert(behind.skip(1) =~= Seq::<Seq<char>>::empty());
            assert(decoded_parts(behind) == seq![parts[0]] + decoded_parts(behind.skip(1)));
            assert(seq![parts[0]] + Seq::<Seq<char>>::empty() =~= parts);
        } else {
            let after = tail.skip(1);
            assert(tail =~= seq!['/'] + after);
            lemma_split_first(e, '/', after);
            assert(e + seq!['/'] + after =~= e + tail);
            lemma_split_first(none, '/', after);
            assert(none + seq!['/'] + after =~= tail);
            assert(behind =~= seq![e] + split_on(after, '/'));
            assert(behind.skip(1) =~= split_on(after, '/'));
            assert(split_on(tail, '/') =~= seq![none] + split_on(after, '/'));
            assert(split_on(tail, '/').skip(1) =~= split_on(after, '/'));
            assert(decoded_parts(split_on(tail, '/')) == decoded_parts(split_on(after, '/')));
            assert(decoded_parts(behind) == seq![parts[0]] + decoded_parts(split_on(after, '/')));
            assert(seq![parts[0]] + rest =~= parts);
        }
        let all = split_on(path_of(parts), '/');
        assert(all =~= seq![none] + behind);
        assert(all.skip(1) =~= behind);
    }
}

/// A path of any parts, each escaped behind a slash, is read as those parts.
pub proof fn lemma_path_round_trip(parts: Seq<Seq<char>>)
    requires
        forall|i: int| 0 <= i < parts.len() ==> (#[trigger] parts[i]).len() > 0,
    ensures
        path_segments(path_of(parts)) == parts,
{
    lemma_path_split(parts);
}

/// A pair of a query.
pub open spec fn pair_of(key: Seq<char>, value: Seq<char>) -> Seq<char> {
    key + seq!['='] + escaped(value)
}

/// A value of a query is found under its key, alone, before others and behind one of another
/// key. Where no pair has the key there is none.
pub proof fn lemma_query_round_trip(
    key: Seq<char>,
    value: Seq<char>,
    other: Seq<char>,
    before: Seq<char>,
    behind: Seq<char>,
)
    requires
        key != other,
        !key.contains('=') && !key.contains('&'),
        !other.contains('=') && !other.contains('&'),
    ensures
        query_param(pair_of(key, value), key) == Some(value),
        query_param(pair_of(key, value) + seq!['&'] + behind, key) == Some(value),
        query_param(pair_of(other, before) + seq!['&'] + pair_of(key, value), key) == Some(value),
        query_param(
            pair_of(other, before) + seq!['&'] + pair_of(key, value) + seq!['&'] + behind,
            key,
        ) == Some(value),
        query_param(pair_of(other, before), key) is None,
{
    let a = pair_of(other, before);
    let b = pair_of(key, value);
    lemma_pair_read(key, value);
    lemma_pair_read(other, before);
    lemma_escapes_undone(value);
    lemma_split_first(b, '&', behind);
    lemma_split_first(a, '&', b);
    lemma_split_first(a, '&', b + seq!['&'] + behind);
    assert(a + seq!['&'] + b + seq!['&'] + behind =~= a + seq!['&'] + (b + seq!['&'] + behind));
    let rest = split_on(behind, '&');
    let one = seq![b];
    let more = seq![b] + rest;
    assert((seq![a] + one).skip(1) =~= one);
    assert((seq![a] + more).skip(1) =~= more);
    assert(raw_value(one, key) == Some(escaped(value)));
    assert(raw_value(more, key) == Some(escaped(value)));
    assert(raw_value(seq![a] + one, key) == raw_value(one, key));
    assert(raw_value(seq![a] + more, key) == raw_value(more, key));
    assert(seq![a].skip(1) =~= Seq::<Seq<char>>::empty());
    reveal_with_fuel(raw_value, 2);
}

proof fn lemma_pair_read(key: Seq<char>, value: Seq<char>)
    requires
        !key.contains('=') && !key.contains('&'),
    ensures
        ({
            let p = pair_of(key, value);
            let k = index_from(p, '=', 0);
            &&& k == key.len()
            &&& k < p.len()
            &&& p.take(k) == key
            &&& p.skip(k + 1) == escaped(value)
            &&& !p.contains('&')
        }),
{
    let p = pair_of(key, value);
    let n = key.len() as int;
    lemma_index_from(p, '=', 0);
    let k = index_from(p, '=', 0);
    assert(p[n] == '=');
    if k < n {
        assert(p[k] == key[k]);
        assert(key.contains(key[k]));
    }
    assert(p.take(n) =~= key);
    assert(p.skip(n + 1) =~= escaped(value));
    lemma_escaped_ascii(encode_utf8(value));
    if p.contains('&') {
        let i = choose|i: int| 0 <= i < p.len() && p[i] == '&';
        if i < n {
            assert(key[i] == '&');
            assert(key.contains(key[i]));
        } else if i > n {
            assert(escaped_bytes(encode_utf8(value))[i - n - 1] == '&');
        }
    }
}

/// A number is read as it is written in decimal.
pub proof fn lemma_number_round_trip(n: u64)
    ensures
        number_of(decimal(n as nat)) == Some(n),
{
    lemma_digits(n as nat);
}

proof fn lemma_digits(n: nat)
    ensures
        decimal(n).len() > 0,
        digits_value(decimal(n)) == Some(n),
        '0' <= decimal(n)[0] <= '9',
    decreases n,
{
    if n >= 10 {
        lemma_digits(n / 10);
        assert(decimal(n).drop_last() =~= decimal(n / 10));
        assert(decimal(n)[0] == decimal(n / 10)[0]);
    } else {
        assert(decimal(n).drop_last() =~= Seq::empty());
        reveal_with_fuel(digits_value, 2);
    }
}

/// The time for a delay test is the one that the query gives, and five seconds without one.
pub proof fn lemma_delay_times(n: u64, url: Seq<char>)
    ensures
        delay_timeout(pair_of("timeout"@, decimal(n as nat))) == n,
        delay_timeout(pair_of("url"@, url)) == 5_000,
        delay_url(pair_of("url"@, url)) == url,
{
    reveal_strlit("timeout");
    reveal_strlit("url");
    lemma_query_round_trip("timeout"@, decimal(n as nat), "url"@, url, url);
    lemma_query_round_trip("url"@, url, "timeout"@, url, url);
    lemma_number_round_trip(n);
}

// ---------------------------------------------------------------------------
// Hosts
// ---------------------------------------------------------------------------

/// A host and its port come apart at the colon between them, brackets around the host taken
/// off. A host alone, and an address of many colons without brackets, has no port.
pub proof fn lemma_host_and_port(host: Seq<char>, port: Seq<char>)
    requires
        !port.contains(':'),
    ensures
        !host.contains(':') && (host.len() == 0 || host[0] != '[') ==> host_and_port(
            host + seq![':'] + port,
        ) == (host, port),
        !host.contains(']') ==> host_and_port(seq!['['] + host + seq![']', ':'] + port) == (
            host,
            port,
        ),
        !host.contains(':') ==> host_and_port(host) == (host, Seq::<char>::empty()),
{
    let s = host + seq![':'] + port;
    let n = host.len() as int;
    if !host.contains(':') {
        lemma_index_from(s, ':', 0);
        let k = index_from(s, ':', 0);
        assert(s[n] == ':');
        if k < n {
            assert(s[k] == host[k]);
            assert(host.contains(host[k]));
        }
        assert(s.take(n) =~= host);
        assert(s.skip(n + 1) =~= port);
        if n > 0 {
            assert(s[0] == host[0]);
        }
        lemma_index_from(host, ':', 0);
        let j = index_from(host, ':', 0);
        if j < n {
            assert(host.contains(host[j]));
        }
        lemma_bracket_none(host, 1);
    }
    if !host.contains(']') {
        let t = seq!['['] + host + seq![']', ':'] + port;
        assert(t[n + 1] == ']' && t[n + 2] == ':');
        assert forall|i: int| 1 <= i < n + 1 implies t[i] != ']' by {
            assert(t[i] == host[i - 1]);
            assert(host.contains(host[i - 1]));
        }
        lemma_bracket_found(t, n + 1, 1);
        assert(t.subrange(1, n + 1) =~= host);
        assert(t.skip(n + 3) =~= port);
    }
}

proof fn lemma_bracket_found(s: Seq<char>, n: int, from: int)
    requires
        1 <= from <= n,
        n + 1 < s.len(),
        s[n] == ']',
        s[n + 1] == ':',
        forall|i: int| 1 <= i < n ==> s[i] != ']',
    ensures
        crate::rpc::controller::bracket_from(s, from) == n,
    decreases n - from,
{
    if from < n {
        assert(s[from] != ']');
        lemma_bracket_found(s, n, from + 1);
    }
}

proof fn lemma_bracket_none(s: Seq<char>, from: int)
    requires
        !s.contains(':'),
        0 <= from,
    ensures
        crate::rpc::controller::bracket_from(s, from) >= s.len(),
    decreases s.len() - from,
{
    if from < s.len() {
        if from + 1 < s.len() {
            assert(s.contains(s[from + 1]));
        }
        lemma_bracket_none(s, from + 1);
    }
}

// ---------------------------------------------------------------------------
// The controller
// ---------------------------------------------------------------------------

/// Every path of the controller and what it is for. The parts of a path are its names as
/// they were before they were escaped.
pub proof fn lemma_routes(name: Seq<char>, query: Seq<char>, header: Option<Seq<char>>, secret: Seq<char>)
    requires
        is_authorized(header, secret),
        name.len() > 0,
    ensures
        ({
            let to = |method: Seq<char>, parts: Seq<Seq<char>>|
                route_of(method, path_of(parts), query, header, secret);
            &&& to("GET"@, seq![]) == RouteView::Index
            &&& to("GET"@, seq!["version"@]) == RouteView::Version
            &&& to("GET"@, seq!["configs"@]) == RouteView::ConfigsGet
            &&& to("PATCH"@, seq!["configs"@]) == RouteView::ConfigsPatch
            &&& to("PUT"@, seq!["configs"@]) == RouteView::ConfigsPut
            &&& to("GET"@, seq!["proxies"@]) == RouteView::Proxies
            &&& to("GET"@, seq!["proxies"@, name]) == RouteView::ProxyGet(name)
            &&& to("PUT"@, seq!["proxies"@, name]) == RouteView::ProxySelect(name)
            &&& to("GET"@, seq!["proxies"@, name, "delay"@]) == RouteView::ProxyDelay(
                name,
                delay_url(query),
                delay_timeout(query),
            )
            &&& to("GET"@, seq!["rules"@]) == RouteView::Rules
            &&& to("GET"@, seq!["connections"@]) == RouteView::Connections
            &&& to("DELETE"@, seq!["connections"@]) == RouteView::ConnectionsCloseAll
            &&& to("DELETE"@, seq!["connections"@, name]) == RouteView::ConnectionClose(name)
            &&& to("GET"@, seq!["traffic"@]) == RouteView::Traffic
            &&& to("GET"@, seq!["memory"@]) == RouteView::Memory
            &&& to("POST"@, seq!["proxies"@]) == RouteView::NotFound
            &&& to("DELETE"@, seq!["proxies"@, name]) == RouteView::NotFound
            &&& to("POST"@, seq![]) == RouteView::NotFound
        }),
{
    lemma_words();
    lemma_path_round_trip(seq![]);
    lemma_path_round_trip(seq!["version"@]);
    lemma_path_round_trip(seq!["configs"@]);
    lemma_path_round_trip(seq!["proxies"@]);
    lemma_path_round_trip(seq!["proxies"@, name]);
    lemma_path_round_trip(seq!["proxies"@, name, "delay"@]);
    lemma_path_round_trip(seq!["rules"@]);
    lemma_path_round_trip(seq!["connections"@]);
    lemma_path_round_trip(seq!["connections"@, name]);
    lemma_path_round_trip(seq!["traffic"@]);
    lemma_path_round_trip(seq!["memory"@]);
}

/// A secret is presented behind `Bearer` or bare, white space around it aside, and nothing
/// else is taken for it. Without a secret every request is let in.
pub proof fn lemma_secret_presented(secret: Seq<char>, other: Seq<char>)
    requires
        secret.len() > 0,
        !is_white(secret[0]),
        !is_white(secret.last()),
        !("Bearer "@.is_prefix_of(secret)),
    ensures
        is_authorized(Some("Bearer "@ + secret), secret),
        is_authorized(Some(secret), secret),
        is_authorized(Some(seq![' '] + secret + seq![' ']), secret),
        !is_authorized(None, secret),
        trimmed(other) != secret ==> !is_authorized(Some("Bearer "@ + other), secret),
        trimmed(other) != secret && !("Bearer "@.is_prefix_of(other)) ==> !is_authorized(
            Some(other),
            secret,
        ),
        is_authorized(None, Seq::empty()),
{
    reveal_strlit("Bearer ");
    let b = "Bearer "@;
    assert((b + secret).skip(7) =~= secret);
    assert((b + other).skip(7) =~= other);
    assert(b.is_prefix_of(b + secret));
    assert(b.is_prefix_of(b + other));
    let spaced = seq![' '] + secret + seq![' '];
    assert(spaced[0] == ' ' && b[0] == 'B');
    assert(!b.is_prefix_of(spaced));
    assert(spaced.drop_first() =~= secret + seq![' ']);
    let half = secret + seq![' '];
    assert(half[0] == secret[0]);
    assert(trim_start(half) == half);
    assert(trim_start(spaced) == half);
    assert(half.last() == ' ');
    assert(half.drop_last() =~= secret);
    assert(trim_end(half) == trim_end(secret));
}

// ---------------------------------------------------------------------------
// The RPC server
// ---------------------------------------------------------------------------

/// The server answers a preflight and a question for its health to everyone, has one path
/// besides, and takes a request there from whoever bears the token, up to its size.
pub proof fn lemma_server_answers(
    method: Seq<char>,
    path: Seq<char>,
    header: Option<Seq<char>>,
    token: Seq<char>,
    n: nat,
)
    ensures
        verdict_of("OPTIONS"@, path, header, n, token) == VerdictView::Answer(204, None),
        verdict_of("GET"@, "/health"@, header, n, token) matches VerdictView::Answer(status, b)
            && status == 200 && b is Some,
        method != "OPTIONS"@ && method != "POST"@ && path != "/health"@ ==> (verdict_of(
            method,
            path,
            header,
            n,
            token,
        ) matches VerdictView::Answer(status, _) && status == 404),
        path != "/rpc"@ ==> (verdict_of("POST"@, path, header, n, token) matches VerdictView::Answer(
            status,
            _,
        ) && status == 404),
        n <= 16_777_216 ==> verdict_of("POST"@, "/rpc"@, Some("Bearer "@ + token), n, token)
            is Process,
        n > 16_777_216 ==> (verdict_of("POST"@, "/rpc"@, Some("Bearer "@ + token), n, token)
            matches VerdictView::Answer(status, _) && status == 413),
        header != Some("Bearer "@ + token) ==> (verdict_of("POST"@, "/rpc"@, header, n, token)
            matches VerdictView::Answer(status, _) && status == 401),
{
    lemma_words();
}

/// A request is the call of the method that it names with the parameters that it carries,
/// and without any where it carries none. What names no method is refused.
pub proof fn lemma_request_read(method: Seq<char>, params: JsonView, fault: Seq<char>)
    ensures
        ({
            let named = ("method"@, JsonView::Text(method));
            let whole = JsonView::Object(seq![named, ("params"@, params)]);
            let bare = JsonView::Object(seq![named]);
            &&& call_of(method, params) matches Ok(args) ==> requested(Ok(whole)) == Ok::<
                (Seq<char>, Seq<ArgView>),
                Seq<char>,
            >((method, args))
            &&& call_of(method, params) matches Err(e) ==> requested(Ok(whole)) == Err::<
                (Seq<char>, Seq<ArgView>),
                Seq<char>,
            >(e)
            &&& call_of(method, JsonView::Null) matches Ok(args) ==> requested(Ok(bare)) == Ok::<
                (Seq<char>, Seq<ArgView>),
                Seq<char>,
            >((method, args))
            &&& requested(Ok(params)) is Ok ==> (params.get("method"@) matches Some(v) && v is Text)
            &&& requested(Err(fault)) is Err
        }),
{
    lemma_words();
    let named = ("method"@, JsonView::Text(method));
    let e = seq![named, ("params"@, params)];
    lemma_get(e, "method"@, 0);
    lemma_get(e, "params"@, 1);
    lemma_get(seq![named], "method"@, 0);
    lemma_get(seq![named], "params"@, 0);
}

/// An upgrade is let in with the token in its query, wherever it stands there, and with
/// nothing else.
pub proof fn lemma_upgrade_token(token: Seq<char>, wrong: Seq<char>, other: Seq<char>)
    requires
        !token.contains('&'),
        !wrong.contains('&'),
        !other.contains('&'),
        !("token="@.is_prefix_of(other)),
    ensures
        upgrade_of(Some("token="@ + token), token) is Ok,
        upgrade_of(Some(other + seq!['&'] + ("token="@ + token)), token) is Ok,
        wrong != token ==> upgrade_of(Some("token="@ + wrong), token) is Err,
        upgrade_of(Some(other), token) is Err,
        upgrade_of(None, token) is Err,
{
    reveal_strlit("token=");
    let key = "token="@;
    let a = key + token;
    let b = key + wrong;
    assert(!a.contains('&')) by {
        if a.contains('&') {
            let i = choose|i: int| 0 <= i < a.len() && a[i] == '&';
            if i >= 6 {
                assert(token[i - 6] == '&');
                assert(token.contains(token[i - 6]));
            }
        }
    }
    assert(!b.contains('&')) by {
        if b.contains('&') {
            let i = choose|i: int| 0 <= i < b.len() && b[i] == '&';
            if i >= 6 {
                assert(wrong[i - 6] == '&');
                assert(wrong.contains(wrong[i - 6]));
            }
        }
    }
    lemma_split_first(a, '&', a);
    lemma_split_first(b, '&', b);
    lemma_split_first(other, '&', a);
    assert(a.skip(6) =~= token);
    assert(b.skip(6) =~= wrong);
    assert(key.is_prefix_of(a) && key.is_prefix_of(b));
    assert((seq![other] + seq![a]).skip(1) =~= seq![a]);
    assert(seq![other].skip(1) =~= Seq::<Seq<char>>::empty());
    reveal_with_fuel(first_with, 3);
}

} // verus!
