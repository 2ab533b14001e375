//! The opening handshake of WebSocket (RFC 6455 section 4) as its lines are read: what a
//! request asks for, whatever is added to it, and which responses complete it.

use crate::crypto::{base64_bytes, base64_of, lemma_base64_round_trip};
use crate::protocol::transport::websocket;
use crate::protocol::transport::websocket::{
    accept_of, early_path, header_lines, request_text, WebSocketConfig,
};
use crate::protocol::ws::{
    after_lines, asks_upgrade, extra_lines, host_ok, key_fault, path_ok, request_of, reserved,
    response_fault,
};
use crate::text::{
    crlf_from, index_from, is_white, lemma_index_from, lines_of, lossy_text, lower, lower_char,
    second_word, split_crlf, split_on, trimmed,
};
use vstd::prelude::*;
use vstd::string::*;
use vstd::utf8::{decode_utf8, encode_scalar, encode_utf8, valid_utf8};

verus! {

// ---------------------------------------------------------------------------
// Lines
// ---------------------------------------------------------------------------

/// Whether a text stays on its line.
pub open spec fn unbroken(s: Seq<char>) -> bool {
    forall|i: int| 0 <= i < s.len() ==> (#[trigger] s[i]) != '\r' && s[i] != '\n'
}

/// Lines with their ends.
pub open spec fn ended(lines: Seq<Seq<char>>) -> Seq<char>
    decreases lines.len(),
{
    if lines.len() == 0 {
        Seq::empty()
    } else {
        ended(lines.drop_last()) + lines.last() + seq!['\r', '\n']
    }
}

/// The line of a header.
pub open spec fn header_line(header: (Seq<char>, Seq<char>)) -> Seq<char> {
    header.0 + seq![':', ' '] + header.1
}

/// The lines of headers.
pub open spec fn as_lines(headers: Seq<(Seq<char>, Seq<char>)>) -> Seq<Seq<char>> {
    headers.map_values(|h: (Seq<char>, Seq<char>)| header_line(h))
}

/// The values that lines give a header, in their order, the case of its name aside.
pub open spec fn values_of(lines: Seq<Seq<char>>, name: Seq<char>) -> Seq<Seq<char>>
    decreases lines.len(),
{
    if lines.len() == 0 {
        Seq::empty()
    } else {
        let line = lines.last();
        let at = index_from(line, ':', 0);
        let before = values_of(lines.drop_last(), name);
        if at < line.len() && lower(line.take(at)) == lower(name) {
            before.push(trimmed(line.skip(at + 1)))
        } else {
            before
        }
    }
}

/// The values among headers that have a name, its case aside.
pub open spec fn values_in(headers: Seq<(Seq<char>, Seq<char>)>, name: Seq<char>) -> Seq<Seq<char>>
    decreases headers.len(),
{
    if headers.len() == 0 {
        Seq::empty()
    } else {
        let before = values_in(headers.drop_last(), name);
        if lower(headers.last().0) == lower(name) {
            before.push(trimmed(headers.last().1))
        } else {
            before
        }
    }
}

/// Whether headers make lines: names without a colon, and nothing that ends a line.
pub open spec fn make_lines(headers: Seq<(Seq<char>, Seq<char>)>) -> bool {
    forall|i: int|
        0 <= i < headers.len() ==> {
            &&& unbroken((#[trigger] headers[i]).0)
            &&& unbroken(headers[i].1)
            &&& !headers[i].0.contains(':')
        }
}

proof fn lemma_line_end(s: Seq<char>, n: int, from: int)
    requires
        0 <= from <= n,
        n + 1 < s.len(),
        s[n] == '\r',
        s[n + 1] == '\n',
        forall|i: int| 0 <= i < n ==> s[i] != '\r',
    ensures
        crlf_from(s, from) == n,
    decreases n - from,
{
    if from < n {
        assert(s[from] != '\r');
        lemma_line_end(s, n, from + 1);
    }
}

proof fn lemma_first_line(line: Seq<char>, rest: Seq<char>)
    requires
        unbroken(line),
    ensures
        split_crlf(line + seq!['\r', '\n'] + rest) == seq![line] + split_crlf(rest),
{
    let s = line + seq!['\r', '\n'] + rest;
    let n = line.len() as int;
    assert(s[n] == '\r' && s[n + 1] == '\n');
    assert forall|i: int| 0 <= i < n implies s[i] != '\r' by {
        assert(s[i] == line[i]);
    }
    lemma_line_end(s, n, 0);
    assert(s.take(n) =~= line);
    assert(s.skip(n + 2) =~= rest);
}

/// Lines that stay lines come apart at their ends.
pub proof fn lemma_lines_split(lines: Seq<Seq<char>>, rest: Seq<char>)
    requires
        forall|i: int| 0 <= i < lines.len() ==> unbroken(#[trigger] lines[i]),
    ensures
        split_crlf(ended(lines) + rest) == lines + split_crlf(rest),
    decreases lines.len(),
{
    if lines.len() == 0 {
        assert(ended(lines) + rest =~= rest);
        assert(lines + split_crlf(rest) =~= split_crlf(rest));
    } else {
        let before = lines.drop_last();
        let tail = lines.last() + seq!['\r', '\n'] + rest;
        assert forall|i: int| 0 <= i < before.len() implies unbroken(#[trigger] before[i]) by {
            assert(before[i] == lines[i]);
        }
        lemma_lines_split(before, tail);
        assert(ended(lines) + rest =~= ended(before) + tail);
        assert(unbroken(lines[lines.len() - 1]));
        lemma_first_line(lines.last(), rest);
        assert(before + (seq![lines.last()] + split_crlf(rest)) =~= lines + split_crlf(rest));
    }
}

proof fn lemma_ended_concat(a: Seq<Seq<char>>, b: Seq<Seq<char>>)
    ensures
        ended(a + b) == ended(a) + ended(b),
    decreases b.len(),
{
    if b.len() == 0 {
        assert(a + b =~= a);
        assert(ended(a) + ended(b) =~= ended(a));
    } else {
        lemma_ended_concat(a, b.drop_last());
        assert((a + b).drop_last() =~= a + b.drop_last());
        assert((a + b).last() == b.last());
        assert(ended(a + b) =~= ended(a) + ended(b));
    }
}

proof fn lemma_values_concat(a: Seq<Seq<char>>, b: Seq<Seq<char>>, name: Seq<char>)
    ensures
        values_of(a + b, name) == values_of(a, name) + values_of(b, name),
    decreases b.len(),
{
    if b.len() == 0 {
        assert(a + b =~= a);
        assert(values_of(a, name) + values_of(b, name) =~= values_of(a, name));
    } else {
        lemma_values_concat(a, b.drop_last(), name);
        assert((a + b).drop_last() =~= a + b.drop_last());
        assert((a + b).last() == b.last());
        assert(values_of(a + b, name) =~= values_of(a, name) + values_of(b, name));
    }
}

proof fn lemma_header_read(header: (Seq<char>, Seq<char>))
    requires
        !header.0.contains(':'),
    ensures
        ({
            let line = header_line(header);
            let at = index_from(line, ':', 0);
            &&& at == header.0.len()
            &&& at < line.len()
            &&& line.take(at) == header.0
            &&& trimmed(line.skip(at + 1)) == trimmed(header.1)
        }),
{
    let line = header_line(header);
    let n = header.0.len() as int;
    lemma_index_from(line, ':', 0);
    let at = index_from(line, ':', 0);
    assert(line[n] == ':');
    if at < n {
        assert(line[at] == header.0[at]);
        assert(header.0.contains(header.0[at]));
    }
    assert(line.take(n) =~= header.0);
    let tail = line.skip(n + 1);
    assert(tail[0] == ' ');
    assert(tail.drop_first() =~= header.1);
}

/// What the lines of headers say is what the headers say.
proof fn lemma_values_read(headers: Seq<(Seq<char>, Seq<char>)>, name: Seq<char>)
    requires
        make_lines(headers),
    ensures
        values_of(as_lines(headers), name) == values_in(headers, name),
    decreases headers.len(),
{
    if headers.len() > 0 {
        let before = headers.drop_last();
        assert forall|i: int| 0 <= i < before.len() implies unbroken((#[trigger] before[i]).0)
            && unbroken(before[i].1) && !before[i].0.contains(':') by {
            assert(before[i] == headers[i]);
        }
        lemma_values_read(before, name);
        assert(as_lines(headers).drop_last() =~= as_lines(before));
        assert(as_lines(headers).last() == header_line(headers.last()));
        assert(!headers[headers.len() - 1].0.contains(':'));
        lemma_header_read(headers.last());
    }
}

proof fn lemma_values_in_concat(
    a: Seq<(Seq<char>, Seq<char>)>,
    b: Seq<(Seq<char>, Seq<char>)>,
    name: Seq<char>,
)
    ensures
        values_in(a + b, name) == values_in(a, name) + values_in(b, name),
    decreases b.len(),
{
    if b.len() == 0 {
        assert(a + b =~= a);
        assert(values_in(a, name) + values_in(b, name) =~= values_in(a, name));
    } else {
        lemma_values_in_concat(a, b.drop_last(), name);
        assert((a + b).drop_last() =~= a + b.drop_last());
        assert((a + b).last() == b.last());
        assert(values_in(a + b, name) =~= values_in(a, name) + values_in(b, name));
    }
}

// ---------------------------------------------------------------------------
// Texts and their bytes
// ---------------------------------------------------------------------------

/// A character of ASCII stands among the bytes of its text as itself.
proof fn lemma_ascii_byte(s: Seq<char>, i: int)
    requires
        0 <= i < s.len(),
        (s[i] as u32) < 0x80,
    ensures
        exists|j: int|
            0 <= j < encode_utf8(s).len() && #[trigger] encode_utf8(s)[j] == s[i] as u32 as u8,
    decreases s.len(),
{
    let first = encode_scalar(s[0] as u32);
    let rest = s.drop_first();
    if i == 0 {
        let c = s[0] as u32;
        assert((c & 0x7f) as u8 == c as u8) by (bit_vector)
            requires
                c < 0x80,
        ;
        assert(encode_utf8(s)[0] == first[0]);
    } else {
        assert(rest[i - 1] == s[i]);
        lemma_ascii_byte(rest, i - 1);
        let j = choose|j: int|
            0 <= j < encode_utf8(rest).len() && #[trigger] encode_utf8(rest)[j] == s[i] as u32 as u8;
        assert(encode_utf8(s)[first.len() + j] == encode_utf8(rest)[j]);
    }
}

proof fn lemma_byte_absent(s: Seq<char>, c: char)
    requires
        (c as u32) < 0x80,
        forall|j: int| 0 <= j < encode_utf8(s).len() ==> #[trigger] encode_utf8(s)[j] != c as u32 as u8,
    ensures
        !s.contains(c),
{
    if s.contains(c) {
        let i = choose|i: int| 0 <= i < s.len() && s[i] == c;
        lemma_ascii_byte(s, i);
    }
}

proof fn lemma_stays_on_line(s: Seq<char>)
    requires
        forall|j: int|
            0 <= j < encode_utf8(s).len() ==> (#[trigger] encode_utf8(s)[j]) != 13 && encode_utf8(
                s,
            )[j] != 10,
    ensures
        unbroken(s),
{
    lemma_byte_absent(s, '\r');
    lemma_byte_absent(s, '\n');
    assert forall|i: int| 0 <= i < s.len() implies (#[trigger] s[i]) != '\r' && s[i] != '\n' by {
        assert(s.contains(s[i]));
    }
}

/// A host and a path that pass their checks stay on their lines, and the path has no space
/// that would end it.
pub proof fn lemma_checked_target(host: Seq<char>, path: Seq<char>)
    ensures
        host_ok(host) ==> unbroken(host) && !host.contains(' '),
        path_ok(path) ==> unbroken(path) && !path.contains(' ') && path[0] == '/',
{
    if host_ok(host) {
        lemma_stays_on_line(host);
        lemma_byte_absent(host, ' ');
    }
    if path_ok(path) {
        lemma_stays_on_line(path);
        lemma_byte_absent(path, ' ');
    }
}

// ---------------------------------------------------------------------------
// The request
// ---------------------------------------------------------------------------

/// The headers that every request has.
spec fn own_headers(host: Seq<char>, key: Seq<char>) -> Seq<(Seq<char>, Seq<char>)> {
    seq![
        ("Host"@, host),
        ("Upgrade"@, "websocket"@),
        ("Connection"@, "Upgrade"@),
        ("Sec-WebSocket-Key"@, key),
        ("Sec-WebSocket-Version"@, "13"@),
    ]
}

proof fn lemma_own_texts()
    ensures
        "Host"@.len() == 4 && "host"@.len() == 4,
        "Upgrade"@.len() == 7 && "upgrade"@.len() == 7,
        "Connection"@.len() == 10 && "connection"@.len() == 10,
        "Sec-WebSocket-Key"@.len() == 17 && "sec-websocket-key"@.len() == 17,
        "Sec-WebSocket-Version"@.len() == 21 && "sec-websocket-version"@.len() == 21,
        lower("Host"@) == lower("host"@),
        lower("Upgrade"@) == lower("upgrade"@),
        lower("Connection"@) == lower("connection"@),
        lower("Sec-WebSocket-Key"@) == lower("sec-websocket-key"@),
        lower("Sec-WebSocket-Version"@) == lower("sec-websocket-version"@),
        unbroken("Host"@) && !"Host"@.contains(':'),
        unbroken("Upgrade"@) && !"Upgrade"@.contains(':'),
        unbroken("Connection"@) && !"Connection"@.contains(':'),
        unbroken("Sec-WebSocket-Key"@) && !"Sec-WebSocket-Key"@.contains(':'),
        unbroken("Sec-WebSocket-Version"@) && !"Sec-WebSocket-Version"@.contains(':'),
        unbroken("websocket"@) && unbroken("13"@),
{
    reveal_strlit("Host");
    reveal_strlit("host");
    reveal_strlit("Upgrade");
    reveal_strlit("upgrade");
    reveal_strlit("Connection");
    reveal_strlit("connection");
    reveal_strlit("Sec-WebSocket-Key");
    reveal_strlit("sec-websocket-key");
    reveal_strlit("Sec-WebSocket-Version");
    reveal_strlit("sec-websocket-version");
    reveal_strlit("websocket");
    reveal_strlit("13");
    assert(lower("Host"@) =~= lower("host"@));
    assert(lower("Upgrade"@) =~= lower("upgrade"@));
    assert(lower("Connection"@) =~= lower("connection"@));
    assert(lower("Sec-WebSocket-Key"@) =~= lower("sec-websocket-key"@));
    assert(lower("Sec-WebSocket-Version"@) =~= lower("sec-websocket-version"@));
}

/// The fixed text of a request is its own lines.
proof fn lemma_own_lines(path: Seq<char>, host: Seq<char>, key: Seq<char>)
    ensures
        "GET "@ + path + " HTTP/1.1\r\nHost: "@ + host
            + "\r\nUpgrade: websocket\r\nConnection: Upgrade\r\nSec-WebSocket-Key: "@ + key
            + "\r\nSec-WebSocket-Version: 13\r\n"@ == ended(
            seq!["GET "@ + path + " HTTP/1.1"@] + as_lines(own_headers(host, key)),
        ),
{
    reveal_strlit("GET ");
    reveal_strlit(" HTTP/1.1");
    reveal_strlit(" HTTP/1.1\r\nHost: ");
    reveal_strlit("\r\nUpgrade: websocket\r\nConnection: Upgrade\r\nSec-WebSocket-Key: ");
    reveal_strlit("\r\nSec-WebSocket-Version: 13\r\n");
    reveal_strlit("Host");
    reveal_strlit("Upgrade");
    reveal_strlit("Connection");
    reveal_strlit("Sec-WebSocket-Key");
    reveal_strlit("Sec-WebSocket-Version");
    reveal_strlit("websocket");
    reveal_strlit("13");
    let first = "GET "@ + path + " HTTP/1.1"@;
    let h = as_lines(own_headers(host, key));
    let lines = seq![first] + h;
    let end = seq!['\r', '\n'];
    assert(h.len() == 5);
    assert(lines =~= seq![first, h[0], h[1], h[2], h[3], h[4]]);
    let l0 = Seq::<Seq<char>>::empty();
    let l1 = l0.push(first);
    let l2 = l1.push(h[0]);
    let l3 = l2.push(h[1]);
    let l4 = l3.push(h[2]);
    let l5 = l4.push(h[3]);
    let l6 = l5.push(h[4]);
    assert(l6 =~= lines);
    assert(l1.drop_last() =~= l0 && l2.drop_last() =~= l1 && l3.drop_last() =~= l2);
    assert(l4.drop_last() =~= l3 && l5.drop_last() =~= l4 && l6.drop_last() =~= l5);
    assert(ended(l0) == Seq::<char>::empty());
    assert(ended(l1) == ended(l0) + first + end);
    assert(ended(l2) == ended(l1) + h[0] + end);
    assert(ended(l3) == ended(l2) + h[1] + end);
    assert(ended(l4) == ended(l3) + h[2] + end);
    assert(ended(l5) == ended(l4) + h[3] + end);
    assert(ended(l6) == ended(l5) + h[4] + end);
    assert(h[0] == "Host"@ + seq![':', ' '] + host);
    assert(h[1] == "Upgrade"@ + seq![':', ' '] + "websocket"@);
    assert(h[2] == "Connection"@ + seq![':', ' '] + "Upgrade"@);
    assert(h[3] == "Sec-WebSocket-Key"@ + seq![':', ' '] + key);
    assert(h[4] == "Sec-WebSocket-Version"@ + seq![':', ' '] + "13"@);
    assert(end + ("Host"@ + seq![':', ' ']) =~= "\r\nHost: "@) by {
        reveal_strlit("\r\nHost: ");
    }
    assert(" HTTP/1.1\r\nHost: "@ =~= " HTTP/1.1"@ + end + ("Host"@ + seq![':', ' ']));
    let middle = end + h[1] + end + h[2] + end + ("Sec-WebSocket-Key"@ + seq![':', ' ']);
    assert("\r\nUpgrade: websocket\r\nConnection: Upgrade\r\nSec-WebSocket-Key: "@ =~= middle);
    assert("\r\nSec-WebSocket-Version: 13\r\n"@ =~= end + h[4] + end);
    assert("GET "@ + path + " HTTP/1.1\r\nHost: "@ + host + middle + key + (end + h[4] + end)
        =~= ended(l6));
}

/// The headers behind a request's own: those that are not reserved, in their order.
pub open spec fn added(headers: Seq<(Seq<char>, Seq<char>)>) -> Seq<(Seq<char>, Seq<char>)>
    decreases headers.len(),
{
    if headers.len() == 0 {
        Seq::empty()
    } else {
        let before = added(headers.drop_last());
        if reserved(headers.last().0) {
            before
        } else {
            before.push(headers.last())
        }
    }
}

proof fn lemma_extra_lines(headers: Seq<(Seq<char>, Seq<char>)>)
    requires
        extra_lines(headers) is Ok,
    ensures
        extra_lines(headers)->Ok_0 == ended(as_lines(added(headers))),
        make_lines(added(headers)),
    decreases headers.len(),
{
    if headers.len() == 0 {
        assert(as_lines(added(headers)).len() == 0);
    } else {
        let before = headers.drop_last();
        let (name, value) = headers.last();
        lemma_extra_lines(before);
        if !reserved(name) {
            let more = added(headers);
            assert(as_lines(more).drop_last() =~= as_lines(added(before)));
            assert(as_lines(more).last() == header_line((name, value)));
            reveal_strlit(": ");
            reveal_strlit("\r\n");
            assert(": "@ =~= seq![':', ' ']);
            assert("\r\n"@ =~= seq!['\r', '\n']);
            assert(extra_lines(headers)->Ok_0 =~= ended(as_lines(more)));
            assert forall|j: int| 0 <= j < encode_utf8(name).len() implies (
            #[trigger] encode_utf8(name)[j]) != 13 && encode_utf8(name)[j] != 10
                && encode_utf8(name)[j] != 0x3a by {
                assert(crate::protocol::ws::token_byte(encode_utf8(name)[j]));
            }
            lemma_stays_on_line(name);
            lemma_byte_absent(name, ':');
            lemma_stays_on_line(value);
            assert forall|i: int| 0 <= i < more.len() implies unbroken((#[trigger] more[i]).0)
                && unbroken(more[i].1) && !more[i].0.contains(':') by {
                if i < added(before).len() {
                    assert(more[i] == added(before)[i]);
                }
            }
        }
    }
}

proof fn lemma_added_values(headers: Seq<(Seq<char>, Seq<char>)>, name: Seq<char>)
    ensures
        reserved(name) ==> values_in(added(headers), name).len() == 0,
        !reserved(name) ==> values_in(added(headers), name) == values_in(headers, name),
    decreases headers.len(),
{
    if headers.len() > 0 {
        let before = headers.drop_last();
        lemma_added_values(before, name);
        if !reserved(headers.last().0) {
            assert(added(headers).drop_last() =~= added(before));
            assert(added(headers).last() == headers.last());
        }
    }
}

proof fn lemma_own_values(host: Seq<char>, key: Seq<char>, name: Seq<char>)
    ensures
        lower(name) == lower("host"@) ==> values_in(own_headers(host, key), name) == seq![
            trimmed(host),
        ],
        lower(name) == lower("upgrade"@) ==> values_in(own_headers(host, key), name) == seq![
            trimmed("websocket"@),
        ],
        lower(name) == lower("connection"@) ==> values_in(own_headers(host, key), name) == seq![
            trimmed("Upgrade"@),
        ],
        lower(name) == lower("sec-websocket-key"@) ==> values_in(own_headers(host, key), name)
            == seq![trimmed(key)],
        lower(name) == lower("sec-websocket-version"@) ==> values_in(own_headers(host, key), name)
            == seq![trimmed("13"@)],
        !reserved(name) ==> values_in(own_headers(host, key), name).len() == 0,
{
    lemma_own_texts();
    assert(lower("host"@).len() == 4);
    assert(lower("upgrade"@).len() == 7);
    assert(lower("connection"@).len() == 10);
    assert(lower("sec-websocket-key"@).len() == 17);
    assert(lower("sec-websocket-version"@).len() == 21);
    let h5 = own_headers(host, key);
    let h4 = h5.drop_last();
    let h3 = h4.drop_last();
    let h2 = h3.drop_last();
    let h1 = h2.drop_last();
    let h0 = h1.drop_last();
    assert(h0.len() == 0);
    assert(values_in(h0, name) == Seq::<Seq<char>>::empty());
    assert(h1.last() == ("Host"@, host));
    assert(h2.last() == ("Upgrade"@, "websocket"@));
    assert(h3.last() == ("Connection"@, "Upgrade"@));
    assert(h4.last() == ("Sec-WebSocket-Key"@, key));
    assert(h5.last() == ("Sec-WebSocket-Version"@, "13"@));
    reveal_with_fuel(values_in, 6);
    if lower(name) == lower("host"@) {
        assert(values_in(h5, name) =~= seq![trimmed(host)]);
    } else if lower(name) == lower("upgrade"@) {
        assert(values_in(h5, name) =~= seq![trimmed("websocket"@)]);
    } else if lower(name) == lower("connection"@) {
        assert(values_in(h5, name) =~= seq![trimmed("Upgrade"@)]);
    } else if lower(name) == lower("sec-websocket-key"@) {
        assert(values_in(h5, name) =~= seq![trimmed(key)]);
    } else if lower(name) == lower("sec-websocket-version"@) {
        assert(values_in(h5, name) =~= seq![trimmed("13"@)]);
    }
}

proof fn lemma_trimmed_whole(s: Seq<char>)
    requires
        s.len() > 0,
        !is_white(s[0]),
        !is_white(s.last()),
    ensures
        trimmed(s) == s,
{
}

proof fn lemma_own_trimmed()
    ensures
        trimmed("websocket"@) == "websocket"@,
        trimmed("Upgrade"@) == "Upgrade"@,
        trimmed("13"@) == "13"@,
        asks_upgrade(split_on("Upgrade"@, ',')),
{
    reveal_strlit("websocket");
    reveal_strlit("Upgrade");
    reveal_strlit("upgrade");
    reveal_strlit("13");
    lemma_trimmed_whole("websocket"@);
    lemma_trimmed_whole("Upgrade"@);
    lemma_trimmed_whole("13"@);
    let u = "Upgrade"@;
    lemma_index_from(u, ',', 0);
    assert(index_from(u, ',', 0) == 7);
    assert(split_on(u, ',') == seq![u]);
    lemma_own_texts();
    assert(split_on(u, ',')[0] == u);
}

/// The lines of a request with its own headers and others behind them.
proof fn lemma_request_parts(
    path: Seq<char>,
    host: Seq<char>,
    key: Seq<char>,
    more: Seq<(Seq<char>, Seq<char>)>,
    text: Seq<char>,
)
    requires
        unbroken(path),
        unbroken(host),
        unbroken(key),
        make_lines(more),
        text == "GET "@ + path + " HTTP/1.1\r\nHost: "@ + host
            + "\r\nUpgrade: websocket\r\nConnection: Upgrade\r\nSec-WebSocket-Key: "@ + key
            + "\r\nSec-WebSocket-Version: 13\r\n"@ + ended(as_lines(more)) + "\r\n"@,
    ensures
        split_crlf(text) == seq!["GET "@ + path + " HTTP/1.1"@] + as_lines(
            own_headers(host, key) + more,
        ) + seq![Seq::<char>::empty(), Seq::<char>::empty()],
        make_lines(own_headers(host, key) + more),
{
    let first = "GET "@ + path + " HTTP/1.1"@;
    let own = own_headers(host, key);
    let all = own + more;
    let lines = seq![first] + as_lines(all);
    lemma_own_lines(path, host, key);
    lemma_ended_concat(seq![first] + as_lines(own), as_lines(more));
    assert(seq![first] + as_lines(own) + as_lines(more) =~= lines);
    reveal_strlit("GET ");
    reveal_strlit(" HTTP/1.1");
    reveal_strlit("\r\n");
    let end = "\r\n"@;
    let none = Seq::<char>::empty();
    assert(end =~= none + seq!['\r', '\n'] + none);
    assert(unbroken(none));
    lemma_first_line(none, none);
    assert(split_crlf(none) =~= seq![none]);
    assert(split_crlf(end) =~= seq![none, none]);
    assert(text =~= ended(lines) + end);
    lemma_own_texts();
    assert(unbroken(first));
    assert forall|i: int| 0 <= i < all.len() implies unbroken((#[trigger] all[i]).0) && unbroken(
        all[i].1,
    ) && !all[i].0.contains(':') by {
        if i >= own.len() {
            assert(all[i] == more[i - own.len()]);
        } else {
            assert(all[i] == own[i]);
        }
    }
    assert forall|i: int| 0 <= i < lines.len() implies unbroken(#[trigger] lines[i]) by {
        if i > 0 {
            let h = all[i - 1];
            assert(lines[i] == header_line(h));
            assert(unbroken(h.0) && unbroken(h.1));
        }
    }
    lemma_lines_split(lines, end);
}

/// What the lines of a request say of a header is what its own headers say, then what was
/// added.
proof fn lemma_request_values(
    first: Seq<char>,
    all: Seq<(Seq<char>, Seq<char>)>,
    lines: Seq<Seq<char>>,
    name: Seq<char>,
)
    requires
        make_lines(all),
        lines == seq![first] + as_lines(all) + seq![Seq::<char>::empty(), Seq::<char>::empty()],
    ensures
        values_of(lines.skip(1), name) == values_in(all, name),
{
    let none = Seq::<char>::empty();
    let close = seq![none, none];
    assert(lines.skip(1) =~= as_lines(all) + close);
    lemma_values_concat(as_lines(all), close, name);
    lemma_values_read(all, name);
    assert(close.drop_last().drop_last().len() == 0);
    reveal_with_fuel(values_of, 3);
    assert(values_of(close, name) =~= Seq::<Seq<char>>::empty());
    assert(values_in(all, name) + Seq::<Seq<char>>::empty() =~= values_in(all, name));
}

/// Every request that is built asks for the upgrade, whatever headers are added: split at
/// its line ends, it is a GET of the path in HTTP/1.1, and the lines behind that give one
/// Host, the host; one Upgrade, `websocket`; one Connection, `Upgrade`; one key, the key;
/// and one version, `13`. Any other header has the values that were given for it, in their
/// order. One empty line ends the request.
pub proof fn lemma_request_asks_for_upgrade(
    host: Seq<char>,
    path: Seq<char>,
    key: Seq<char>,
    headers: Seq<(Seq<char>, Seq<char>)>,
    name: Seq<char>,
)
    requires
        unbroken(host),
        unbroken(path),
        unbroken(key),
        request_of(host, path, key, headers) is Ok,
    ensures
        ({
            let lines = split_crlf(request_of(host, path, key, headers)->Ok_0);
            let n = lines.len();
            let head = lines.skip(1);
            &&& n >= 8
            &&& lines[0] == "GET "@ + path + " HTTP/1.1"@
            &&& values_of(head, "host"@) == seq![trimmed(host)]
            &&& values_of(head, "upgrade"@) == seq!["websocket"@]
            &&& values_of(head, "connection"@) == seq!["Upgrade"@]
            &&& values_of(head, "sec-websocket-key"@) == seq![trimmed(key)]
            &&& values_of(head, "sec-websocket-version"@) == seq!["13"@]
            &&& !reserved(name) ==> values_of(head, name) == values_in(headers, name)
            &&& lines[n - 1].len() == 0 && lines[n - 2].len() == 0
            &&& forall|i: int| 0 <= i < n - 2 ==> (#[trigger] lines[i]).len() > 0
        }),
{
    let text = request_of(host, path, key, headers)->Ok_0;
    let lines = split_crlf(text);
    let first = "GET "@ + path + " HTTP/1.1"@;
    let more = added(headers);
    let own = own_headers(host, key);
    lemma_extra_lines(headers);
    lemma_request_parts(path, host, key, more, text);
    lemma_request_value(host, key, headers, first, lines, "host"@);
    lemma_request_value(host, key, headers, first, lines, "upgrade"@);
    lemma_request_value(host, key, headers, first, lines, "connection"@);
    lemma_request_value(host, key, headers, first, lines, "sec-websocket-key"@);
    lemma_request_value(host, key, headers, first, lines, "sec-websocket-version"@);
    lemma_request_value(host, key, headers, first, lines, name);
    lemma_own_trimmed();
    reveal_strlit("GET ");
    let h = as_lines(own + more);
    assert forall|i: int| 0 <= i < lines.len() - 2 implies (#[trigger] lines[i]).len() > 0 by {
        if i > 0 {
            assert(lines[i] == h[i - 1]);
            assert(h[i - 1] == header_line((own + more)[i - 1]));
        } else {
            assert(lines[0] == first);
        }
    }
}

proof fn lemma_request_value(
    host: Seq<char>,
    key: Seq<char>,
    headers: Seq<(Seq<char>, Seq<char>)>,
    first: Seq<char>,
    lines: Seq<Seq<char>>,
    name: Seq<char>,
)
    requires
        make_lines(own_headers(host, key) + added(headers)),
        lines == seq![first] + as_lines(own_headers(host, key) + added(headers)) + seq![
            Seq::<char>::empty(),
            Seq::<char>::empty(),
        ],
    ensures
        reserved(name) ==> values_of(lines.skip(1), name) == values_in(
            own_headers(host, key),
            name,
        ),
        !reserved(name) ==> values_of(lines.skip(1), name) == values_in(headers, name),
        lower(name) == lower("host"@) ==> values_of(lines.skip(1), name) == seq![trimmed(host)],
        lower(name) == lower("upgrade"@) ==> values_of(lines.skip(1), name) == seq![
            trimmed("websocket"@),
        ],
        lower(name) == lower("connection"@) ==> values_of(lines.skip(1), name) == seq![
            trimmed("Upgrade"@),
        ],
        lower(name) == lower("sec-websocket-key"@) ==> values_of(lines.skip(1), name) == seq![
            trimmed(key),
        ],
        lower(name) == lower("sec-websocket-version"@) ==> values_of(lines.skip(1), name) == seq![
            trimmed("13"@),
        ],
{
    let own = own_headers(host, key);
    let more = added(headers);
    lemma_request_values(first, own + more, lines, name);
    lemma_values_in_concat(own, more, name);
    lemma_added_values(headers, name);
    lemma_own_values(host, key, name);
    let none = Seq::<Seq<char>>::empty();
    if reserved(name) {
        assert(values_in(more, name) =~= none);
        assert(values_in(own, name) + none =~= values_in(own, name));
    } else {
        assert(values_in(own, name) =~= none);
        assert(none + values_in(more, name) =~= values_in(more, name));
    }
}

/// The lines of the transport's request: the same, but for what is added. There only a Host
/// header is left out, and the others stand behind the request's own.
pub proof fn lemma_transport_request(
    path: Seq<char>,
    host: Seq<char>,
    key: Seq<char>,
    headers: Seq<(Seq<char>, Seq<char>)>,
    name: Seq<char>,
)
    requires
        unbroken(host),
        unbroken(path),
        unbroken(key),
        make_lines(headers),
    ensures
        ({
            let lines = split_crlf(request_text(path, host, key, headers));
            let n = lines.len();
            let head = lines.skip(1);
            &&& n >= 8
            &&& lines[0] == "GET "@ + path + " HTTP/1.1"@
            &&& values_of(head, "host"@) == seq![trimmed(host)]
            &&& values_of(head, "upgrade"@) == seq!["websocket"@] + values_in(
                headers,
                "upgrade"@,
            )
            &&& values_of(head, "connection"@) == seq!["Upgrade"@] + values_in(
                headers,
                "connection"@,
            )
            &&& values_of(head, "sec-websocket-key"@) == seq![trimmed(key)] + values_in(
                headers,
                "sec-websocket-key"@,
            )
            &&& values_of(head, "sec-websocket-version"@) == seq!["13"@] + values_in(
                headers,
                "sec-websocket-version"@,
            )
            &&& !reserved(name) ==> values_of(head, name) == values_in(headers, name)
            &&& lines[n - 1].len() == 0 && lines[n - 2].len() == 0
            &&& forall|i: int| 0 <= i < n - 2 ==> (#[trigger] lines[i]).len() > 0
        }),
{
    let text = request_text(path, host, key, headers);
    let lines = split_crlf(text);
    let first = "GET "@ + path + " HTTP/1.1"@;
    let more = without_host(headers);
    let own = own_headers(host, key);
    lemma_header_lines(headers);
    lemma_request_parts(path, host, key, more, text);
    lemma_transport_value(host, key, headers, first, lines, "host"@);
    lemma_transport_value(host, key, headers, first, lines, "upgrade"@);
    lemma_transport_value(host, key, headers, first, lines, "connection"@);
    lemma_transport_value(host, key, headers, first, lines, "sec-websocket-key"@);
    lemma_transport_value(host, key, headers, first, lines, "sec-websocket-version"@);
    lemma_transport_value(host, key, headers, first, lines, name);
    lemma_own_trimmed();
    lemma_own_texts();
    assert(lower("host"@).len() == 4);
    assert(lower("upgrade"@).len() == 7);
    assert(lower("connection"@).len() == 10);
    assert(lower("sec-websocket-key"@).len() == 17);
    assert(lower("sec-websocket-version"@).len() == 21);
    reveal_strlit("GET ");
    let h = as_lines(own + more);
    assert forall|i: int| 0 <= i < lines.len() - 2 implies (#[trigger] lines[i]).len() > 0 by {
        if i > 0 {
            assert(lines[i] == h[i - 1]);
            assert(h[i - 1] == header_line((own + more)[i - 1]));
        } else {
            assert(lines[0] == first);
        }
    }
}

/// Headers without those named Host.
spec fn without_host(headers: Seq<(Seq<char>, Seq<char>)>) -> Seq<(Seq<char>, Seq<char>)>
    decreases headers.len(),
{
    if headers.len() == 0 {
        Seq::empty()
    } else {
        let before = without_host(headers.drop_last());
        if lower(headers.last().0) == lower("host"@) {
            before
        } else {
            before.push(headers.last())
        }
    }
}

proof fn lemma_header_lines(headers: Seq<(Seq<char>, Seq<char>)>)
    requires
        make_lines(headers),
    ensures
        header_lines(headers) == ended(as_lines(without_host(headers))),
        make_lines(without_host(headers)),
    decreases headers.len(),
{
    if headers.len() == 0 {
        assert(as_lines(without_host(headers)).len() == 0);
    } else {
        let before = headers.drop_last();
        let (name, value) = headers.last();
        assert forall|i: int| 0 <= i < before.len() implies unbroken((#[trigger] before[i]).0)
            && unbroken(before[i].1) && !before[i].0.contains(':') by {
            assert(before[i] == headers[i]);
        }
        lemma_header_lines(before);
        if lower(name) != lower("host"@) {
            let more = without_host(headers);
            assert(as_lines(more).drop_last() =~= as_lines(without_host(before)));
            assert(as_lines(more).last() == header_line((name, value)));
            reveal_strlit(": ");
            reveal_strlit("\r\n");
            assert(": "@ =~= seq![':', ' ']);
            assert("\r\n"@ =~= seq!['\r', '\n']);
            assert(header_lines(headers) =~= ended(as_lines(more)));
            let last = headers[headers.len() - 1];
            assert(unbroken(last.0) && unbroken(last.1) && !last.0.contains(':'));
            assert forall|i: int| 0 <= i < more.len() implies unbroken((#[trigger] more[i]).0)
                && unbroken(more[i].1) && !more[i].0.contains(':') by {
                if i < without_host(before).len() {
                    assert(more[i] == without_host(before)[i]);
                }
            }
        }
    }
}

proof fn lemma_without_host_values(headers: Seq<(Seq<char>, Seq<char>)>, name: Seq<char>)
    ensures
        lower(name) == lower("host"@) ==> values_in(without_host(headers), name).len() == 0,
        lower(name) != lower("host"@) ==> values_in(without_host(headers), name) == values_in(
            headers,
            name,
        ),
    decreases headers.len(),
{
    if headers.len() > 0 {
        let before = headers.drop_last();
        lemma_without_host_values(before, name);
        if lower(headers.last().0) != lower("host"@) {
            assert(without_host(headers).drop_last() =~= without_host(before));
            assert(without_host(headers).last() == headers.last());
        }
    }
}

proof fn lemma_transport_value(
    host: Seq<char>,
    key: Seq<char>,
    headers: Seq<(Seq<char>, Seq<char>)>,
    first: Seq<char>,
    lines: Seq<Seq<char>>,
    name: Seq<char>,
)
    requires
        make_lines(own_headers(host, key) + without_host(headers)),
        lines == seq![first] + as_lines(own_headers(host, key) + without_host(headers)) + seq![
            Seq::<char>::empty(),
            Seq::<char>::empty(),
        ],
    ensures
        !reserved(name) ==> values_of(lines.skip(1), name) == values_in(headers, name),
        lower(name) == lower("host"@) ==> values_of(lines.skip(1), name) == seq![trimmed(host)],
        lower(name) != lower("host"@) ==> values_of(lines.skip(1), name) == values_in(
            own_headers(host, key),
            name,
        ) + values_in(headers, name),
        lower(name) == lower("upgrade"@) ==> values_in(own_headers(host, key), name) == seq![
            trimmed("websocket"@),
        ],
        lower(name) == lower("connection"@) ==> values_in(own_headers(host, key), name) == seq![
            trimmed("Upgrade"@),
        ],
        lower(name) == lower("sec-websocket-key"@) ==> values_in(own_headers(host, key), name)
            == seq![trimmed(key)],
        lower(name) == lower("sec-websocket-version"@) ==> values_in(own_headers(host, key), name)
            == seq![trimmed("13"@)],
{
    let own = own_headers(host, key);
    let more = without_host(headers);
    lemma_request_values(first, own + more, lines, name);
    lemma_values_in_concat(own, more, name);
    lemma_without_host_values(headers, name);
    lemma_own_values(host, key, name);
    let none = Seq::<Seq<char>>::empty();
    if lower(name) == lower("host"@) {
        assert(values_in(more, name) =~= none);
        assert(values_in(own, name) + none =~= values_in(own, name));
    } else if !reserved(name) {
        assert(values_in(own, name) =~= none);
        assert(none + values_in(more, name) =~= values_in(more, name));
    }
}

// ---------------------------------------------------------------------------
// The response
// ---------------------------------------------------------------------------

proof fn lemma_response_lengths()
    ensures
        lower("upgrade"@) != lower("connection"@),
        lower("upgrade"@) != lower("sec-websocket-accept"@),
        lower("connection"@) != lower("sec-websocket-accept"@),
{
    reveal_strlit("upgrade");
    reveal_strlit("connection");
    reveal_strlit("sec-websocket-accept");
    assert(lower("upgrade"@).len() == 7);
    assert(lower("connection"@).len() == 10);
    assert(lower("sec-websocket-accept"@).len() == 20);
}

/// What header lines have said is what the last value of each header says: an Upgrade of
/// `websocket`, a Connection with `upgrade` among its parts, and the expected accept value.
pub proof fn lemma_lines_seen(all: Seq<Seq<char>>, expected: Seq<char>, n: int)
    requires
        0 <= n <= all.len(),
    ensures
        ({
            let seen = after_lines(all, expected, n);
            let upgrade = values_of(all.take(n), "upgrade"@);
            let connection = values_of(all.take(n), "connection"@);
            let accept = values_of(all.take(n), "sec-websocket-accept"@);
            &&& seen.upgrade <==> upgrade.len() > 0 && lower(upgrade.last()) == lower(
                "websocket"@,
            )
            &&& seen.connection <==> connection.len() > 0 && asks_upgrade(
                split_on(connection.last(), ','),
            )
            &&& seen.accept <==> accept.len() > 0 && accept.last() == expected
        }),
    decreases n,
{
    if n > 0 {
        lemma_lines_seen(all, expected, n - 1);
        lemma_response_lengths();
        assert(all.take(n).drop_last() =~= all.take(n - 1));
        assert(all.take(n).last() == all[n - 1]);
    }
}

/// A request that is built is seen to ask for the upgrade by the reader of responses' header
/// lines as well.
pub proof fn lemma_request_is_seen(
    host: Seq<char>,
    path: Seq<char>,
    key: Seq<char>,
    headers: Seq<(Seq<char>, Seq<char>)>,
    expected: Seq<char>,
)
    requires
        unbroken(host),
        unbroken(path),
        unbroken(key),
        request_of(host, path, key, headers) is Ok,
    ensures
        ({
            let head = split_crlf(request_of(host, path, key, headers)->Ok_0).skip(1);
            let seen = after_lines(head, expected, head.len() as int);
            seen.upgrade && seen.connection
        }),
{
    let head = split_crlf(request_of(host, path, key, headers)->Ok_0).skip(1);
    lemma_request_asks_for_upgrade(host, path, key, headers, ""@);
    lemma_lines_seen(head, expected, head.len() as int);
    assert(head.take(head.len() as int) =~= head);
    lemma_own_trimmed();
}

/// A response completes the handshake exactly where it is text, its status is 101, and the
/// last of its Upgrade, Connection and accept headers say `websocket`, `upgrade` and the
/// value for the key.
pub proof fn lemma_response_accepted(response: Seq<u8>, key: Seq<char>)
    requires
        key_fault(key) is None,
    ensures
        ({
            let lines = split_crlf(decode_utf8(response));
            let head = lines.skip(1);
            let upgrade = values_of(head, "upgrade"@);
            let connection = values_of(head, "connection"@);
            let accept = values_of(head, "sec-websocket-accept"@);
            response_fault(response, key) is None <==> {
                &&& valid_utf8(response)
                &&& second_word(lines[0]) == Some("101"@)
                &&& upgrade.len() > 0 && lower(upgrade.last()) == lower("websocket"@)
                &&& connection.len() > 0 && asks_upgrade(split_on(connection.last(), ','))
                &&& accept.len() > 0 && accept.last() == accept_of(key)
            }
        }),
{
    let lines = split_crlf(decode_utf8(response));
    let head = lines.skip(1);
    assert(lines.len() >= 1);
    lemma_lines_seen(head, accept_of(key), head.len() as int);
    assert(head.take(head.len() as int) =~= head);
}

/// What a server answers to a request, with any headers of its own that are none of the
/// three, completes the handshake; with another status, or with the accept value of another
/// key, it does not.
pub proof fn lemma_answer_completes(
    status: Seq<char>,
    others: Seq<(Seq<char>, Seq<char>)>,
    key: Seq<char>,
    response: Seq<u8>,
    accept: Seq<char>,
)
    requires
        key_fault(key) is None,
        unbroken(status),
        unbroken(accept),
        trimmed(accept) == accept,
        make_lines(others),
        forall|i: int|
            0 <= i < others.len() ==> {
                &&& lower((#[trigger] others[i]).0) != lower("upgrade"@)
                &&& lower(others[i].0) != lower("connection"@)
                &&& lower(others[i].0) != lower("sec-websocket-accept"@)
            },
        valid_utf8(response),
        decode_utf8(response) == ended(
            seq![status] + as_lines(
                seq![
                    ("Upgrade"@, "websocket"@),
                    ("Connection"@, "Upgrade"@),
                    ("Sec-WebSocket-Accept"@, accept),
                ] + others,
            ),
        ) + "\r\n"@,
    ensures
        response_fault(response, key) is None <==> second_word(status) == Some("101"@) && accept
            == accept_of(key),
{
    let three = seq![
        ("Upgrade"@, "websocket"@),
        ("Connection"@, "Upgrade"@),
        ("Sec-WebSocket-Accept"@, accept),
    ];
    let all = three + others;
    let lines = seq![status] + as_lines(all);
    let none = Seq::<char>::empty();
    lemma_own_texts();
    lemma_accept_name();
    reveal_strlit("\r\n");
    let end = "\r\n"@;
    assert(end =~= none + seq!['\r', '\n'] + none);
    lemma_first_line(none, none);
    assert(split_crlf(none) =~= seq![none]);
    assert(split_crlf(end) =~= seq![none, none]);
    assert forall|i: int| 0 <= i < all.len() implies unbroken((#[trigger] all[i]).0) && unbroken(
        all[i].1,
    ) && !all[i].0.contains(':') by {
        if i >= 3 {
            assert(all[i] == others[i - 3]);
        } else {
            assert(all[i] == three[i]);
        }
    }
    assert forall|i: int| 0 <= i < lines.len() implies unbroken(#[trigger] lines[i]) by {
        if i > 0 {
            let h = all[i - 1];
            assert(lines[i] == header_line(h));
            assert(unbroken(h.0) && unbroken(h.1));
        }
    }
    lemma_lines_split(lines, end);
    let read = split_crlf(decode_utf8(response));
    assert(read =~= seq![status] + as_lines(all) + seq![none, none]);
    lemma_request_values(status, all, read, "upgrade"@);
    lemma_request_values(status, all, read, "connection"@);
    lemma_request_values(status, all, read, "sec-websocket-accept"@);
    lemma_values_in_concat(three, others, "upgrade"@);
    lemma_values_in_concat(three, others, "connection"@);
    lemma_values_in_concat(three, others, "sec-websocket-accept"@);
    lemma_no_values(others, "upgrade"@);
    lemma_no_values(others, "connection"@);
    lemma_no_values(others, "sec-websocket-accept"@);
    lemma_three_values(accept);
    lemma_own_trimmed();
    lemma_response_accepted(response, key);
    let nothing = Seq::<Seq<char>>::empty();
    assert(values_in(three, "upgrade"@) + nothing =~= seq!["websocket"@]);
    assert(values_in(three, "connection"@) + nothing =~= seq!["Upgrade"@]);
    assert(values_in(three, "sec-websocket-accept"@) + nothing =~= seq![accept]);
    assert(read[0] == status);
}

proof fn lemma_accept_name()
    ensures
        lower("Sec-WebSocket-Accept"@) == lower("sec-websocket-accept"@),
        lower("sec-websocket-accept"@).len() == 20,
        unbroken("Sec-WebSocket-Accept"@),
        !"Sec-WebSocket-Accept"@.contains(':'),
{
    reveal_strlit("Sec-WebSocket-Accept");
    reveal_strlit("sec-websocket-accept");
    assert(lower("Sec-WebSocket-Accept"@) =~= lower("sec-websocket-accept"@));
}

proof fn lemma_three_values(accept: Seq<char>)
    ensures
        ({
            let three = seq![
                ("Upgrade"@, "websocket"@),
                ("Connection"@, "Upgrade"@),
                ("Sec-WebSocket-Accept"@, accept),
            ];
            &&& values_in(three, "upgrade"@) == seq![trimmed("websocket"@)]
            &&& values_in(three, "connection"@) == seq![trimmed("Upgrade"@)]
            &&& values_in(three, "sec-websocket-accept"@) == seq![trimmed(accept)]
        }),
{
    lemma_own_texts();
    lemma_accept_name();
    lemma_response_lengths();
    let h3 = seq![
        ("Upgrade"@, "websocket"@),
        ("Connection"@, "Upgrade"@),
        ("Sec-WebSocket-Accept"@, accept),
    ];
    let h2 = h3.drop_last();
    let h1 = h2.drop_last();
    let h0 = h1.drop_last();
    assert(h0.len() == 0);
    assert(h1.last() == ("Upgrade"@, "websocket"@));
    assert(h2.last() == ("Connection"@, "Upgrade"@));
    assert(h3.last() == ("Sec-WebSocket-Accept"@, accept));
    reveal_with_fuel(values_in, 4);
    assert(values_in(h3, "upgrade"@) =~= seq![trimmed("websocket"@)]);
    assert(values_in(h3, "connection"@) =~= seq![trimmed("Upgrade"@)]);
    assert(values_in(h3, "sec-websocket-accept"@) =~= seq![trimmed(accept)]);
}

proof fn lemma_no_values(headers: Seq<(Seq<char>, Seq<char>)>, name: Seq<char>)
    requires
        forall|i: int| 0 <= i < headers.len() ==> lower((#[trigger] headers[i]).0) != lower(name),
    ensures
        values_in(headers, name) == Seq::<Seq<char>>::empty(),
    decreases headers.len(),
{
    if headers.len() > 0 {
        let before = headers.drop_last();
        assert(lower(headers[headers.len() - 1].0) != lower(name));
        assert forall|i: int| 0 <= i < before.len() implies lower((#[trigger] before[i]).0)
            != lower(name) by {
            assert(before[i] == headers[i]);
        }
        lemma_no_values(before, name);
    }
}

// ---------------------------------------------------------------------------
// The transport's response and path
// ---------------------------------------------------------------------------

/// The transport takes a response exactly where its head is closed, its status is 101 of
/// HTTP/1.1, and one of its lines gives the accept value for the key.
pub proof fn lemma_transport_response(head: Seq<u8>, key: Seq<char>)
    ensures
        websocket::response_fault(head, key) is None <==> {
            let text = lossy_text(head);
            &&& head.len() >= 4 && head.skip(head.len() - 4) == seq![13u8, 10u8, 13u8, 10u8]
            &&& "HTTP/1.1 101"@.is_prefix_of(text)
            &&& exists|i: int|
                0 <= i < lines_of(text).len() && websocket::accepts(
                    #[trigger] lines_of(text)[i],
                    accept_of(key),
                )
        },
{
    let text = lossy_text(head);
    let start = "HTTP/1.1 101"@;
    if start.is_prefix_of(text) {
        assert(text.subrange(0, start.len() as int) =~= start);
    }
    if start.len() <= text.len() && text.subrange(0, start.len() as int) == start {
        assert(start.is_prefix_of(text));
    }
}

/// A line gives an accept value where it is the accept header with that value, the case of
/// its name and the space around the value aside.
pub proof fn lemma_accept_line(name: Seq<char>, value: Seq<char>, expected: Seq<char>)
    requires
        lower(name) == lower("sec-websocket-accept"@),
        !value.contains(':'),
    ensures
        websocket::accepts(name + seq![':'] + value, expected) <==> trimmed(value) == expected,
{
    let line = name + seq![':'] + value;
    let n = name.len() as int;
    reveal_strlit("sec-websocket-accept");
    reveal_strlit("sec-websocket-accept:");
    let bare = "sec-websocket-accept"@;
    let full = "sec-websocket-accept:"@;
    assert(lower(name).len() == 20 && lower(bare).len() == 20);
    assert(full =~= bare.push(':'));
    assert forall|i: int| 0 <= i < 20 implies lower_char(#[trigger] name[i]) == bare[i] by {
        assert(lower(name)[i] == lower(bare)[i]);
        assert(lower(name)[i] == lower_char(name[i]));
        assert(lower_char(bare[i]) == bare[i]);
    }
    assert(websocket::starts_ignoring_case(line, full)) by {
        assert forall|i: int| 0 <= i < full.len() implies websocket::lowers_to(
            #[trigger] line[i],
            full[i],
        ) by {
            if i < 20 {
                assert(line[i] == name[i]);
            }
        }
    }
    assert(!name.contains(':')) by {
        if name.contains(':') {
            let i = choose|i: int| 0 <= i < name.len() && name[i] == ':';
            assert(lower_char(name[i]) == bare[i]);
        }
    }
    lemma_colon_split(name, value);
}

proof fn lemma_colon_split(name: Seq<char>, value: Seq<char>)
    requires
        !name.contains(':'),
        !value.contains(':'),
    ensures
        split_on(name + seq![':'] + value, ':') == seq![name, value],
{
    let s = name + seq![':'] + value;
    let n = name.len() as int;
    lemma_index_from(s, ':', 0);
    let i = index_from(s, ':', 0);
    assert(s[n] == ':');
    if i < n {
        assert(s[i] == name[i]);
        assert(name.contains(name[i]));
    }
    assert(s.take(n) =~= name);
    assert(s.skip(n + 1) =~= value);
    lemma_index_from(value, ':', 0);
    let k = index_from(value, ':', 0);
    if k < value.len() {
        assert(value.contains(value[k]));
    }
    assert(split_on(value, ':') == seq![value]);
    assert(seq![name] + seq![value] =~= seq![name, value]);
}

/// Early data goes into the query of the path as far as the settings allow, and comes back
/// out of it whole. Without any, and where none is allowed, the path is as it was set.
pub proof fn lemma_early_data(c: &WebSocketConfig, data: Seq<u8>)
    ensures
        data.len() == 0 || c.max_early_data == 0 ==> early_path(c, data) == c.path@,
        data.len() > 0 && c.max_early_data > 0 ==> {
            let sent = if data.len() <= c.max_early_data {
                data
            } else {
                data.take(c.max_early_data as int)
            };
            let start = c.path@ + "?"@ + (match c.early_data_header {
                Some(n) => n@,
                None => "ed"@,
            }) + "="@;
            &&& start.is_prefix_of(early_path(c, data))
            &&& base64_bytes(early_path(c, data).skip(start.len() as int)) == Some(sent)
        },
{
    if data.len() > 0 && c.max_early_data > 0 {
        let sent = if data.len() <= c.max_early_data {
            data
        } else {
            data.take(c.max_early_data as int)
        };
        let start = c.path@ + "?"@ + (match c.early_data_header {
            Some(n) => n@,
            None => "ed"@,
        }) + "="@;
        lemma_base64_round_trip(sent);
        assert(early_path(c, data) =~= start + base64_of(sent));
        assert((start + base64_of(sent)).skip(start.len() as int) =~= base64_of(sent));
    }
}

} // verus!
