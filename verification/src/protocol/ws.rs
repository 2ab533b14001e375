//! WebSocket connections of the engine: the opening handshake of a client, and the glue
//! between messages and a byte stream.

use crate::crypto::{base64_bytes, base64_of};
use crate::protocol::transport::websocket::{accept_of, head_closed, headers_view};
use crate::text::{
    chars_of, concat, find, index_from, has_second_word, lower, owned, pieces_view, same_chars,
    same_ignoring_case, second_word, split, split_at_crlf, split_crlf, split_on, string_of, trim,
    trimmed, utf8_string,
};
use crate::wire::{copy_range, drop_front};
use courierust::courierust_ws::handshake;
use vstd::prelude::*;
use vstd::slice::{slice_subrange, slice_to_vec};
use vstd::string::*;
use vstd::utf8::{decode_utf8, encode_utf8, valid_utf8};

verus! {

/// The largest message accepted from the peer.
pub const MAX_MESSAGE: usize = 16777216;

/// The largest handshake response.
pub const MAX_HANDSHAKE_RESPONSE: usize = 16384;

/// Kinds of I/O errors.
#[derive(Debug, Clone, Copy, PartialEq, Eq, Structural)]
pub enum IoKind {
    InvalidInput,
    InvalidData,
    UnexpectedEof,
    WouldBlock,
    TimedOut,
    Interrupted,
    Other,
}

/// An I/O error: its kind and its text.
#[derive(Debug)]
pub struct WsError {
    pub kind: IoKind,
    pub text: String,
}

/// Result of a WebSocket operation.
pub type Result<T> = core::result::Result<T, WsError>;

/// An error as a mathematical value.
#[verifier::ext_equal]
pub struct WsFault {
    pub kind: IoKind,
    pub text: Seq<char>,
}

impl View for WsError {
    type V = WsFault;

    open spec fn view(&self) -> WsFault {
        WsFault { kind: self.kind, text: self.text@ }
    }
}

pub open spec fn fault(kind: IoKind, text: Seq<char>) -> WsFault {
    WsFault { kind, text }
}

fn error(kind: IoKind, text: &str) -> (e: WsError)
    ensures
        e@ == fault(kind, text@),
{
    WsError { kind, text: owned(text) }
}

/// A message received from the peer.
#[derive(Debug)]
pub enum Message {
    /// A text message.
    Text(String),
    /// A binary message.
    Binary(Vec<u8>),
    /// The peer's closing frame.
    Close,
}

// ---------------------------------------------------------------------------
// Error kinds
// ---------------------------------------------------------------------------

/// Kinds of errors of a WebSocket session.
#[derive(Debug, Clone, Copy, PartialEq, Eq, Structural)]
pub enum SessionKind {
    Io,
    UnexpectedEof,
    Protocol,
    InvalidHeader,
    Overflow,
    Timeout,
    WouldBlock,
    Canceled,
    Other,
}

/// The session's kind for a transport error: idle and dead peers stay distinct.
pub fn transport_kind(kind: IoKind) -> (r: SessionKind)
    ensures
        r == match kind {
            IoKind::WouldBlock => SessionKind::WouldBlock,
            IoKind::TimedOut => SessionKind::Timeout,
            IoKind::UnexpectedEof => SessionKind::UnexpectedEof,
            _ => SessionKind::Io,
        },
{
    match kind {
        IoKind::WouldBlock => SessionKind::WouldBlock,
        IoKind::TimedOut => SessionKind::Timeout,
        IoKind::UnexpectedEof => SessionKind::UnexpectedEof,
        _ => SessionKind::Io,
    }
}

pub open spec fn session_kind_of(kind: SessionKind) -> IoKind {
    match kind {
        SessionKind::WouldBlock => IoKind::WouldBlock,
        SessionKind::Timeout => IoKind::TimedOut,
        SessionKind::UnexpectedEof => IoKind::UnexpectedEof,
        SessionKind::Protocol | SessionKind::InvalidHeader | SessionKind::Overflow => {
            IoKind::InvalidData
        },
        SessionKind::Canceled => IoKind::Interrupted,
        SessionKind::Io | SessionKind::Other => IoKind::Other,
    }
}

/// The I/O error for a session error with a text. The end of the stream has none.
pub fn session_error(kind: SessionKind, text: &str) -> (e: WsError)
    ensures
        e@ == fault(
            session_kind_of(kind),
            if kind == SessionKind::UnexpectedEof {
                ""@
            } else {
                text@
            },
        ),
{
    match kind {
        SessionKind::WouldBlock => error(IoKind::WouldBlock, text),
        SessionKind::Timeout => error(IoKind::TimedOut, text),
        SessionKind::UnexpectedEof => error(IoKind::UnexpectedEof, ""),
        SessionKind::Protocol => error(IoKind::InvalidData, text),
        SessionKind::InvalidHeader => error(IoKind::InvalidData, text),
        SessionKind::Overflow => error(IoKind::InvalidData, text),
        SessionKind::Canceled => error(IoKind::Interrupted, text),
        SessionKind::Io => error(IoKind::Other, text),
        SessionKind::Other => error(IoKind::Other, text),
    }
}

// ---------------------------------------------------------------------------
// The request
// ---------------------------------------------------------------------------

/// Whether a byte string holds no white space and no control byte.
pub open spec fn printable(s: Seq<u8>) -> bool {
    forall|i: int| 0 <= i < s.len() ==> (#[trigger] s[i]) > 0x20 && s[i] != 0x7f
}

fn is_printable(s: &[u8]) -> (r: bool)
    ensures
        r == printable(s@),
{
    let mut i: usize = 0;
    while i < s.len()
        invariant
            i <= s.len(),
            forall|j: int| 0 <= j < i ==> (#[trigger] s@[j]) > 0x20 && s@[j] != 0x7f,
        decreases s.len() - i,
    {
        if s[i] <= 0x20 || s[i] == 0x7f {
            return false;
        }
        i = i + 1;
    }
    true
}

pub open spec fn host_ok(host: Seq<char>) -> bool {
    host.len() > 0 && printable(encode_utf8(host))
}

pub open spec fn path_ok(path: Seq<char>) -> bool {
    path.len() > 0 && path[0] == '/' && printable(encode_utf8(path))
}

/// Check the value of the Host header.
pub fn validate_host(host: &str) -> (r: Result<()>)
    ensures
        host_ok(host@) ==> r is Ok,
        !host_ok(host@) ==> r is Err && r->Err_0@ == fault(
            IoKind::InvalidInput,
            "websocket: illegal Host value"@,
        ),
{
    proof {
        crate::protocol::tls13::fingerprint::lemma_empty_text(host@);
    }
    if host.as_bytes().len() == 0 || !is_printable(host.as_bytes()) {
        return Err(error(IoKind::InvalidInput, "websocket: illegal Host value"));
    }
    Ok(())
}

pub open spec fn bad_path() -> WsFault {
    fault(
        IoKind::InvalidInput,
        "websocket: the request path must start with '/' and hold no control byte"@,
    )
}

/// Check the request target.
pub fn validate_path(path: &str) -> (r: Result<()>)
    ensures
        path_ok(path@) ==> r is Ok,
        !path_ok(path@) ==> r is Err && r->Err_0@ == bad_path(),
{
    let chars = chars_of(path);
    if chars.len() == 0 || chars[0] != '/' || !is_printable(path.as_bytes()) {
        return Err(
            error(
                IoKind::InvalidInput,
                "websocket: the request path must start with '/' and hold no control byte",
            ),
        );
    }
    Ok(())
}

/// `courierust_ws::handshake::generate_key`: sixteen random bytes in base64, or the text
/// of the error where the platform has none.
#[verifier::external_body]
pub(crate) fn random_key() -> (r: core::result::Result<String, String>)
    ensures
        r is Ok ==> exists|k: Seq<u8>| k.len() == 16 && r->Ok_0@ == #[trigger] base64_of(k),
{
    handshake::generate_key().map_err(|e| e.to_string())
}

/// Whether a byte may stand in a header name.
pub open spec fn token_byte(b: u8) -> bool {
    ||| 0x30 <= b <= 0x39
    ||| 0x41 <= b <= 0x5a
    ||| 0x61 <= b <= 0x7a
    ||| b == 0x21
    ||| 0x23 <= b <= 0x27
    ||| b == 0x2a
    ||| b == 0x2b
    ||| b == 0x2d
    ||| b == 0x2e
    ||| 0x5e <= b <= 0x60
    ||| b == 0x7c
    ||| b == 0x7e
}

/// Whether a text is a header name.
pub open spec fn token(s: Seq<u8>) -> bool {
    s.len() > 0 && forall|i: int| 0 <= i < s.len() ==> token_byte(#[trigger] s[i])
}

/// `courierust_ws::handshake::is_token`: whether a text is not empty and holds only the
/// bytes that a header name may hold.
#[verifier::external_body]
fn is_token(s: &str) -> (r: bool)
    ensures
        r == token(encode_utf8(s@)),
{
    handshake::is_token(s)
}

/// A text in quotes, as a debugging print shows it.
pub uninterp spec fn quoted_text(s: Seq<char>) -> Seq<char>;

/// The `Debug` form of `str`: the text in quotes, with escapes.
#[verifier::external_body]
fn quoted(s: &str) -> (r: String)
    ensures
        r@ == quoted_text(s@),
{
    format!("{s:?}")
}

/// Whether a header is one of the handshake's own.
pub open spec fn reserved(name: Seq<char>) -> bool {
    ||| lower(name) == lower("host"@)
    ||| lower(name) == lower("upgrade"@)
    ||| lower(name) == lower("connection"@)
    ||| lower(name) == lower("sec-websocket-key"@)
    ||| lower(name) == lower("sec-websocket-version"@)
}

/// Whether a header value could end its line.
pub open spec fn breaks_line(s: Seq<u8>) -> bool {
    exists|i: int| 0 <= i < s.len() && ((#[trigger] s[i]) == 13 || s[i] == 10 || s[i] == 0)
}

fn holds_break(s: &[u8]) -> (r: bool)
    ensures
        r == breaks_line(s@),
{
    let mut i: usize = 0;
    while i < s.len()
        invariant
            i <= s.len(),
            forall|j: int| 0 <= j < i ==> !((#[trigger] s@[j]) == 13 || s@[j] == 10 || s@[j] == 0),
        decreases s.len() - i,
    {
        if s[i] == 13 || s[i] == 10 || s[i] == 0 {
            return true;
        }
        i = i + 1;
    }
    false
}

/// The extra header lines of the request, or the first header that is illegal. Headers
/// of the handshake's own are left out.
pub open spec fn extra_lines(headers: Seq<(Seq<char>, Seq<char>)>) -> core::result::Result<
    Seq<char>,
    WsFault,
>
    decreases headers.len(),
{
    if headers.len() == 0 {
        Ok(Seq::empty())
    } else {
        let (name, value) = headers.last();
        match extra_lines(headers.drop_last()) {
            Err(f) => Err(f),
            Ok(before) => if reserved(name) {
                Ok(before)
            } else if !token(encode_utf8(name)) || breaks_line(encode_utf8(value)) {
                Err(
                    fault(
                        IoKind::InvalidInput,
                        "websocket: illegal request header "@ + quoted_text(name),
                    ),
                )
            } else {
                Ok(before + name + ": "@ + value + "\r\n"@)
            },
        }
    }
}

/// The handshake request of a client, or why there is none.
pub open spec fn request_of(
    host: Seq<char>,
    path: Seq<char>,
    key: Seq<char>,
    headers: Seq<(Seq<char>, Seq<char>)>,
) -> core::result::Result<Seq<char>, WsFault> {
    match extra_lines(headers) {
        Err(f) => Err(f),
        Ok(extra) => Ok(
            "GET "@ + path + " HTTP/1.1\r\nHost: "@ + host
                + "\r\nUpgrade: websocket\r\nConnection: Upgrade\r\nSec-WebSocket-Key: "@ + key
                + "\r\nSec-WebSocket-Version: 13\r\n"@ + extra + "\r\n"@,
        ),
    }
}

proof fn lemma_extra_error(headers: Seq<(Seq<char>, Seq<char>)>, n: int)
    requires
        0 <= n <= headers.len(),
        extra_lines(headers.take(n)) is Err,
    ensures
        extra_lines(headers) == extra_lines(headers.take(n)),
    decreases headers.len(),
{
    if n < headers.len() {
        let shorter = headers.drop_last();
        assert(shorter.take(n) =~= headers.take(n));
        lemma_extra_error(shorter, n);
    } else {
        assert(headers.take(n) =~= headers);
    }
}

/// Build the handshake request. Extra headers are checked and do not replace the
/// handshake's own.
pub fn client_request(host: &str, path: &str, key: &str, headers: &Vec<(String, String)>) -> (r: Result<
    String,
>)
    ensures
        match request_of(host@, path@, key@, headers_view(headers@)) {
            Ok(text) => r is Ok && r->Ok_0@ == text,
            Err(f) => r is Err && r->Err_0@ == f,
        },
{
    let mut r = owned("GET ");
    r.append(path);
    r.append(" HTTP/1.1\r\nHost: ");
    r.append(host);
    r.append("\r\nUpgrade: websocket\r\nConnection: Upgrade\r\nSec-WebSocket-Key: ");
    r.append(key);
    r.append("\r\nSec-WebSocket-Version: 13\r\n");
    let ghost start = r@;
    let ghost all = headers_view(headers@);
    let mut i: usize = 0;
    proof {
        assert(all.take(0) =~= Seq::empty());
        assert(start + Seq::<char>::empty() =~= start);
    }
    while i < headers.len()
        invariant
            i <= headers@.len(),
            all == headers_view(headers@),
            extra_lines(all.take(i as int)) is Ok,
            r@ == start + extra_lines(all.take(i as int))->Ok_0,
        decreases headers@.len() - i,
    {
        proof {
            assert(all.take(i + 1).drop_last() =~= all.take(i as int));
            assert(all.take(i + 1).last() == all[i as int]);
        }
        let name = headers[i].0.as_str();
        let value = headers[i].1.as_str();
        let letters = chars_of(name);
        if !(same_ignoring_case(&letters, "host") || same_ignoring_case(&letters, "upgrade")
            || same_ignoring_case(&letters, "connection") || same_ignoring_case(
            &letters,
            "sec-websocket-key",
        ) || same_ignoring_case(&letters, "sec-websocket-version")) {
            if !is_token(name) || holds_break(value.as_bytes()) {
                let mut m = owned("websocket: illegal request header ");
                m.append(quoted(name).as_str());
                proof {
                    lemma_extra_error(all, i + 1);
                }
                return Err(WsError { kind: IoKind::InvalidInput, text: m });
            }
            r.append(name);
            r.append(": ");
            r.append(value);
            r.append("\r\n");
            proof {
                assert(r@ =~= start + extra_lines(all.take(i + 1))->Ok_0);
            }
        }
        i = i + 1;
    }
    r.append("\r\n");
    proof {
        assert(all.take(i as int) =~= all);
        assert(r@ =~= request_of(host@, path@, key@, all)->Ok_0);
    }
    Ok(r)
}

/// Check the target of a connection and draw its key: what the request is built from.
pub fn prepare(host: &str, path: &str) -> (r: Result<String>)
    ensures
        !host_ok(host@) ==> r is Err && r->Err_0@ == fault(
            IoKind::InvalidInput,
            "websocket: illegal Host value"@,
        ),
        host_ok(host@) && !path_ok(path@) ==> r is Err && r->Err_0@ == bad_path(),
        r is Ok ==> exists|k: Seq<u8>| k.len() == 16 && r->Ok_0@ == #[trigger] base64_of(k),
        host_ok(host@) && path_ok(path@) && r is Err ==> r->Err_0@.kind == IoKind::Other && exists|
            m: Seq<char>,
        |
            r->Err_0@.text == #[trigger] ("websocket: no entropy for the key: "@ + m),
{
    match validate_host(host) {
        Ok(_) => {},
        Err(e) => return Err(e),
    }
    match validate_path(path) {
        Ok(_) => {},
        Err(e) => return Err(e),
    }
    match random_key() {
        Ok(k) => Ok(k),
        Err(cause) => Err(
            WsError {
                kind: IoKind::Other,
                text: concat("websocket: no entropy for the key: ", cause.as_str()),
            },
        ),
    }
}

// ---------------------------------------------------------------------------
// The response
// ---------------------------------------------------------------------------

/// What reading a byte of the response head comes to.
#[derive(Debug)]
pub enum HeadStep {
    /// Read another byte.
    More,
    /// The head is complete.
    Done,
    /// The handshake failed.
    Fail(WsError),
}

/// Take the next byte of the response head, nothing where the peer closed.
pub fn take_head_byte(head: &mut Vec<u8>, byte: Option<u8>) -> (r: HeadStep)
    requires
        old(head)@.len() < MAX_HANDSHAKE_RESPONSE,
    ensures
        match byte {
            None => {
                &&& final(head)@ == old(head)@
                &&& r is Fail
                &&& r->Fail_0@ == fault(
                    IoKind::UnexpectedEof,
                    "websocket: the peer closed during the handshake"@,
                )
            },
            Some(b) => {
                &&& final(head)@ == old(head)@.push(b)
                &&& head_closed(old(head)@.push(b)) ==> r is Done
                &&& !head_closed(old(head)@.push(b)) && old(head)@.len() + 1
                    < MAX_HANDSHAKE_RESPONSE ==> r is More
                &&& !head_closed(old(head)@.push(b)) && old(head)@.len() + 1
                    >= MAX_HANDSHAKE_RESPONSE ==> r is Fail && r->Fail_0@ == fault(
                    IoKind::InvalidData,
                    "websocket: handshake response too large"@,
                )
            },
        },
{
    let b: u8 = match byte {
        None => {
            return HeadStep::Fail(
                error(
                    IoKind::UnexpectedEof,
                    "websocket: the peer closed during the handshake",
                ),
            );
        },
        Some(b) => b,
    };
    head.push(b);
    if crate::protocol::transport::websocket::is_head_closed(head) {
        return HeadStep::Done;
    }
    if head.len() >= MAX_HANDSHAKE_RESPONSE {
        return HeadStep::Fail(
            error(IoKind::InvalidData, "websocket: handshake response too large"),
        );
    }
    HeadStep::More
}

/// Whether a key is well formed: 24 bytes of canonical base64, padded twice, for sixteen
/// bytes.
pub open spec fn key_ok(key: Seq<char>) -> bool {
    let raw = encode_utf8(key);
    &&& raw.len() == 24
    &&& raw[22] == 0x3d && raw[23] == 0x3d
    &&& base64_bytes(key) is Some
    &&& base64_bytes(key)->Some_0.len() == 16
}

/// Why a key has no accept value, or nothing where it has.
pub open spec fn key_fault(key: Seq<char>) -> Option<Seq<char>> {
    if key_ok(key) {
        None
    } else {
        Some("Protocol: websocket: malformed Sec-WebSocket-Key"@)
    }
}

/// `courierust_ws::handshake::accept_key`: the accept value for a well-formed key, which
/// is the base64 of the SHA-1 of key and GUID, or the text of the one error. Its base64
/// is that of `courierust_crypto::base64`.
#[verifier::external_body]
fn accept_key(key: &str) -> (r: core::result::Result<String, String>)
    ensures
        match key_fault(key@) {
            None => r is Ok && r->Ok_0@ == accept_of(key@),
            Some(m) => r is Err && r->Err_0@ == m,
        },
{
    handshake::accept_key(key).map_err(|e| e.to_string())
}

/// What the header lines of a response have said.
pub struct Seen {
    pub upgrade: bool,
    pub connection: bool,
    pub accept: bool,
}

/// Whether one of the parts is `upgrade`.
pub open spec fn asks_upgrade(parts: Seq<Seq<char>>) -> bool {
    exists|i: int| 0 <= i < parts.len() && lower(trimmed(#[trigger] parts[i])) == lower("upgrade"@)
}

/// What the header lines have said after one more line. The last line of a name counts.
pub open spec fn after_line(seen: Seen, line: Seq<char>, expected: Seq<char>) -> Seen {
    let at = index_from(line, ':', 0);
    if at >= line.len() {
        seen
    } else {
        let name = line.take(at);
        let value = trimmed(line.skip(at + 1));
        if lower(name) == lower("upgrade"@) {
            Seen { upgrade: lower(value) == lower("websocket"@), ..seen }
        } else if lower(name) == lower("connection"@) {
            Seen { connection: asks_upgrade(split_on(value, ',')), ..seen }
        } else if lower(name) == lower("sec-websocket-accept"@) {
            Seen { accept: value == expected, ..seen }
        } else {
            seen
        }
    }
}

/// What the first `n` of some lines have said.
pub open spec fn after_lines(all: Seq<Seq<char>>, expected: Seq<char>, n: int) -> Seen
    decreases n,
{
    if n <= 0 {
        Seen { upgrade: false, connection: false, accept: false }
    } else {
        after_line(after_lines(all, expected, n - 1), all[n - 1], expected)
    }
}

/// Why a response head does not complete the handshake with a key.
pub open spec fn response_fault(response: Seq<u8>, key: Seq<char>) -> Option<WsFault> {
    if !valid_utf8(response) {
        Some(fault(IoKind::InvalidData, "websocket: the handshake response is not UTF-8"@))
    } else {
        let all = split_crlf(decode_utf8(response));
        if second_word(all[0]) != Some("101"@) {
            Some(
                fault(
                    IoKind::InvalidData,
                    "websocket: the peer refused the upgrade: "@ + all[0],
                ),
            )
        } else {
            match key_fault(key) {
                Some(m) => Some(
                    fault(
                        IoKind::InvalidData,
                        "websocket: cannot derive the accept value: "@ + m,
                    ),
                ),
                None => {
                    let seen = after_lines(all.skip(1), accept_of(key), all.len() - 1);
                    if seen.upgrade && seen.connection && seen.accept {
                        None
                    } else {
                        Some(
                            fault(
                                IoKind::InvalidData,
                                "websocket: the handshake response does not match the request"@,
                            ),
                        )
                    }
                },
            }
        }
    }
}

fn holds_upgrade(value: &[char]) -> (r: bool)
    ensures
        r == asks_upgrade(split_on(value@, ',')),
{
    let parts = split(value, ',');
    let mut i: usize = 0;
    while i < parts.len()
        invariant
            i <= parts.len(),
            pieces_view(parts@) == split_on(value@, ','),
            forall|j: int|
                0 <= j < i ==> lower(trimmed(#[trigger] pieces_view(parts@)[j])) != lower(
                    "upgrade"@,
                ),
        decreases parts.len() - i,
    {
        proof {
            assert(pieces_view(parts@)[i as int] == parts@[i as int]@);
        }
        if same_ignoring_case(&trim(&parts[i]), "upgrade") {
            return true;
        }
        i = i + 1;
    }
    false
}

fn read_line(seen: Seen, line: &[char], expected: &[char]) -> (r: Seen)
    ensures
        r == after_line(seen, line@, expected@),
{
    let at: usize = find(line, ':', 0);
    if at >= line.len() {
        return seen;
    }
    let name = slice_subrange(line, 0, at);
    let value = trim(slice_subrange(line, at + 1, line.len()));
    proof {
        assert(name@ =~= line@.take(at as int));
        assert(line@.subrange(at + 1, line@.len() as int) =~= line@.skip(at + 1));
    }
    let mut r = seen;
    if same_ignoring_case(name, "upgrade") {
        r.upgrade = same_ignoring_case(&value, "websocket");
    } else if same_ignoring_case(name, "connection") {
        r.connection = holds_upgrade(&value);
    } else if same_ignoring_case(name, "sec-websocket-accept") {
        r.accept = same_chars(&value, expected);
    }
    r
}

/// Check the status line and the headers of the response to a request with `key`.
pub fn verify_handshake(response: &[u8], key: &str) -> (r: Result<()>)
    ensures
        match response_fault(response@, key@) {
            None => r is Ok,
            Some(f) => r is Err && r->Err_0@ == f,
        },
{
    let text = match utf8_string(slice_to_vec(response)) {
        Some(t) => t,
        None => {
            return Err(
                error(
                    IoKind::InvalidData,
                    "websocket: the handshake response is not UTF-8",
                ),
            );
        },
    };
    let all = split_at_crlf(&chars_of(text.as_str()));
    let ghost views = split_crlf(decode_utf8(response@));
    proof {
        assert(pieces_view(all@) == views);
        assert(views[0] == all@[0]@);
    }
    if !has_second_word(&all[0], "101") {
        let status = string_of(&all[0]);
        return Err(
            WsError {
                kind: IoKind::InvalidData,
                text: concat("websocket: the peer refused the upgrade: ", status.as_str()),
            },
        );
    }
    let expected = match accept_key(key) {
        Ok(e) => chars_of(e.as_str()),
        Err(m) => {
            return Err(
                WsError {
                    kind: IoKind::InvalidData,
                    text: concat("websocket: cannot derive the accept value: ", m.as_str()),
                },
            );
        },
    };
    let mut seen = Seen { upgrade: false, connection: false, accept: false };
    let mut i: usize = 1;
    while i < all.len()
        invariant
            1 <= i <= all.len(),
            pieces_view(all@) == views,
            seen == after_lines(views.skip(1), expected@, i - 1),
        decreases all.len() - i,
    {
        proof {
            assert(views.skip(1)[i - 1] == all@[i as int]@);
        }
        seen = read_line(seen, &all[i], &expected);
        i = i + 1;
    }
    if !seen.upgrade || !seen.connection || !seen.accept {
        return Err(
            error(
                IoKind::InvalidData,
                "websocket: the handshake response does not match the request",
            ),
        );
    }
    Ok(())
}

// ---------------------------------------------------------------------------
// Messages as a byte stream
// ---------------------------------------------------------------------------

/// The payload of the current message that has not been handed out.
pub struct MessageBuffer {
    pub pending: Vec<u8>,
}

/// What a message means to a reader of bytes.
#[derive(Debug, Clone, Copy, PartialEq, Eq, Structural)]
pub enum Arrival {
    /// Its bytes are pending.
    Bytes,
    /// It was empty: wait for the next.
    Empty,
    /// The stream has ended.
    End,
}

impl MessageBuffer {
    /// An empty buffer.
    pub fn new() -> (r: Self)
        ensures
            r.pending@.len() == 0,
    {
        MessageBuffer { pending: Vec::new() }
    }

    /// Hand out at most `limit` bytes.
    pub fn take(&mut self, limit: usize) -> (r: Vec<u8>)
        ensures
            ({
                let n = if limit < old(self).pending@.len() {
                    limit as int
                } else {
                    old(self).pending@.len() as int
                };
                &&& r@ == old(self).pending@.take(n)
                &&& final(self).pending@ == old(self).pending@.skip(n)
            }),
    {
        let n: usize = if limit < self.pending.len() {
            limit
        } else {
            self.pending.len()
        };
        let r = copy_range(&self.pending, 0, n);
        proof {
            assert(r@ =~= self.pending@.take(n as int));
        }
        drop_front(&mut self.pending, n);
        r
    }

    /// Take a message: its bytes become pending.
    pub fn on_message(&mut self, message: Message) -> (r: Arrival)
        ensures
            ({
                let bytes = match message {
                    Message::Text(t) => encode_utf8(t@),
                    Message::Binary(b) => b@,
                    Message::Close => Seq::empty(),
                };
                &&& message is Close ==> r == Arrival::End && *final(self) == *old(self)
                &&& !(message is Close) && bytes.len() == 0 ==> r == Arrival::Empty && *final(self)
                    == *old(self)
                &&& bytes.len() > 0 ==> r == Arrival::Bytes && final(self).pending@ == bytes
            }),
    {
        match message {
            Message::Binary(data) => {
                if data.len() == 0 {
                    return Arrival::Empty;
                }
                self.pending = data;
                Arrival::Bytes
            },
            Message::Text(text) => {
                let data = slice_to_vec(text.as_str().as_bytes());
                if data.len() == 0 {
                    return Arrival::Empty;
                }
                self.pending = data;
                Arrival::Bytes
            },
            Message::Close => Arrival::End,
        }
    }
}

} // verus!
