//! WebSocket transport (RFC 6455): the opening handshake and the frame codec of a
//! client.
//!
//! A frame or message of more than 16 MiB is refused before anything is allocated for
//! it; fragments are joined, pings answered, close frames end the stream.

use super::{Result, TransportError, TransportFault};
use crate::crypto::{base64_encode, base64_of, os_random, sha1_digest, sha1_of};
use crate::text::{
    opt_text, chars_at, chars_of, decimal, hexadecimal, lines, lines_of, lossy, lossy_text, lower,
    lower_char, owned, pieces_view, push_decimal, push_hexadecimal, same_chars, same_ignoring_case,
    split, split_on, string_of, to_lower_char, trim, trimmed,
};
use crate::wire::{
    be_bytes, be_value, copy_range, drop_front, extend, lemma_be_round_trip, lemma_pow256, push_be,
    read_be, repeat,
};
use vstd::prelude::*;
use vstd::slice::slice_subrange;
use vstd::string::*;

verus! {

/// The longest frame or message, in bytes.
pub const MAX_WS_MESSAGE: u64 = 16777216;

/// The longest response head, in bytes.
pub const MAX_HANDSHAKE_HEAD: usize = 65536;

/// The GUID of the opening handshake.
pub const WS_GUID: &'static str = "258EAFA5-E914-47DA-95CA-C5AB0DC85B11";

// ---------------------------------------------------------------------------
// Configuration
// ---------------------------------------------------------------------------

/// The settings of the WebSocket transport.
#[derive(Debug)]
pub struct WebSocketConfig {
    pub path: String,
    pub host: Option<String>,
    /// Extra request headers, in the order in which they are sent.
    pub headers: Vec<(String, String)>,
    /// The most early data that goes into the path.
    pub max_early_data: usize,
    /// The query parameter that carries early data.
    pub early_data_header: Option<String>,
}

impl Default for WebSocketConfig {
    fn default() -> (c: Self)
        ensures
            c.path@ == "/"@,
            c.host is None,
            c.headers@.len() == 0,
            c.max_early_data == 0,
            c.early_data_header is None,
    {
        WebSocketConfig {
            path: owned("/"),
            host: None,
            headers: Vec::new(),
            max_early_data: 0,
            early_data_header: None,
        }
    }
}

/// The WebSocket transport.
pub struct WebSocketTransport {
    pub config: WebSocketConfig,
    pub server: String,
    pub port: u16,
    pub use_tls: bool,
}

/// The path with early data in its query.
pub open spec fn early_path(c: &WebSocketConfig, data: Seq<u8>) -> Seq<char> {
    if data.len() == 0 || c.max_early_data == 0 {
        c.path@
    } else {
        let sent = if data.len() <= c.max_early_data {
            data
        } else {
            data.take(c.max_early_data as int)
        };
        let name = match opt_text(c.early_data_header) {
            Some(n) => n,
            None => "ed"@,
        };
        c.path@ + "?"@ + name + "="@ + base64_of(sent)
    }
}

impl WebSocketTransport {
    /// A transport to a server.
    pub fn new(config: WebSocketConfig, server: &str, port: u16, use_tls: bool) -> (r: Self)
        ensures
            r.config == config,
            r.server@ == server@,
            r.port == port,
            r.use_tls == use_tls,
    {
        WebSocketTransport { config, server: owned(server), port, use_tls }
    }

    /// The configuration.
    pub fn config(&self) -> (r: &WebSocketConfig)
        ensures
            *r == self.config,
    {
        &self.config
    }

    /// The value of the Host header: the configured one, or the server.
    pub fn host(&self) -> (r: &str)
        ensures
            r@ == match opt_text(self.config.host) {
                Some(h) => h,
                None => self.server@,
            },
    {
        match &self.config.host {
            Some(h) => h.as_str(),
            None => self.server.as_str(),
        }
    }

    /// The request path for a connection that carries early data, as far as the
    /// configuration allows any.
    pub fn path_with(&self, early_data: &[u8]) -> (r: String)
        ensures
            r@ == early_path(&self.config, early_data@),
    {
        if early_data.len() == 0 || self.config.max_early_data == 0 {
            return owned(self.config.path.as_str());
        }
        let encoded = if early_data.len() <= self.config.max_early_data {
            base64_encode(early_data)
        } else {
            let sent = slice_subrange(early_data, 0, self.config.max_early_data);
            proof {
                assert(sent@ =~= early_data@.take(self.config.max_early_data as int));
            }
            base64_encode(sent)
        };
        let mut path = owned(self.config.path.as_str());
        path.append("?");
        match &self.config.early_data_header {
            Some(n) => {
                path.append(n.as_str());
            },
            None => {
                path.append("ed");
            },
        }
        path.append("=");
        path.append(encoded.as_str());
        path
    }

    /// The handshake request for a connection with a key: what to send.
    pub fn request(&self, early_data: &[u8], key: &str) -> (r: String)
        ensures
            r@ == request_text(
                early_path(&self.config, early_data@),
                match opt_text(self.config.host) {
                    Some(h) => h,
                    None => self.server@,
                },
                key@,
                headers_view(self.config.headers@),
            ),
    {
        let path = self.path_with(early_data);
        handshake_request(path.as_str(), self.host(), key, &self.config.headers)
    }
}

// ---------------------------------------------------------------------------
// Opening handshake
// ---------------------------------------------------------------------------

/// A key from the platform's entropy: sixteen bytes in base64.
pub fn generate_ws_key() -> (r: String)
    ensures
        exists|k: Seq<u8>| k.len() == 16 && r@ == #[trigger] base64_of(k),
{
    let mut key = repeat(0, 16);
    let _ = os_random(key.as_mut_slice());
    base64_encode(&key)
}

/// The accept value for a key.
pub open spec fn accept_of(key: Seq<char>) -> Seq<char> {
    base64_of(sha1_of(vstd::utf8::encode_utf8(key) + WS_GUID.spec_bytes()))
}

/// The accept value for a key: base64 of the SHA-1 of the key and the GUID.
pub fn compute_accept(client_key: &str) -> (r: String)
    ensures
        r@ == accept_of(client_key@),
{
    let mut input: Vec<u8> = Vec::new();
    extend(&mut input, client_key.as_bytes());
    extend(&mut input, WS_GUID.as_bytes());
    proof {
        assert(input@ =~= vstd::utf8::encode_utf8(client_key@) + WS_GUID.spec_bytes());
    }
    base64_encode(&sha1_digest(&input))
}

/// Headers as mathematical values.
pub open spec fn headers_view(v: Seq<(String, String)>) -> Seq<(Seq<char>, Seq<char>)> {
    Seq::new(v.len(), |i: int| (v[i].0@, v[i].1@))
}

/// The extra header lines of the request; a Host header among them is left out.
pub open spec fn header_lines(headers: Seq<(Seq<char>, Seq<char>)>) -> Seq<char>
    decreases headers.len(),
{
    if headers.len() == 0 {
        Seq::empty()
    } else {
        let (k, v) = headers.last();
        let before = header_lines(headers.drop_last());
        if lower(k) == lower("host"@) {
            before
        } else {
            before + k + ": "@ + v + "\r\n"@
        }
    }
}

/// The handshake request.
pub open spec fn request_text(
    path: Seq<char>,
    host: Seq<char>,
    key: Seq<char>,
    headers: Seq<(Seq<char>, Seq<char>)>,
) -> Seq<char> {
    "GET "@ + path + " HTTP/1.1\r\nHost: "@ + host
        + "\r\nUpgrade: websocket\r\nConnection: Upgrade\r\nSec-WebSocket-Key: "@ + key
        + "\r\nSec-WebSocket-Version: 13\r\n"@ + header_lines(headers) + "\r\n"@
}

/// Build the handshake request.
pub fn handshake_request(path: &str, host: &str, key: &str, headers: &Vec<(String, String)>) -> (r:
    String)
    ensures
        r@ == request_text(path@, host@, key@, headers_view(headers@)),
{
    let mut r = owned("GET ");
    r.append(path);
    r.append(" HTTP/1.1\r\nHost: ");
    r.append(host);
    r.append("\r\nUpgrade: websocket\r\nConnection: Upgrade\r\nSec-WebSocket-Key: ");
    r.append(key);
    r.append("\r\nSec-WebSocket-Version: 13\r\n");
    let ghost start = r@;
    let ghost all = headers_view(headers@);
    let mut i: usize = 0;
    proof {
        assert(all.take(0) =~= Seq::empty());
        assert(start + Seq::<char>::empty() =~= start);
    }
    while i < headers.len()
        invariant
            i <= headers@.len(),
            all == headers_view(headers@),
            r@ == start + header_lines(all.take(i as int)),
        decreases headers@.len() - i,
    {
        proof {
            assert(all.take(i + 1).drop_last() =~= all.take(i as int));
            assert(all.take(i + 1).last() == all[i as int]);
        }
        if !same_ignoring_case(&chars_of(headers[i].0.as_str()), "host") {
            r.append(headers[i].0.as_str());
            r.append(": ");
            r.append(headers[i].1.as_str());
            r.append("\r\n");
            proof {
                assert(r@ =~= start + header_lines(all.take(i + 1)));
            }
        }
        i = i + 1;
    }
    r.append("\r\n");
    proof {
        assert(all.take(i as int) =~= all);
        assert(r@ =~= request_text(path@, host@, key@, all));
    }
    r
}

/// Whether bytes end with the empty line that closes a head.
pub open spec fn head_closed(b: Seq<u8>) -> bool {
    b.len() >= 4 && b.skip(b.len() - 4) == seq![13u8, 10u8, 13u8, 10u8]
}

pub fn is_head_closed(b: &[u8]) -> (r: bool)
    ensures
        r == head_closed(b@),
{
    let n: usize = b.len();
    if n < 4 {
        return false;
    }
    let r: bool = b[n - 4] == 13 && b[n - 3] == 10 && b[n - 2] == 13 && b[n - 1] == 10;
    proof {
        let t = b@.skip(n - 4);
        let w = seq![13u8, 10u8, 13u8, 10u8];
        if r {
            assert(t =~= w);
        } else if t == w {
            assert(t[0] == b@[n - 4] && t[1] == b@[n - 3] && t[2] == b@[n - 2] && t[3] == b@[n
                - 1]);
        }
    }
    r
}

/// Whether another byte of the response head is read after these.
pub fn head_wants_more(head: &[u8]) -> (r: bool)
    ensures
        r == (head@.len() < MAX_HANDSHAKE_HEAD && !head_closed(head@)),
{
    head.len() < MAX_HANDSHAKE_HEAD && !is_head_closed(head)
}

/// Whether a character is a letter's lower or upper case. The Kelvin sign is an upper
/// case of `k`.
pub open spec fn lowers_to(c: char, letter: char) -> bool {
    lower_char(c) == letter || (letter == 'k' && c == '\u{212a}')
}

/// Whether a text starts with `prefix`, letter case aside.
pub open spec fn starts_ignoring_case(s: Seq<char>, prefix: Seq<char>) -> bool {
    s.len() >= prefix.len() && forall|i: int|
        0 <= i < prefix.len() ==> lowers_to(#[trigger] s[i], prefix[i])
}

fn starts_with_letters(s: &[char], prefix: &str) -> (r: bool)
    ensures
        r == starts_ignoring_case(s@, prefix@),
{
    let p = chars_of(prefix);
    if s.len() < p.len() {
        return false;
    }
    let mut i: usize = 0;
    while i < p.len()
        invariant
            i <= p.len() <= s.len(),
            p@ == prefix@,
            forall|j: int| 0 <= j < i ==> lowers_to(#[trigger] s@[j], prefix@[j]),
        decreases p.len() - i,
    {
        if to_lower_char(s[i]) != p[i] && !(p[i] == 'k' && s[i] == '\u{212a}') {
            return false;
        }
        i = i + 1;
    }
    true
}

/// Whether a line carries the expected accept value.
pub open spec fn accepts(line: Seq<char>, expected: Seq<char>) -> bool {
    &&& starts_ignoring_case(line, "sec-websocket-accept:"@)
    &&& split_on(line, ':').len() > 1
    &&& trimmed(split_on(line, ':')[1]) == expected
}

/// Whether one of some lines carries the expected accept value.
pub open spec fn any_accepts(all: Seq<Seq<char>>, expected: Seq<char>) -> bool {
    exists|i: int| 0 <= i < all.len() && accepts(#[trigger] all[i], expected)
}

/// What a response head comes to for a key.
pub open spec fn response_fault(head: Seq<u8>, key: Seq<char>) -> Option<TransportFault> {
    let text = lossy_text(head);
    if !head_closed(head) {
        Some(TransportFault::WebSocket("handshake response too large or incomplete"@))
    } else if !("HTTP/1.1 101"@.len() <= text.len() && text.subrange(
        0,
        "HTTP/1.1 101"@.len() as int,
    ) == "HTTP/1.1 101"@) {
        Some(
            TransportFault::WebSocket(
                "handshake rejected: "@ + if lines_of(text).len() > 0 {
                    lines_of(text)[0]
                } else {
                    "unknown status"@
                },
            ),
        )
    } else if !any_accepts(lines_of(text), accept_of(key)) {
        Some(TransportFault::WebSocket("Sec-WebSocket-Accept mismatch"@))
    } else {
        None
    }
}

fn line_accepts(line: &[char], expected: &[char]) -> (r: bool)
    ensures
        r == accepts(line@, expected@),
{
    if !starts_with_letters(line, "sec-websocket-accept:") {
        return false;
    }
    let parts = split(line, ':');
    if parts.len() < 2 {
        return false;
    }
    proof {
        assert(pieces_view(parts@)[1] == parts@[1]@);
    }
    same_chars(&trim(&parts[1]), expected)
}

/// Check the response to the handshake request that carried `key`.
pub fn check_response(head: &[u8], key: &str) -> (r: Result<()>)
    ensures
        match response_fault(head@, key@) {
            None => r is Ok,
            Some(f) => r is Err && r->Err_0@ == f,
        },
{
    if !is_head_closed(head) {
        return Err(
            TransportError::WebSocket(owned("handshake response too large or incomplete")),
        );
    }
    let text = lossy(head);
    let chars = chars_of(text.as_str());
    let all = lines(&chars);
    if !chars_at(&chars, 0, "HTTP/1.1 101") {
        let mut m = owned("handshake rejected: ");
        if all.len() > 0 {
            proof {
                assert(pieces_view(all@)[0] == all@[0]@);
            }
            m.append(string_of(&all[0]).as_str());
        } else {
            m.append("unknown status");
        }
        return Err(TransportError::WebSocket(m));
    }
    let expected = chars_of(compute_accept(key).as_str());
    let mut i: usize = 0;
    while i < all.len()
        invariant
            i <= all.len(),
            pieces_view(all@) == lines_of(lossy_text(head@)),
            expected@ == accept_of(key@),
            response_fault(head@, key@) == if any_accepts(
                lines_of(lossy_text(head@)),
                accept_of(key@),
            ) {
                None
            } else {
                Some(TransportFault::WebSocket("Sec-WebSocket-Accept mismatch"@))
            },
            forall|j: int| 0 <= j < i ==> !accepts(#[trigger] pieces_view(all@)[j], expected@),
        decreases all.len() - i,
    {
        proof {
            assert(pieces_view(all@)[i as int] == all@[i as int]@);
        }
        if line_accepts(&all[i], &expected) {
            return Ok(());
        }
        i = i + 1;
    }
    Err(TransportError::WebSocket(owned("Sec-WebSocket-Accept mismatch")))
}

// ---------------------------------------------------------------------------
// Frames
// ---------------------------------------------------------------------------

/// A frame.
#[derive(Debug)]
pub struct FrameOut {
    /// Whether it ends a message.
    pub fin: bool,
    pub opcode: u8,
    pub payload: Vec<u8>,
}

/// A frame as a mathematical value.
#[verifier::ext_equal]
pub struct FrameView {
    pub fin: bool,
    pub opcode: u8,
    pub payload: Seq<u8>,
}

impl View for FrameOut {
    type V = FrameView;

    open spec fn view(&self) -> FrameView {
        FrameView { fin: self.fin, opcode: self.opcode, payload: self.payload@ }
    }
}

/// What stands at the front of received bytes.
pub enum Parsed {
    /// No complete frame yet.
    More,
    /// A frame that announces too many bytes.
    TooLarge(nat),
    /// A frame, and the bytes that it takes.
    Frame(FrameView, nat),
}

/// Bytes under a four-byte mask.
pub open spec fn masked_with(s: Seq<u8>, mask: Seq<u8>) -> Seq<u8> {
    Seq::new(s.len(), |i: int| s[i] ^ mask[i % 4])
}

/// The number of bytes of an extended length, the short length given.
pub open spec fn ext_len(short: int) -> nat {
    if short == 126 {
        2
    } else if short == 127 {
        8
    } else {
        0
    }
}

/// The payload length in the header of `b`.
pub open spec fn payload_len(b: Seq<u8>) -> nat {
    let short = b[1] % 128;
    if short < 126 {
        short as nat
    } else {
        be_value(b.subrange(2, 2 + ext_len(short as int) as int))
    }
}

/// The length of the header of `b`: two bytes, the extended length, the mask.
pub open spec fn head_len(b: Seq<u8>) -> nat {
    2 + ext_len((b[1] % 128) as int) + if b[1] >= 128 {
        4nat
    } else {
        0
    }
}

/// The frame at the front of `b`.
pub open spec fn frame_at(b: Seq<u8>) -> Parsed {
    if b.len() < 2 || b.len() < head_len(b) {
        Parsed::More
    } else if payload_len(b) > MAX_WS_MESSAGE {
        Parsed::TooLarge(payload_len(b))
    } else {
        let from = head_len(b) as int;
        let to = from + payload_len(b);
        if b.len() < to {
            Parsed::More
        } else {
            let raw = b.subrange(from, to);
            let payload = if b[1] >= 128 {
                masked_with(raw, b.subrange(from - 4, from))
            } else {
                raw
            };
            Parsed::Frame(
                FrameView { fin: b[0] >= 128, opcode: (b[0] % 16) as u8, payload },
                to as nat,
            )
        }
    }
}

/// A frame on the wire: masked where a mask is given.
pub open spec fn frame_bytes(fin: bool, opcode: u8, mask: Option<Seq<u8>>, payload: Seq<u8>) -> Seq<
    u8,
> {
    let n = payload.len();
    let flag: int = if mask is Some {
        128
    } else {
        0
    };
    let head = seq![(if fin {
        128int
    } else {
        0
    } + opcode) as u8];
    let len = if n < 126 {
        seq![(flag + n) as u8]
    } else if n <= 0xffff {
        seq![(flag + 126) as u8] + be_bytes(n, 2)
    } else {
        seq![(flag + 127) as u8] + be_bytes(n, 8)
    };
    match mask {
        None => head + len + payload,
        Some(m) => head + len + m + masked_with(payload, m),
    }
}

proof fn lemma_unmask(s: Seq<u8>, mask: Seq<u8>)
    requires
        mask.len() == 4,
    ensures
        masked_with(masked_with(s, mask), mask) == s,
{
    assert forall|i: int| 0 <= i < s.len() implies masked_with(masked_with(s, mask), mask)[i]
        == s[i] by {
        let a = s[i];
        let b = mask[i % 4];
        assert((a ^ b) ^ b == a) by (bit_vector);
    }
    assert(masked_with(masked_with(s, mask), mask) =~= s);
}

/// A frame is read back as it was written, masked or not, whatever follows it.
pub proof fn lemma_frame_round_trip(
    fin: bool,
    opcode: u8,
    mask: Option<Seq<u8>>,
    payload: Seq<u8>,
    rest: Seq<u8>,
)
    requires
        opcode < 16,
        mask is Some ==> mask->Some_0.len() == 4,
        payload.len() <= MAX_WS_MESSAGE,
    ensures
        frame_at(frame_bytes(fin, opcode, mask, payload) + rest) == Parsed::Frame(
            FrameView { fin, opcode, payload },
            frame_bytes(fin, opcode, mask, payload).len(),
        ),
        frame_bytes(fin, opcode, mask, payload).len() >= 2,
{
    let f = frame_bytes(fin, opcode, mask, payload);
    let b = f + rest;
    let n = payload.len();
    lemma_pow256();
    let e = if n < 126 {
        0int
    } else if n <= 0xffff {
        2
    } else {
        8
    };
    if n >= 126 {
        lemma_be_round_trip(n, e as nat);
        assert(b.subrange(2, 2 + e) =~= be_bytes(n, e as nat));
    }
    assert(payload_len(b) == n);
    let from = head_len(b) as int;
    match mask {
        None => {
            assert(b.subrange(from, from + n) =~= payload);
        },
        Some(m) => {
            assert(b.subrange(from, from + n) =~= masked_with(payload, m));
            assert(b.subrange(from - 4, from) =~= m);
            lemma_unmask(payload, m);
        },
    }
}

/// The mask of client frames.
pub open spec fn client_mask() -> Seq<u8> {
    seq![0x12u8, 0x34u8, 0x56u8, 0x78u8]
}

/// A client frame.
pub open spec fn client_frame(opcode: u8, payload: Seq<u8>) -> Seq<u8> {
    frame_bytes(true, opcode, Some(client_mask()), payload)
}

/// The result of [`parse_one`].
pub enum ParseResult {
    More,
    TooLarge(u64),
    Frame(FrameOut, usize),
}

/// Parse the frame at the front of the received bytes: the frame and the bytes it takes.
pub fn parse_one(input: &[u8]) -> (r: ParseResult)
    ensures
        match frame_at(input@) {
            Parsed::More => r is More,
            Parsed::TooLarge(n) => r is TooLarge && r->TooLarge_0 == n,
            Parsed::Frame(f, used) => r is Frame && r->Frame_0@ == f && r->Frame_1 == used
                && used <= input@.len() && used >= 2,
        },
{
    if input.len() < 2 {
        return ParseResult::More;
    }
    let masked: bool = input[1] >= 128;
    let short: u8 = input[1] % 128;
    let ext: usize = if short == 126 {
        2
    } else if short == 127 {
        8
    } else {
        0
    };
    let head: usize = 2 + ext + if masked {
        4
    } else {
        0
    };
    if input.len() < head {
        return ParseResult::More;
    }
    let len: u64 = if short < 126 {
        short as u64
    } else {
        read_be(input, 2, ext)
    };
    if len > MAX_WS_MESSAGE {
        return ParseResult::TooLarge(len);
    }
    let n: usize = len as usize;
    if input.len() - head < n {
        return ParseResult::More;
    }
    let raw = slice_subrange(input, head, head + n);
    let payload = if masked {
        mask_bytes(raw, slice_subrange(input, head - 4, head))
    } else {
        copy_range(input, head, head + n)
    };
    ParseResult::Frame(
        FrameOut { fin: input[0] >= 128, opcode: input[0] % 16, payload },
        head + n,
    )
}

fn mask_bytes(s: &[u8], mask: &[u8]) -> (r: Vec<u8>)
    requires
        mask@.len() == 4,
    ensures
        r@ == masked_with(s@, mask@),
{
    let mut r: Vec<u8> = Vec::new();
    let mut i: usize = 0;
    while i < s.len()
        invariant
            i <= s.len(),
            mask@.len() == 4,
            r@.len() == i,
            forall|j: int| 0 <= j < i ==> r@[j] == s@[j] ^ mask@[j % 4],
        decreases s.len() - i,
    {
        r.push(s[i] ^ mask[i % 4]);
        i = i + 1;
    }
    proof {
        assert(r@ =~= masked_with(s@, mask@));
    }
    r
}

// ---------------------------------------------------------------------------
// The connection
// ---------------------------------------------------------------------------

/// The codec of a connection.
pub struct WsFramed {
    /// Received bytes that have not been parsed.
    pub input: Vec<u8>,
    /// The opcode of a message whose fragments are being joined.
    pub frag_opcode: Option<u8>,
    pub frag: Vec<u8>,
    /// Message bytes that have not been handed out.
    pub out: Vec<u8>,
    /// Whether the peer has closed the connection.
    pub eof: bool,
    /// Serialized frames that have not been sent.
    pub queue: Vec<u8>,
}

/// The codec as a mathematical value.
#[verifier::ext_equal]
pub struct WsView {
    pub input: Seq<u8>,
    pub frag_opcode: Option<u8>,
    pub frag: Seq<u8>,
    pub out: Seq<u8>,
    pub eof: bool,
    pub queue: Seq<u8>,
}

impl View for WsFramed {
    type V = WsView;

    open spec fn view(&self) -> WsView {
        WsView {
            input: self.input@,
            frag_opcode: self.frag_opcode,
            frag: self.frag@,
            out: self.out@,
            eof: self.eof,
            queue: self.queue@,
        }
    }
}

/// What a frame does.
pub enum Effect {
    /// Reading goes on with the next frame.
    Next,
    /// A message is complete.
    Deliver,
    /// A pong was queued and wants to be sent.
    Reply,
    /// The peer closed the connection.
    Closed,
    /// The peer broke the protocol.
    Fail(Seq<char>),
}

/// What a frame does, and the state behind it.
pub open spec fn on_frame(s: WsView, f: FrameView) -> (Effect, WsView) {
    if f.opcode == 0 {
        if s.frag_opcode is None {
            (Effect::Fail("continuation frame without a started message"@), s)
        } else if s.frag.len() + f.payload.len() > MAX_WS_MESSAGE {
            (Effect::Fail("websocket message too large"@), s)
        } else if f.fin {
            (
                Effect::Deliver,
                WsView {
                    frag_opcode: None,
                    frag: Seq::empty(),
                    out: s.frag + f.payload,
                    ..s
                },
            )
        } else {
            (Effect::Next, WsView { frag: s.frag + f.payload, ..s })
        }
    } else if f.opcode == 1 || f.opcode == 2 {
        if s.frag_opcode is Some {
            (Effect::Fail("new data frame during fragmented message"@), s)
        } else if f.fin {
            (Effect::Deliver, WsView { out: f.payload, ..s })
        } else {
            (Effect::Next, WsView { frag_opcode: Some(f.opcode), frag: f.payload, ..s })
        }
    } else if f.opcode == 9 {
        if f.payload.len() > 125 {
            (Effect::Fail("ping frame too large"@), s)
        } else {
            (Effect::Reply, WsView { queue: s.queue + client_frame(10, f.payload), ..s })
        }
    } else if f.opcode == 10 {
        (Effect::Next, s)
    } else if f.opcode == 8 {
        (Effect::Closed, WsView { eof: true, ..s })
    } else {
        (
            Effect::Fail("unsupported websocket opcode 0x"@ + hexadecimal(f.opcode as nat)),
            s,
        )
    }
}

/// What a reader does next.
pub enum Step {
    /// Hand out these bytes.
    Serve(Seq<u8>),
    /// Send what is queued, as far as it goes, and read on.
    Flush,
    /// Receive bytes and read on.
    Receive,
    /// The stream has ended.
    Closed,
    /// The connection failed.
    Fail(Seq<char>),
}

/// The first bytes of a message, at most `limit` of them, and the state behind them.
pub open spec fn serve(s: WsView, limit: nat) -> (Step, WsView) {
    let n = if limit < s.out.len() {
        limit as int
    } else {
        s.out.len() as int
    };
    (Step::Serve(s.out.take(n)), WsView { out: s.out.skip(n), ..s })
}

/// What a reader that takes at most `limit` bytes does next, and the state behind it.
pub open spec fn read_step(s: WsView, limit: nat) -> (Step, WsView)
    decreases s.input.len(),
{
    if s.out.len() > 0 {
        serve(s, limit)
    } else {
        match frame_at(s.input) {
            Parsed::More => (Step::Receive, s),
            Parsed::TooLarge(n) => (
                Step::Fail("websocket frame too large: "@ + decimal(n) + " bytes"@),
                s,
            ),
            Parsed::Frame(f, used) => {
                let t = WsView { input: s.input.skip(used as int), ..s };
                let (effect, u) = on_frame(t, f);
                match effect {
                    Effect::Next => if 0 < used <= s.input.len() {
                        read_step(u, limit)
                    } else {
                        (Step::Receive, u)
                    },
                    Effect::Deliver => if u.out.len() > 0 {
                        serve(u, limit)
                    } else {
                        (Step::Receive, u)
                    },
                    Effect::Reply => (Step::Flush, u),
                    Effect::Closed => (Step::Closed, u),
                    Effect::Fail(m) => (Step::Fail(m), u),
                }
            },
        }
    }
}

/// A message in one frame is handed out as it was sent.
pub proof fn lemma_message_delivered(
    s: WsView,
    text: bool,
    mask: Option<Seq<u8>>,
    payload: Seq<u8>,
    rest: Seq<u8>,
    limit: nat,
)
    requires
        s.out.len() == 0,
        s.frag_opcode is None,
        s.input == frame_bytes(
            true,
            if text {
                1
            } else {
                2
            },
            mask,
            payload,
        ) + rest,
        mask is Some ==> mask->Some_0.len() == 4,
        0 < payload.len() <= MAX_WS_MESSAGE,
        limit >= payload.len(),
    ensures
        read_step(s, limit) == (
            Step::Serve(payload),
            WsView { input: rest, out: Seq::empty(), ..s },
        ),
{
    let op: u8 = if text {
        1
    } else {
        2
    };
    lemma_frame_round_trip(true, op, mask, payload, rest);
    let f = frame_bytes(true, op, mask, payload);
    assert(s.input.skip(f.len() as int) =~= rest);
    assert(payload.take(payload.len() as int) =~= payload);
    assert(payload.skip(payload.len() as int) =~= Seq::empty());
}

/// The frames that continue a message, the last one ending it.
pub open spec fn continuation(parts: Seq<Seq<u8>>) -> Seq<u8>
    decreases parts.len(),
{
    if parts.len() == 0 {
        Seq::empty()
    } else {
        frame_bytes(parts.len() == 1, 0, None, parts[0]) + continuation(parts.skip(1))
    }
}

/// The bytes of the parts, one after another.
pub open spec fn joined(parts: Seq<Seq<u8>>) -> Seq<u8>
    decreases parts.len(),
{
    if parts.len() == 0 {
        Seq::empty()
    } else {
        parts[0] + joined(parts.skip(1))
    }
}

/// A message that continues in parts is handed out as the parts joined.
pub proof fn lemma_fragments_joined(s: WsView, parts: Seq<Seq<u8>>, rest: Seq<u8>, limit: nat)
    requires
        s.out.len() == 0,
        s.frag_opcode is Some,
        parts.len() > 0,
        s.input == continuation(parts) + rest,
        0 < (s.frag + joined(parts)).len() <= MAX_WS_MESSAGE,
        limit >= (s.frag + joined(parts)).len(),
    ensures
        read_step(s, limit) == (
            Step::Serve(s.frag + joined(parts)),
            WsView {
                input: rest,
                frag_opcode: None,
                frag: Seq::empty(),
                out: Seq::empty(),
                ..s
            },
        ),
    decreases parts.len(),
{
    let last = parts.len() == 1;
    let f = frame_bytes(last, 0, None, parts[0]);
    let more = continuation(parts.skip(1)) + rest;
    assert(s.input =~= f + more);
    lemma_frame_round_trip(last, 0, None, parts[0], more);
    assert(s.input.skip(f.len() as int) =~= more);
    if last {
        assert(joined(parts.skip(1)) =~= Seq::empty());
        assert(joined(parts) =~= parts[0]);
        assert(more =~= rest);
        let m = s.frag + parts[0];
        assert(m.take(m.len() as int) =~= m);
        assert(m.skip(m.len() as int) =~= Seq::empty());
    } else {
        let t = WsView { input: more, frag: s.frag + parts[0], ..s };
        assert(t.frag + joined(parts.skip(1)) =~= s.frag + joined(parts));
        lemma_fragments_joined(t, parts.skip(1), rest, limit);
    }
}

/// What a reader does next.
#[derive(Debug)]
pub enum WsStep {
    /// Hand out these bytes.
    Serve(Vec<u8>),
    /// Send what is queued, as far as it goes, and read on.
    Flush,
    /// Receive bytes and read on.
    Receive,
    /// The stream has ended.
    Closed,
    /// The connection failed.
    Fail(String),
}

/// Whether a step is the one that [`read_step`] says.
pub open spec fn step_matches(r: WsStep, s: Step) -> bool {
    match s {
        Step::Serve(b) => r is Serve && r->Serve_0@ == b,
        Step::Flush => r is Flush,
        Step::Receive => r is Receive,
        Step::Closed => r is Closed,
        Step::Fail(m) => r is Fail && r->Fail_0@ == m,
    }
}

impl WsFramed {
    /// The codec of a fresh connection.
    pub fn new() -> (r: Self)
        ensures
            r@ == (WsView {
                input: Seq::empty(),
                frag_opcode: None,
                frag: Seq::empty(),
                out: Seq::empty(),
                eof: false,
                queue: Seq::empty(),
            }),
    {
        WsFramed {
            input: Vec::new(),
            frag_opcode: None,
            frag: Vec::new(),
            out: Vec::new(),
            eof: false,
            queue: Vec::new(),
        }
    }

    /// Queue a client frame.
    pub fn enqueue_frame(&mut self, opcode: u8, payload: &[u8])
        requires
            opcode < 16,
        ensures
            final(self)@ == (WsView {
                queue: old(self)@.queue + client_frame(opcode, payload@),
                ..old(self)@
            }),
    {
        let ghost before = self@;
        let n: usize = payload.len();
        let mut frame: Vec<u8> = Vec::new();
        frame.push(128 + opcode);
        if n < 126 {
            frame.push((128 + n) as u8);
        } else if n <= 0xffff {
            frame.push(254);
            push_be(&mut frame, n as u64, 2);
        } else {
            frame.push(255);
            push_be(&mut frame, n as u64, 8);
        }
        let mask = [0x12u8, 0x34, 0x56, 0x78];
        proof {
            assert(mask@ =~= client_mask());
        }
        extend(&mut frame, mask.as_slice());
        extend(&mut frame, &mask_bytes(payload, mask.as_slice()));
        proof {
            assert(frame@ =~= client_frame(opcode, payload@));
        }
        extend(&mut self.queue, &frame);
        proof {
            assert(self@ =~= WsView {
                queue: before.queue + client_frame(opcode, payload@),
                ..before
            });
        }
    }

    /// Queue a close frame with the code of a normal closure, unless something is queued.
    pub fn enqueue_close(&mut self)
        ensures
            final(self)@ == if old(self)@.queue.len() > 0 {
                old(self)@
            } else {
                WsView { queue: client_frame(8, seq![0x03u8, 0xe8u8]), ..old(self)@ }
            },
    {
        if self.queue.len() > 0 {
            return ;
        }
        let code = [0x03u8, 0xe8];
        proof {
            assert(code@ =~= seq![0x03u8, 0xe8u8]);
            assert(self.queue@ + client_frame(8, code@) =~= client_frame(8, code@));
        }
        self.enqueue_frame(0x8, code.as_slice());
    }

    /// Queue data as one binary message.
    pub fn enqueue_data(&mut self, data: &[u8])
        ensures
            final(self)@ == (WsView {
                queue: old(self)@.queue + client_frame(2, data@),
                ..old(self)@
            }),
    {
        self.enqueue_frame(0x2, data);
    }

    /// The bytes to send.
    pub fn pending(&self) -> (r: &[u8])
        ensures
            r@ == self@.queue,
    {
        self.queue.as_slice()
    }

    /// Take note that `n` of the pending bytes have been sent. None is an error.
    pub fn wrote(&mut self, n: usize) -> (r: core::result::Result<(), String>)
        requires
            n <= old(self)@.queue.len(),
        ensures
            n > 0 ==> r is Ok && final(self)@ == (WsView {
                queue: old(self)@.queue.skip(n as int),
                ..old(self)@
            }),
            n == 0 ==> r is Err && r->Err_0@ == "websocket write returned 0 bytes"@
                && final(self)@ == old(self)@,
    {
        if n == 0 {
            return Err(owned("websocket write returned 0 bytes"));
        }
        let ghost before = self@;
        drop_front(&mut self.queue, n);
        proof {
            assert(self@ =~= WsView { queue: before.queue.skip(n as int), ..before });
        }
        Ok(())
    }

    /// Take received bytes. None mean that the peer closed the connection: returns
    /// whether it is still open.
    pub fn received(&mut self, chunk: &[u8]) -> (open: bool)
        ensures
            open == (chunk@.len() > 0),
            final(self)@ == (WsView { input: old(self)@.input + chunk@, ..old(self)@ }),
    {
        let ghost before = self@;
        extend(&mut self.input, chunk);
        proof {
            assert(self@ =~= WsView { input: before.input + chunk@, ..before });
        }
        chunk.len() > 0
    }

    fn take_out(&mut self, limit: usize) -> (r: Vec<u8>)
        ensures
            serve(old(self)@, limit as nat) == (Step::Serve(r@), final(self)@),
    {
        let ghost before = self@;
        let n: usize = if limit < self.out.len() {
            limit
        } else {
            self.out.len()
        };
        let r = copy_range(&self.out, 0, n);
        drop_front(&mut self.out, n);
        proof {
            assert(r@ =~= before.out.take(n as int));
            assert(self@ =~= serve(before, limit as nat).1);
        }
        r
    }

    /// Read on until there is something to do: serve message bytes, parse frames, answer
    /// a ping, or ask for more bytes.
    pub fn step(&mut self, limit: usize) -> (r: WsStep)
        ensures
            step_matches(r, read_step(old(self)@, limit as nat).0),
            final(self)@ == read_step(old(self)@, limit as nat).1,
    {
        let ghost goal = read_step(self@, limit as nat);
        loop
            invariant
                goal == read_step(self@, limit as nat),
                goal == read_step(old(self)@, limit as nat),
            decreases self.input@.len(),
        {
            if self.out.len() > 0 {
                return WsStep::Serve(self.take_out(limit));
            }
            let ghost before = self@;
            let (frame, used): (FrameOut, usize) = match parse_one(&self.input) {
                ParseResult::More => return WsStep::Receive,
                ParseResult::TooLarge(n) => {
                    let mut m = owned("websocket frame too large: ");
                    push_decimal(&mut m, n);
                    m.append(" bytes");
                    return WsStep::Fail(m);
                },
                ParseResult::Frame(f, used) => (f, used),
            };
            let ghost f = frame@;
            drop_front(&mut self.input, used);
            let ghost t = self@;
            proof {
                assert(t =~= WsView { input: before.input.skip(used as int), ..before });
            }
            let op: u8 = frame.opcode;
            if op == 0x0 {
                if self.frag_opcode.is_none() {
                    return WsStep::Fail(owned("continuation frame without a started message"));
                }
                if frame.payload.len() as u64 > MAX_WS_MESSAGE || self.frag.len() as u64
                    > MAX_WS_MESSAGE - frame.payload.len() as u64 {
                    return WsStep::Fail(owned("websocket message too large"));
                }
                extend(&mut self.frag, &frame.payload);
                if frame.fin {
                    let mut message: Vec<u8> = Vec::new();
                    core::mem::swap(&mut message, &mut self.frag);
                    self.frag_opcode = None;
                    self.out = message;
                    proof {
                        assert(self@ =~= on_frame(t, f).1);
                    }
                    if self.out.len() > 0 {
                        return WsStep::Serve(self.take_out(limit));
                    }
                    return WsStep::Receive;
                }
                proof {
                    assert(self@ =~= on_frame(t, f).1);
                }
            } else if op == 0x1 || op == 0x2 {
                if self.frag_opcode.is_some() {
                    return WsStep::Fail(owned("new data frame during fragmented message"));
                }
                if frame.fin {
                    self.out = frame.payload;
                    proof {
                        assert(self@ =~= on_frame(t, f).1);
                    }
                    if self.out.len() > 0 {
                        return WsStep::Serve(self.take_out(limit));
                    }
                    return WsStep::Receive;
                }
                self.frag_opcode = Some(op);
                self.frag = frame.payload;
                proof {
                    assert(self@ =~= on_frame(t, f).1);
                }
            } else if op == 0x9 {
                if frame.payload.len() > 125 {
                    return WsStep::Fail(owned("ping frame too large"));
                }
                self.enqueue_frame(0xA, &frame.payload);
                return WsStep::Flush;
            } else if op == 0xA {
            } else if op == 0x8 {
                self.eof = true;
                proof {
                    assert(self@ =~= on_frame(t, f).1);
                }
                return WsStep::Closed;
            } else {
                let mut m = owned("unsupported websocket opcode 0x");
                push_hexadecimal(&mut m, op as u64);
                return WsStep::Fail(m);
            }
        }
    }
}

/// A WebSocket over a transport `S`.
pub struct WsStream<S> {
    pub inner: S,
    pub framed: WsFramed,
}

impl<S> WsStream<S> {
    /// A stream whose handshake is done.
    pub fn new(inner: S) -> (r: Self)
        ensures
            r.inner == inner,
            r.framed@ == (WsView {
                input: Seq::empty(),
                frag_opcode: None,
                frag: Seq::empty(),
                out: Seq::empty(),
                eof: false,
                queue: Seq::empty(),
            }),
    {
        WsStream { inner, framed: WsFramed::new() }
    }

    /// The transport.
    pub fn into_inner(self) -> (r: S)
        ensures
            r == self.inner,
    {
        self.inner
    }
}

/// The complete frames at the front of received bytes, one after another, and the bytes
/// behind them.
pub open spec fn frames_in(b: Seq<u8>) -> (Seq<FrameView>, Seq<u8>)
    decreases b.len(),
{
    match frame_at(b) {
        Parsed::Frame(f, used) => if 0 < used <= b.len() {
            let (rest, left) = frames_in(b.skip(used as int));
            (seq![f] + rest, left)
        } else {
            (Seq::empty(), b)
        },
        _ => (Seq::empty(), b),
    }
}

/// The frames of bytes that arrive in pieces, `left` having been received before: behind
/// each piece every complete frame is taken. Also the bytes behind them.
pub open spec fn frames_of_pieces(left: Seq<u8>, pieces: Seq<Seq<u8>>) -> (Seq<FrameView>, Seq<u8>)
    decreases pieces.len(),
{
    if pieces.len() == 0 {
        (Seq::empty(), left)
    } else {
        let (first, kept) = frames_in(left + pieces[0]);
        let (rest, end) = frames_of_pieces(kept, pieces.skip(1));
        (first + rest, end)
    }
}

/// Frames on the wire, each with the mask that it is sent under.
pub open spec fn wire_of(frames: Seq<(FrameView, Option<Seq<u8>>)>) -> Seq<u8>
    decreases frames.len(),
{
    if frames.len() == 0 {
        Seq::empty()
    } else {
        let (f, mask) = frames[0];
        frame_bytes(f.fin, f.opcode, mask, f.payload) + wire_of(frames.skip(1))
    }
}

/// Whether a frame can be sent under a mask and is not too large to be taken.
pub open spec fn sendable(f: FrameView, mask: Option<Seq<u8>>) -> bool {
    &&& f.opcode < 16
    &&& mask is Some ==> mask->Some_0.len() == 4
    &&& f.payload.len() <= MAX_WS_MESSAGE
}

/// What is found at the front of received bytes does not change when more arrive.
proof fn lemma_found_stays(b: Seq<u8>, more: Seq<u8>)
    ensures
        !(frame_at(b) is More) ==> frame_at(b + more) == frame_at(b),
        frame_at(b) matches Parsed::Frame(_, used) ==> 2 <= used <= b.len(),
{
    if !(frame_at(b) is More) {
        let c = b + more;
        let e = ext_len((b[1] % 128) as int) as int;
        assert(c[0] == b[0] && c[1] == b[1]);
        assert(c.subrange(2, 2 + e) =~= b.subrange(2, 2 + e));
        let from = head_len(b) as int;
        let to = from + payload_len(b);
        if payload_len(b) <= MAX_WS_MESSAGE {
            assert(c.subrange(from, to) =~= b.subrange(from, to));
            if b[1] >= 128 {
                assert(c.subrange(from - 4, from) =~= b.subrange(from - 4, from));
            }
        }
    }
}

proof fn lemma_frames_in_two(b: Seq<u8>, more: Seq<u8>)
    ensures
        ({
            let (first, kept) = frames_in(b);
            let (rest, left) = frames_in(kept + more);
            frames_in(b + more) == (first + rest, left)
        }),
        frames_in(frames_in(b).1) == (Seq::<FrameView>::empty(), frames_in(b).1),
    decreases b.len(),
{
    lemma_found_stays(b, more);
    match frame_at(b) {
        Parsed::Frame(f, used) => {
            let n = used as int;
            assert((b + more).skip(n) =~= b.skip(n) + more);
            lemma_frames_in_two(b.skip(n), more);
            let (first, kept) = frames_in(b.skip(n));
            let (rest, left) = frames_in(kept + more);
            assert(seq![f] + (first + rest) =~= (seq![f] + first) + rest);
        },
        _ => {
            let (rest, left) = frames_in(b + more);
            assert(Seq::<FrameView>::empty() + rest =~= rest);
        },
    }
}

proof fn lemma_pieces(left: Seq<u8>, pieces: Seq<Seq<u8>>)
    requires
        frames_in(left) == (Seq::<FrameView>::empty(), left),
    ensures
        frames_of_pieces(left, pieces) == frames_in(left + joined(pieces)),
    decreases pieces.len(),
{
    if pieces.len() == 0 {
        assert(left + joined(pieces) =~= left);
    } else {
        let tail = joined(pieces.skip(1));
        assert(left + joined(pieces) =~= (left + pieces[0]) + tail);
        lemma_frames_in_two(left + pieces[0], tail);
        lemma_pieces(frames_in(left + pieces[0]).1, pieces.skip(1));
    }
}

/// The frames of a byte stream do not depend on how its bytes were split: taken behind each
/// piece, they are those of all the bytes, once each and in order.
pub proof fn lemma_split_independent(pieces: Seq<Seq<u8>>)
    ensures
        frames_of_pieces(Seq::empty(), pieces) == frames_in(joined(pieces)),
{
    lemma_pieces(Seq::empty(), pieces);
    assert(Seq::<u8>::empty() + joined(pieces) =~= joined(pieces));
}

/// The frames that are read out of a byte stream are those that were written into it, each
/// once and in order, however its bytes were split. A last frame that is not complete stays
/// behind, and gives no frame.
pub proof fn lemma_frames_delivered(
    frames: Seq<(FrameView, Option<Seq<u8>>)>,
    tail: Seq<u8>,
    pieces: Seq<Seq<u8>>,
)
    requires
        forall|i: int| 0 <= i < frames.len() ==> sendable((#[trigger] frames[i]).0, frames[i].1),
        !(frame_at(tail) is Frame),
        joined(pieces) == wire_of(frames) + tail,
    ensures
        frames_of_pieces(Seq::empty(), pieces) == (
            Seq::new(frames.len(), |i: int| frames[i].0),
            tail,
        ),
{
    lemma_split_independent(pieces);
    lemma_frames_written(frames, tail);
}

proof fn lemma_frames_written(frames: Seq<(FrameView, Option<Seq<u8>>)>, tail: Seq<u8>)
    requires
        forall|i: int| 0 <= i < frames.len() ==> sendable((#[trigger] frames[i]).0, frames[i].1),
        !(frame_at(tail) is Frame),
    ensures
        frames_in(wire_of(frames) + tail) == (
            Seq::new(frames.len(), |i: int| frames[i].0),
            tail,
        ),
    decreases frames.len(),
{
    let all = Seq::new(frames.len(), |i: int| frames[i].0);
    let b = wire_of(frames) + tail;
    if frames.len() == 0 {
        assert(b =~= tail);
        assert(all =~= Seq::empty());
    } else {
        let (f, mask) = frames[0];
        let rest = frames.skip(1);
        let bytes = frame_bytes(f.fin, f.opcode, mask, f.payload);
        assert(sendable(f, mask));
        assert forall|i: int| 0 <= i < rest.len() implies sendable((#[trigger] rest[i]).0, rest[i].1) by {
            assert(rest[i] == frames[i + 1]);
        }
        assert(b =~= bytes + (wire_of(rest) + tail));
        lemma_frame_round_trip(f.fin, f.opcode, mask, f.payload, wire_of(rest) + tail);
        assert(b.skip(bytes.len() as int) =~= wire_of(rest) + tail);
        lemma_frames_written(rest, tail);
        assert(seq![f] + Seq::new(rest.len(), |i: int| rest[i].0) =~= all);
    }
}

/// A frame that has not arrived in full gives none.
pub proof fn lemma_partial_frame(f: FrameView, mask: Option<Seq<u8>>, n: int)
    requires
        sendable(f, mask),
        0 <= n < frame_bytes(f.fin, f.opcode, mask, f.payload).len(),
    ensures
        frame_at(frame_bytes(f.fin, f.opcode, mask, f.payload).take(n)) is More,
{
    let whole = frame_bytes(f.fin, f.opcode, mask, f.payload);
    lemma_frame_round_trip(f.fin, f.opcode, mask, f.payload, Seq::empty());
    assert(whole + Seq::<u8>::empty() =~= whole);
    lemma_found_stays(whole.take(n), whole.skip(n));
    assert(whole.take(n) + whole.skip(n) =~= whole);
}

} // verus!
