//! The TLS 1.3 client (RFC 8446) as a state machine over records.
//!
//! [`begin`] assembles the `ClientHello`, [`Opening`] waits for the `ServerHello`,
//! [`Flight`] takes the server's flight and [`Tls13Stream`] frames application data.
//! Whoever drives them moves bytes between the machine and a socket. Two hooks make the
//! client reusable: [`ClientHelloHook`] may rewrite the assembled message, and
//! [`ServerAuth`] decides about the server's certificate.

use super::codec::{
    cert_verify_content, find_extension, hs_at, hs_bytes, hs_message, known_suite, parse_extensions,
    parse_server_hello, read_hs_message, read_u16, server_hello_of, signature_valid,
    take_hs_message, u16_at, verify_content, verify_signature, CERT_EXT_COMPRESSED_CERTIFICATE,
    EXT_ALPN, HS_CERTIFICATE, HS_CERTIFICATE_VERIFY, HS_ENCRYPTED_EXTENSIONS, HS_FINISHED,
    HS_KEY_UPDATE, HS_NEW_SESSION_TICKET, HS_SERVER_HELLO, SIG_ECDSA_SECP256R1_SHA256, SIG_ED25519,
    SIG_RSA_PSS_SHA256,
};
use super::codec::{ext_block, first_ext};
use super::fingerprint::{
    build_client_hello, hello_of, ClientHelloSpec, Fingerprint, FingerprintView, HelloInput,
    SESSION_ID_OFFSET,
};
use super::key_schedule::{
    derived, handshake_secret_of, hash_for, labeled, master_secret_of, traffic_iv, traffic_key,
    zeros, HandshakeSecrets, SuiteHash, TrafficKey,
};
use super::record::{
    header_at, header_bytes, parse_record_header, plaintext_record, ProtectorView, RecordProtector,
    ALERT_FATAL, ALERT_WARNING, CONTENT_ALERT, CONTENT_APPLICATION_DATA, CONTENT_CHANGE_CIPHER_SPEC,
    CONTENT_HANDSHAKE, MAX_PLAINTEXT,
};
use super::{certificate, invalid_config, protocol, Result, Tls13Error, TlsFault};
use crate::crypto::{digest_of, mac_of, os_random, x25519, x25519_of, x25519_public, BASE_POINT};
use crate::text::{
    decimal, hex_padded, lossy, lossy_text, owned, push_decimal, push_hex_padded, strings_view,
};
use crate::wire::{
    array32, be_value, copy_range, ct_eq, drop_front, extend, holds_bytes, holds_u16,
    lemma_be_value_bytes, lemma_pow256, lists_view, read_be, repeat,
};
use crate::x509::{
    chain_verdict, hostname_matches, hostname_ok, leaf_read, read_leaf, root_certs,
    check_chain, LeafCertificate, LeafView,
};
use courierust::courierust_tls::x509::RootStore;
use vstd::prelude::*;
use vstd::slice::{slice_subrange, slice_to_vec};
use vstd::string::*;
use vstd::utf8::encode_utf8;

verus! {

// ---------------------------------------------------------------------------
// Server authentication
// ---------------------------------------------------------------------------

/// How the server is authenticated.
pub trait ServerAuth {
    /// Whether [`Self::verdict`] states what [`Self::verify_certificate`] answers. An
    /// implementation that states nothing is free to answer as it likes.
    open spec fn states_verdict(&self) -> bool {
        false
    }

    /// Why the certificate is refused, or nothing where it is accepted.
    open spec fn verdict(&self, leaf_der: Seq<u8>, leaf: LeafView, chain: Seq<Seq<u8>>) -> Option<
        TlsFault,
    > {
        None
    }

    /// Check the server's certificate before its `CertificateVerify` is. `leaf_der` is
    /// the leaf as sent, `leaf` its parsed form, `chain` the whole chain in wire order.
    /// An error aborts the handshake.
    fn verify_certificate(
        &mut self,
        leaf_der: &[u8],
        leaf: &LeafCertificate,
        chain: &[Vec<u8>],
    ) -> (r: Result<()>)
        ensures
            old(self).states_verdict() ==> match old(self).verdict(
                leaf_der@,
                leaf@,
                lists_view(chain@),
            ) {
                None => r is Ok,
                Some(f) => r is Err && r->Err_0@ == f,
            },
    ;
}

/// Chain validation against a root store, and host name matching.
pub struct X509ServerAuth {
    pub roots: RootStore,
    pub server_name: String,
    pub now: i64,
    pub verify: bool,
}

impl X509ServerAuth {
    /// Authenticate `server_name` against `roots` at `now`.
    pub fn new(roots: RootStore, server_name: String, now: i64, verify: bool) -> (r: Self)
        ensures
            r.roots == roots,
            r.server_name == server_name,
            r.now == now,
            r.verify == verify,
    {
        X509ServerAuth { roots, server_name, now, verify }
    }
}

/// The verdict of [`X509ServerAuth`].
pub open spec fn x509_verdict(
    roots: Seq<Seq<u8>>,
    server_name: Seq<char>,
    now: i64,
    verify: bool,
    leaf: LeafView,
    chain: Seq<Seq<u8>>,
) -> Option<TlsFault> {
    if !verify {
        None
    } else {
        match chain_verdict(roots, chain, now) {
            Some(m) => Some(TlsFault::Certificate(m)),
            None => if hostname_ok(server_name, leaf.dns_names, leaf.ip_names) {
                None
            } else {
                Some(
                    TlsFault::Certificate(
                        "server name '"@ + server_name + "' does not match the certificate"@,
                    ),
                )
            },
        }
    }
}

impl ServerAuth for X509ServerAuth {
    open spec fn states_verdict(&self) -> bool {
        true
    }

    open spec fn verdict(&self, leaf_der: Seq<u8>, leaf: LeafView, chain: Seq<Seq<u8>>) -> Option<
        TlsFault,
    > {
        x509_verdict(
            root_certs(self.roots),
            self.server_name@,
            self.now,
            self.verify,
            leaf,
            chain,
        )
    }

    fn verify_certificate(
        &mut self,
        leaf_der: &[u8],
        leaf: &LeafCertificate,
        chain: &[Vec<u8>],
    ) -> (r: Result<()>) {
        if !self.verify {
            return Ok(());
        }
        match check_chain(&self.roots, chain, self.now) {
            Ok(_) => {},
            Err(m) => return Err(Tls13Error::Certificate(m)),
        }
        if !hostname_matches(self.server_name.as_str(), &leaf.dns_names, &leaf.ip_names) {
            let mut m = owned("server name '");
            m.append(self.server_name.as_str());
            m.append("' does not match the certificate");
            return Err(Tls13Error::Certificate(m));
        }
        Ok(())
    }
}

// ---------------------------------------------------------------------------
// Configuration and the ClientHello
// ---------------------------------------------------------------------------

/// The assembled `ClientHello`, handed to a [`ClientHelloHook`] before it is sent.
pub struct ClientHelloDraft {
    /// The handshake message. What stands here when the hook returns goes on the wire.
    pub raw: Vec<u8>,
    /// The random in the message.
    pub random: [u8; 32],
    /// The client's ephemeral X25519 private key.
    pub key_share_private: [u8; 32],
    /// The client's ephemeral X25519 public key.
    pub key_share_public: [u8; 32],
    /// Byte offset of the session id in `raw`.
    pub session_id_offset: usize,
}

/// A rewrite of the assembled `ClientHello`.
pub trait ClientHelloHook {
    /// Rewrite `draft` in place. An error aborts the connection.
    fn on_client_hello(&mut self, draft: &mut ClientHelloDraft) -> (r: Result<()>);
}

/// Client configuration.
pub struct Tls13ClientConfig {
    /// Name to send and to authenticate.
    pub server_name: String,
    /// ALPN protocols; empty uses the profile's list.
    pub alpn: Vec<String>,
    /// Shape of the `ClientHello`.
    pub fingerprint: Fingerprint,
    /// Current time in Unix seconds.
    pub now: i64,
    /// Root store of the default authentication.
    pub roots: Option<RootStore>,
    /// Whether the default authentication validates the chain.
    pub verify: bool,
    /// Send a compatibility `change_cipher_spec` behind the `ClientHello`.
    pub compatibility_ccs: bool,
}

impl Default for Tls13ClientConfig {
    fn default() -> (c: Self)
        ensures
            c.server_name@ == Seq::<char>::empty(),
            c.alpn@.len() == 0,
            c.fingerprint == Fingerprint::Off,
            c.now == 0,
            c.roots is None,
            c.verify,
            c.compatibility_ccs,
    {
        Tls13ClientConfig {
            server_name: String::new(),
            alpn: Vec::new(),
            fingerprint: Fingerprint::Off,
            now: 0,
            roots: None,
            verify: true,
            compatibility_ccs: true,
        }
    }
}

/// The inputs of the `ClientHello` for a configuration, a random and a private key.
pub open spec fn hello_input(c: &Tls13ClientConfig, random: Seq<u8>, private: Seq<u8>) -> HelloInput {
    HelloInput {
        server_name: c.server_name@,
        alpn: strings_view(c.alpn@),
        fingerprint: c.fingerprint@,
        random,
        session_id: zeros(32),
        key_share: x25519_of(private, BASE_POINT@),
    }
}

fn copy_fingerprint(f: &Fingerprint) -> (r: Fingerprint)
    ensures
        r@ == f@,
{
    match f {
        Fingerprint::Off => Fingerprint::Off,
        Fingerprint::Chrome => Fingerprint::Chrome,
        Fingerprint::Randomized => Fingerprint::Randomized,
        Fingerprint::Custom(p) => Fingerprint::Custom(p.copy()),
    }
}

/// Assemble the `ClientHello` of a configuration from a random and a private key.
pub fn assemble(config: &Tls13ClientConfig, random: [u8; 32], private: [u8; 32]) -> (r: Result<
    ClientHelloDraft,
>)
    ensures
        match hello_of(hello_input(config, random@, private@)) {
            Ok(raw) => {
                &&& r is Ok
                &&& r->Ok_0.raw@ == raw
                &&& r->Ok_0.random == random
                &&& r->Ok_0.key_share_private == private
                &&& r->Ok_0.key_share_public@ == x25519_of(private@, BASE_POINT@)
                &&& r->Ok_0.session_id_offset == SESSION_ID_OFFSET
                &&& raw.len() >= 71
                &&& raw.subrange(39, 71) == zeros(32)
            },
            Err(f) => r is Err && r->Err_0@ == f,
        },
{
    let public = x25519_public(&private);
    let spec = ClientHelloSpec {
        server_name: config.server_name.as_str(),
        alpn: config.alpn.as_slice(),
        fingerprint: copy_fingerprint(&config.fingerprint),
        random: &random,
        session_id: [0u8; 32],
        key_share: &public,
    };
    proof {
        assert(spec.session_id@ =~= zeros(32));
        assert(spec@ =~= hello_input(config, random@, private@));
    }
    match build_client_hello(&spec) {
        Ok(hello) => Ok(
            ClientHelloDraft {
                raw: hello.raw,
                random,
                key_share_private: private,
                key_share_public: public,
                session_id_offset: hello.session_id_offset,
            },
        ),
        Err(e) => Err(e),
    }
}

/// Thirty-two bytes from the platform, or an I/O error that names the cause.
pub fn entropy() -> (r: Result<[u8; 32]>)
    ensures
        r is Err ==> exists|m: Seq<char>| r->Err_0@ == TlsFault::Io("entropy failure: "@ + m),
{
    let mut bytes = repeat(0, 32);
    match os_random(bytes.as_mut_slice()) {
        Ok(_) => Ok(array32(&bytes)),
        Err(cause) => {
            let mut m = owned("entropy failure: ");
            m.append(cause.as_str());
            proof {
                assert(TlsFault::Io(m@) == TlsFault::Io("entropy failure: "@ + cause@));
            }
            Err(Tls13Error::Io(m))
        },
    }
}

/// Draw the random and the ephemeral key of a connection and assemble its `ClientHello`.
/// Without a server name nothing is drawn.
pub fn begin(config: &Tls13ClientConfig) -> (r: Result<ClientHelloDraft>)
    ensures
        config.server_name@.len() == 0 ==> r is Err && r->Err_0@ == TlsFault::InvalidConfig(
            "server_name is empty"@,
        ),
        config.server_name@.len() > 0 && r is Err ==> (exists|m: Seq<char>|
            r->Err_0@ == TlsFault::Io("entropy failure: "@ + m)) || (exists|
            random: Seq<u8>,
            private: Seq<u8>,
        |
            #![trigger hello_input(config, random, private)]
            random.len() == 32 && private.len() == 32 && hello_of(
                hello_input(config, random, private),
            ) == Err::<Seq<u8>, TlsFault>(r->Err_0@)),
        r is Ok ==> {
            let d = r->Ok_0;
            &&& hello_of(hello_input(config, d.random@, d.key_share_private@)) == Ok::<
                Seq<u8>,
                TlsFault,
            >(d.raw@)
            &&& d.key_share_public@ == x25519_of(d.key_share_private@, BASE_POINT@)
            &&& d.session_id_offset == SESSION_ID_OFFSET
            &&& d.raw@.len() >= 71
        },
{
    proof {
        super::fingerprint::lemma_empty_text(config.server_name@);
    }
    if config.server_name.as_str().as_bytes().len() == 0 {
        return Err(invalid_config("server_name is empty"));
    }
    let random = match entropy() {
        Ok(b) => b,
        Err(e) => return Err(e),
    };
    let private = match entropy() {
        Ok(b) => b,
        Err(e) => return Err(e),
    };
    let r = assemble(config, random, private);
    proof {
        let input = hello_input(config, random@, private@);
        assert(hello_of(input) == hello_of(hello_input(config, random@, private@)));
    }
    r
}

/// The protocols that a server may select.
pub open spec fn offered_protocols(c: &Tls13ClientConfig) -> Seq<Seq<u8>> {
    if c.alpn@.len() > 0 {
        Seq::new(c.alpn@.len(), |i: int| encode_utf8(c.alpn@[i]@))
    } else if c.fingerprint is Off {
        Seq::empty()
    } else {
        seq!["h2".spec_bytes(), "http/1.1".spec_bytes()]
    }
}

/// The signature schemes that a server may use.
pub open spec fn offered_schemes(f: FingerprintView) -> Seq<u16> {
    let listed = match f.base() {
        None => Seq::empty(),
        Some(p) => p.signature_algorithms,
    };
    if listed.len() == 0 {
        seq![SIG_RSA_PSS_SHA256, SIG_ECDSA_SECP256R1_SHA256, SIG_ED25519]
    } else {
        listed
    }
}

/// The session id of a `ClientHello` as it is sent.
pub open spec fn sent_session_id(hello: Seq<u8>) -> Seq<u8> {
    if hello.len() < 71 {
        hello.skip(if hello.len() < 39 {
            hello.len() as int
        } else {
            39
        })
    } else {
        hello.subrange(39, 71)
    }
}

/// The records that carry the `ClientHello`, a compatibility record included where the
/// configuration asks for one.
pub open spec fn first_flight(c: &Tls13ClientConfig, hello: Seq<u8>) -> Seq<u8> {
    let record = header_bytes(CONTENT_HANDSHAKE, hello.len()) + hello;
    if c.compatibility_ccs && !(c.fingerprint is Off) {
        record + (header_bytes(CONTENT_CHANGE_CIPHER_SPEC, 1) + seq![1u8])
    } else {
        record
    }
}

fn protocols_of(config: &Tls13ClientConfig) -> (r: Vec<Vec<u8>>)
    ensures
        lists_view(r@) == offered_protocols(config),
{
    let mut r: Vec<Vec<u8>> = Vec::new();
    if config.alpn.len() > 0 {
        let mut i: usize = 0;
        while i < config.alpn.len()
            invariant
                i <= config.alpn@.len(),
                config.alpn@.len() > 0,
                lists_view(r@) == offered_protocols(config).take(i as int),
            decreases config.alpn@.len() - i,
        {
            let ghost before = lists_view(r@);
            r.push(slice_to_vec(config.alpn[i].as_str().as_bytes()));
            proof {
                assert(lists_view(r@) =~= before.push(encode_utf8(config.alpn@[i as int]@)));
                assert(lists_view(r@) =~= offered_protocols(config).take(i + 1));
            }
            i = i + 1;
        }
        proof {
            assert(offered_protocols(config).take(i as int) =~= offered_protocols(config));
        }
    } else {
        match config.fingerprint {
            Fingerprint::Off => {},
            _ => {
                r.push(slice_to_vec("h2".as_bytes()));
                r.push(slice_to_vec("http/1.1".as_bytes()));
            },
        }
        proof {
            assert(lists_view(r@) =~= offered_protocols(config));
        }
    }
    r
}

fn schemes_of(fingerprint: &Fingerprint) -> (r: Vec<u16>)
    ensures
        r@ == offered_schemes(fingerprint@),
{
    let listed = fingerprint.signature_algorithms();
    if listed.len() > 0 {
        return listed;
    }
    let r: Vec<u16> = vec![SIG_RSA_PSS_SHA256, SIG_ECDSA_SECP256R1_SHA256, SIG_ED25519];
    proof {
        assert(r@ =~= seq![SIG_RSA_PSS_SHA256, SIG_ECDSA_SECP256R1_SHA256, SIG_ED25519]);
    }
    r
}

// ---------------------------------------------------------------------------
// Alerts
// ---------------------------------------------------------------------------

/// Level and description of an alert; a malformed one counts as a fatal internal error.
pub open spec fn alert_of(payload: Seq<u8>) -> (u8, u8) {
    if payload.len() >= 2 {
        (payload[0], payload[1])
    } else {
        (ALERT_FATAL, 80u8)
    }
}

pub open spec fn alert_fault(payload: Seq<u8>) -> TlsFault {
    TlsFault::Alert(alert_of(payload).0, alert_of(payload).1)
}

/// Level and description of an alert.
pub fn alert_parts(payload: &[u8]) -> (r: (u8, u8))
    ensures
        r == alert_of(payload@),
{
    if payload.len() >= 2 {
        (payload[0], payload[1])
    } else {
        (ALERT_FATAL, 80)
    }
}

fn alert_error(payload: &[u8]) -> (e: Tls13Error)
    ensures
        e@ == alert_fault(payload@),
{
    let (level, description) = alert_parts(payload);
    Tls13Error::Alert { level, description }
}

fn protocol_number(before: &str, n: u8, after: &str) -> (e: Tls13Error)
    ensures
        e@ == TlsFault::Protocol(before@ + decimal(n as nat) + after@),
{
    let mut m = owned(before);
    push_decimal(&mut m, n as u64);
    m.append(after);
    Tls13Error::Protocol(m)
}

// ---------------------------------------------------------------------------
// EncryptedExtensions and Certificate
// ---------------------------------------------------------------------------

/// The protocol in the body of an ALPN extension of the server.
pub open spec fn selected_protocol(d: Seq<u8>) -> core::result::Result<Seq<u8>, TlsFault> {
    if d.len() < 3 || u16_at(d, 0) == 0 || d.len() < 2 + u16_at(d, 0) {
        Err(TlsFault::Protocol("truncated ALPN extension"@))
    } else if 3 + d[2] > d.len() {
        Err(TlsFault::Protocol("truncated ALPN protocol"@))
    } else {
        Ok(d.subrange(3, 3 + d[2]))
    }
}

/// The protocol that an `EncryptedExtensions` body selects.
pub open spec fn alpn_of(body: Seq<u8>) -> core::result::Result<Option<Seq<u8>>, TlsFault> {
    match ext_block(body, 0) {
        Err(f) => Err(f),
        Ok(exts) => match first_ext(exts, EXT_ALPN) {
            None => Ok(None),
            Some(d) => match selected_protocol(d) {
                Err(f) => Err(f),
                Ok(p) => Ok(Some(p)),
            },
        },
    }
}

/// Parse the protocol that the server selected from an `EncryptedExtensions` body.
pub fn parse_alpn_extension(body: &[u8]) -> (r: Result<Option<Vec<u8>>>)
    ensures
        match alpn_of(body@) {
            Err(f) => r is Err && r->Err_0@ == f,
            Ok(None) => r is Ok && r->Ok_0 is None,
            Ok(Some(p)) => r is Ok && r->Ok_0 is Some && r->Ok_0->Some_0@ == p,
        },
{
    let mut pos: usize = 0;
    let exts = match parse_extensions(body, &mut pos) {
        Ok(e) => e,
        Err(e) => return Err(e),
    };
    match find_extension(&exts, EXT_ALPN) {
        None => Ok(None),
        Some(d) => {
            if d.len() < 3 {
                return Err(protocol("truncated ALPN extension"));
            }
            let list_len: usize = read_u16(d, 0) as usize;
            if list_len == 0 || d.len() < 2 + list_len {
                return Err(protocol("truncated ALPN extension"));
            }
            let plen: usize = d[2] as usize;
            if 3 + plen > d.len() {
                return Err(protocol("truncated ALPN protocol"));
            }
            Ok(Some(copy_range(d, 3, 3 + plen)))
        },
    }
}

/// The number in the three bytes at `at`.
pub open spec fn u24_at(buf: Seq<u8>, at: int) -> nat {
    be_value(buf.subrange(at, at + 3))
}

fn read_u24(buf: &[u8], at: usize) -> (r: usize)
    requires
        at + 3 <= buf@.len(),
    ensures
        r == u24_at(buf@, at as int),
        r < 0x100_0000,
{
    proof {
        lemma_pow256();
        lemma_be_value_bytes(buf@.subrange(at as int, at + 3));
    }
    read_be(buf, at, 3) as usize
}

/// What is wrong with the extensions of a certificate entry in `buf[pos..end]`.
pub open spec fn entry_fault(buf: Seq<u8>, pos: int, end: int) -> Option<TlsFault>
    decreases end - pos,
{
    if pos + 4 > end {
        None
    } else if pos + 4 + u16_at(buf, pos + 2) > end {
        Some(TlsFault::Protocol("truncated certificate entry extension"@))
    } else if u16_at(buf, pos) == CERT_EXT_COMPRESSED_CERTIFICATE {
        Some(
            TlsFault::Protocol(
                "server compressed a certificate although compress_certificate was not offered"@,
            ),
        )
    } else {
        entry_fault(buf, pos + 4 + u16_at(buf, pos + 2), end)
    }
}

fn check_entry(buf: &[u8], from: usize, end: usize) -> (r: Option<Tls13Error>)
    requires
        from <= end <= buf@.len(),
    ensures
        match entry_fault(buf@, from as int, end as int) {
            None => r is None,
            Some(f) => r is Some && r->Some_0@ == f,
        },
{
    let mut pos: usize = from;
    while end - pos >= 4
        invariant
            from <= pos <= end <= buf.len(),
            entry_fault(buf@, from as int, end as int) == entry_fault(
                buf@,
                pos as int,
                end as int,
            ),
        decreases end - pos,
    {
        let t: u16 = read_u16(buf, pos);
        let l: usize = read_u16(buf, pos + 2) as usize;
        if l > end - pos - 4 {
            return Some(protocol("truncated certificate entry extension"));
        }
        if t == CERT_EXT_COMPRESSED_CERTIFICATE {
            return Some(
                protocol(
                    "server compressed a certificate although compress_certificate was not offered",
                ),
            );
        }
        pos = pos + 4 + l;
    }
    None
}

/// The certificates of the entries in `buf[pos..end]`.
pub open spec fn entries_from(buf: Seq<u8>, pos: int, end: int) -> core::result::Result<
    Seq<Seq<u8>>,
    TlsFault,
>
    decreases end - pos,
{
    if pos >= end {
        Ok(Seq::empty())
    } else if end - pos < 3 {
        Err(TlsFault::Protocol("truncated certificate entry"@))
    } else {
        let cert_end = pos + 3 + u24_at(buf, pos);
        if cert_end > end {
            Err(TlsFault::Protocol("truncated certificate data"@))
        } else if end - cert_end < 2 || end - cert_end - 2 < u16_at(buf, cert_end) {
            Err(TlsFault::Protocol("truncated certificate extensions"@))
        } else {
            let next = cert_end + 2 + u16_at(buf, cert_end);
            match entry_fault(buf, cert_end + 2, next) {
                Some(f) => Err(f),
                None => match entries_from(buf, next, end) {
                    Err(f) => Err(f),
                    Ok(rest) => Ok(seq![buf.subrange(pos + 3, cert_end)] + rest),
                },
            }
        }
    }
}

/// The certificate chain in the body of a `Certificate` message.
pub open spec fn chain_of(body: Seq<u8>) -> core::result::Result<Seq<Seq<u8>>, TlsFault> {
    if body.len() == 0 || body.len() < 1 + body[0] {
        Err(TlsFault::Protocol("truncated Certificate"@))
    } else if body[0] != 0 {
        Err(TlsFault::Protocol("server CertificateRequest context must be empty"@))
    } else if body.len() < 4 || body.len() - 4 < u24_at(body, 1) {
        Err(TlsFault::Protocol("truncated Certificate"@))
    } else {
        match entries_from(body, 4, 4 + u24_at(body, 1) as int) {
            Err(f) => Err(f),
            Ok(chain) => if chain.len() == 0 {
                Err(TlsFault::Protocol("empty certificate chain"@))
            } else {
                Ok(chain)
            },
        }
    }
}

/// Parse the body of a `Certificate` message into the chain.
pub fn parse_certificate_message(body: &[u8]) -> (r: Result<Vec<Vec<u8>>>)
    ensures
        match chain_of(body@) {
            Ok(chain) => r is Ok && lists_view(r->Ok_0@) == chain && chain.len() > 0,
            Err(f) => r is Err && r->Err_0@ == f,
        },
{
    if body.len() == 0 {
        return Err(protocol("truncated Certificate"));
    }
    let ctx_len: usize = body[0] as usize;
    if body.len() < 1 + ctx_len {
        return Err(protocol("truncated Certificate"));
    }
    if ctx_len != 0 {
        return Err(protocol("server CertificateRequest context must be empty"));
    }
    if body.len() < 4 {
        return Err(protocol("truncated Certificate"));
    }
    let list_len: usize = read_u24(body, 1);
    if body.len() - 4 < list_len {
        return Err(protocol("truncated Certificate"));
    }
    let end: usize = 4 + list_len;
    let mut pos: usize = 4;
    let mut chain: Vec<Vec<u8>> = Vec::new();
    let ghost whole = entries_from(body@, 4, end as int);
    proof {
        assert(lists_view(chain@) =~= Seq::empty());
        if whole is Ok {
            assert(Seq::empty() + whole->Ok_0 =~= whole->Ok_0);
        }
    }
    while pos < end
        invariant
            4 <= pos <= end <= body.len(),
            whole == match entries_from(body@, pos as int, end as int) {
                Ok(rest) => Ok::<Seq<Seq<u8>>, TlsFault>(lists_view(chain@) + rest),
                Err(f) => Err(f),
            },
            chain_of(body@) == match whole {
                Err(f) => Err(f),
                Ok(c) => if c.len() == 0 {
                    Err(TlsFault::Protocol("empty certificate chain"@))
                } else {
                    Ok::<Seq<Seq<u8>>, TlsFault>(c)
                },
            },
        decreases end - pos,
    {
        if end - pos < 3 {
            return Err(protocol("truncated certificate entry"));
        }
        let cert_len: usize = read_u24(body, pos);
        if end - pos - 3 < cert_len {
            return Err(protocol("truncated certificate data"));
        }
        let cert_end: usize = pos + 3 + cert_len;
        if end - cert_end < 2 {
            return Err(protocol("truncated certificate extensions"));
        }
        let ext_len: usize = read_u16(body, cert_end) as usize;
        if end - cert_end - 2 < ext_len {
            return Err(protocol("truncated certificate extensions"));
        }
        let next: usize = cert_end + 2 + ext_len;
        match check_entry(body, cert_end + 2, next) {
            Some(e) => return Err(e),
            None => {},
        }
        let ghost before = lists_view(chain@);
        chain.push(copy_range(body, pos + 3, cert_end));
        proof {
            let entry = body@.subrange(pos + 3, cert_end as int);
            assert(lists_view(chain@) =~= before.push(entry));
            let tail = entries_from(body@, next as int, end as int);
            if tail is Ok {
                assert(before + (seq![entry] + tail->Ok_0) =~= lists_view(chain@) + tail->Ok_0);
            }
        }
        pos = next;
    }
    proof {
        assert(lists_view(chain@) + Seq::<Seq<u8>>::empty() =~= lists_view(chain@));
    }
    if chain.len() == 0 {
        return Err(protocol("empty certificate chain"));
    }
    Ok(chain)
}

// ---------------------------------------------------------------------------
// Waiting for the ServerHello
// ---------------------------------------------------------------------------

/// The `ServerHello` message in a record: nothing in a compatibility record.
pub open spec fn hello_in_record(outer: u8, payload: Seq<u8>) -> core::result::Result<
    Option<Seq<u8>>,
    TlsFault,
> {
    if outer == CONTENT_CHANGE_CIPHER_SPEC {
        Ok(None)
    } else if outer == CONTENT_ALERT {
        Err(alert_fault(payload))
    } else if outer == CONTENT_HANDSHAKE {
        match hs_at(payload) {
            None => Err(
                TlsFault::Protocol(
                    "ServerHello record does not hold a complete handshake message"@,
                ),
            ),
            Some((ty, body)) => if ty != HS_SERVER_HELLO {
                Err(
                    TlsFault::Protocol(
                        "expected ServerHello (2), got handshake type "@ + decimal(ty as nat)
                            + ""@,
                    ),
                )
            } else {
                Ok(Some(payload.take(4 + body.len() as int)))
            },
        }
    } else {
        Err(
            TlsFault::Protocol(
                "unexpected record type "@ + decimal(outer as nat) + " before ServerHello"@,
            ),
        )
    }
}

/// A connection whose `ClientHello` has been sent.
pub struct Opening {
    /// The `ClientHello` as sent.
    pub client_hello: Vec<u8>,
    pub private: [u8; 32],
    pub offered_alpn: Vec<Vec<u8>>,
    pub offered_schemes: Vec<u16>,
}

/// What the `ServerHello` message `msg` establishes for a sent `ClientHello`: the state
/// in which the server's flight is awaited.
pub open spec fn flight_after(
    hello: Seq<u8>,
    private: Seq<u8>,
    offered_alpn: Seq<Seq<u8>>,
    offered_schemes: Seq<u16>,
    msg: Seq<u8>,
) -> core::result::Result<FlightView, TlsFault> {
    match server_hello_of(msg.skip(4)) {
        Err(f) => Err(f),
        Ok(sh) => if sh.legacy_session_id_echo != sent_session_id(hello) {
            Err(
                TlsFault::Protocol(
                    "ServerHello legacy_session_id_echo does not match the ClientHello"@,
                ),
            )
        } else {
            let h = hash_for(sh.suite);
            let transcript = hello + msg;
            let secret = handshake_secret_of(h, x25519_of(private, sh.key_share));
            let th = digest_of(h.alg(), transcript);
            let client = derived(h, secret, "c hs traffic".spec_bytes(), th);
            let server = derived(h, secret, "s hs traffic".spec_bytes(), th);
            Ok(
                FlightView {
                    suite: sh.suite,
                    transcript,
                    secrets_hash: h,
                    handshake_secret: secret,
                    client_secret: client,
                    server_secret: server,
                    read: fresh_protector(sh.suite, server),
                    write: fresh_protector(sh.suite, client),
                    offered_alpn,
                    offered_schemes,
                    pending: Seq::empty(),
                    saw_ee: false,
                    alpn: None,
                    leaf: None,
                    verified: false,
                    finished: None,
                },
            )
        },
    }
}

/// The protection of a direction right after its keys were derived from a secret.
pub open spec fn fresh_protector(suite: u16, secret: Seq<u8>) -> ProtectorView {
    ProtectorView {
        key: traffic_key(suite, hash_for(suite), secret),
        iv: traffic_iv(hash_for(suite), secret),
        seq: 0,
    }
}

fn protector_for(suite: u16, secret: &[u8]) -> (r: RecordProtector)
    requires
        known_suite(suite),
    ensures
        r@ == fresh_protector(suite, secret@),
{
    match TrafficKey::derive(suite, SuiteHash::for_suite(suite), secret) {
        Ok((key, iv)) => RecordProtector::new(key, iv),
        Err(_) => RecordProtector::new(TrafficKey::Aes128([0u8; 16]), [0u8; 12]),
    }
}

impl Opening {
    /// Take over an assembled `ClientHello`; also returns the bytes to send.
    pub fn new(config: &Tls13ClientConfig, draft: ClientHelloDraft) -> (r: (Self, Vec<u8>))
        ensures
            r.0.client_hello@ == draft.raw@,
            r.0.private == draft.key_share_private,
            lists_view(r.0.offered_alpn@) == offered_protocols(config),
            r.0.offered_schemes@ == offered_schemes(config.fingerprint@),
            r.1@ == first_flight(config, draft.raw@),
    {
        let mut out = plaintext_record(CONTENT_HANDSHAKE, &draft.raw);
        let shaped: bool = match config.fingerprint {
            Fingerprint::Off => false,
            _ => true,
        };
        if config.compatibility_ccs && shaped {
            let one = [0x01u8];
            proof {
                assert(one@ =~= seq![1u8]);
            }
            extend(&mut out, &plaintext_record(CONTENT_CHANGE_CIPHER_SPEC, &one));
        }
        (
            Opening {
                client_hello: draft.raw,
                private: draft.key_share_private,
                offered_alpn: protocols_of(config),
                offered_schemes: schemes_of(&config.fingerprint),
            },
            out,
        )
    }

    /// Take a record before the `ServerHello`: the message where the record holds it.
    pub fn on_record(&self, outer: u8, payload: &[u8]) -> (r: Result<Option<Vec<u8>>>)
        ensures
            match hello_in_record(outer, payload@) {
                Err(f) => r is Err && r->Err_0@ == f,
                Ok(None) => r is Ok && r->Ok_0 is None,
                Ok(Some(msg)) => r is Ok && r->Ok_0 is Some && r->Ok_0->Some_0@ == msg && msg.len()
                    >= 4,
            },
    {
        if outer == CONTENT_CHANGE_CIPHER_SPEC {
            Ok(None)
        } else if outer == CONTENT_ALERT {
            Err(alert_error(payload))
        } else if outer == CONTENT_HANDSHAKE {
            match read_hs_message(payload) {
                None => Err(
                    protocol("ServerHello record does not hold a complete handshake message"),
                ),
                Some((ty, _, used)) => {
                    if ty != HS_SERVER_HELLO {
                        return Err(
                            protocol_number(
                                "expected ServerHello (2), got handshake type ",
                                ty,
                                "",
                            ),
                        );
                    }
                    let msg = copy_range(payload, 0, used);
                    proof {
                        assert(msg@ =~= payload@.take(used as int));
                    }
                    Ok(Some(msg))
                },
            }
        } else {
            Err(protocol_number("unexpected record type ", outer, " before ServerHello"))
        }
    }

    /// Take the `ServerHello` message and derive the handshake keys.
    pub fn on_server_hello(self, msg: &[u8]) -> (r: Result<Flight>)
        requires
            msg@.len() >= 4,
        ensures
            match flight_after(
                self.client_hello@,
                self.private@,
                lists_view(self.offered_alpn@),
                self.offered_schemes@,
                msg@,
            ) {
                Ok(flight) => r is Ok && r->Ok_0@ == flight && r->Ok_0.wf(),
                Err(f) => r is Err && r->Err_0@ == f,
            },
    {
        let body = slice_subrange(msg, 4, msg.len());
        proof {
            assert(body@ =~= msg@.skip(4));
        }
        let sh = match parse_server_hello(body) {
            Ok(sh) => sh,
            Err(e) => return Err(e),
        };
        let n: usize = self.client_hello.len();
        let from: usize = if n < SESSION_ID_OFFSET {
            n
        } else {
            SESSION_ID_OFFSET
        };
        let to: usize = if n < SESSION_ID_OFFSET + 32 {
            n
        } else {
            SESSION_ID_OFFSET + 32
        };
        let sent = copy_range(&self.client_hello, from, to);
        proof {
            assert(sent@ =~= sent_session_id(self.client_hello@));
        }
        if !ct_eq(&sh.legacy_session_id_echo, &sent) {
            return Err(
                protocol("ServerHello legacy_session_id_echo does not match the ClientHello"),
            );
        }
        let mut transcript = self.client_hello;
        extend(&mut transcript, msg);
        let ecdhe = x25519(&self.private, &sh.key_share);
        let hash = SuiteHash::for_suite(sh.suite);
        let th = hash.hash(&transcript);
        let secrets = HandshakeSecrets::new(sh.suite, ecdhe.as_slice(), &th);
        let read = protector_for(sh.suite, &secrets.server_hs_traffic);
        let write = protector_for(sh.suite, &secrets.client_hs_traffic);
        Ok(
            Flight {
                suite: sh.suite,
                transcript,
                secrets,
                read,
                write,
                offered_alpn: self.offered_alpn,
                offered_schemes: self.offered_schemes,
                pending: Vec::new(),
                saw_ee: false,
                negotiated_alpn: None,
                leaf: None,
                verified: false,
                finished: None,
            },
        )
    }
}

// ---------------------------------------------------------------------------
// The server's flight
// ---------------------------------------------------------------------------

/// The handshake while the server's flight is read.
pub struct Flight {
    pub suite: u16,
    /// Every handshake message so far, as it stood on the wire.
    pub transcript: Vec<u8>,
    pub secrets: HandshakeSecrets,
    pub read: RecordProtector,
    pub write: RecordProtector,
    pub offered_alpn: Vec<Vec<u8>>,
    pub offered_schemes: Vec<u16>,
    /// Decrypted handshake bytes that have not been taken as messages.
    pub pending: Vec<u8>,
    pub saw_ee: bool,
    pub negotiated_alpn: Option<Vec<u8>>,
    /// The server's leaf certificate, as sent and parsed.
    pub leaf: Option<(Vec<u8>, LeafCertificate)>,
    /// Whether a `CertificateVerify` under the leaf's key has been verified.
    pub verified: bool,
    /// The server's `Finished` message.
    pub finished: Option<Vec<u8>>,
}

/// The state of the flight as a mathematical value.
#[verifier::ext_equal]
pub struct FlightView {
    pub suite: u16,
    pub transcript: Seq<u8>,
    /// The hash that the secrets are derived with.
    pub secrets_hash: SuiteHash,
    pub handshake_secret: Seq<u8>,
    pub client_secret: Seq<u8>,
    pub server_secret: Seq<u8>,
    pub read: ProtectorView,
    pub write: ProtectorView,
    pub offered_alpn: Seq<Seq<u8>>,
    pub offered_schemes: Seq<u16>,
    pub pending: Seq<u8>,
    pub saw_ee: bool,
    pub alpn: Option<Seq<u8>>,
    pub leaf: Option<(Seq<u8>, LeafView)>,
    pub verified: bool,
    pub finished: Option<Seq<u8>>,
}

impl View for Flight {
    type V = FlightView;

    open spec fn view(&self) -> FlightView {
        FlightView {
            suite: self.suite,
            transcript: self.transcript@,
            secrets_hash: self.secrets.hash,
            handshake_secret: self.secrets.handshake_secret@,
            client_secret: self.secrets.client_hs_traffic@,
            server_secret: self.secrets.server_hs_traffic@,
            read: self.read@,
            write: self.write@,
            offered_alpn: lists_view(self.offered_alpn@),
            offered_schemes: self.offered_schemes@,
            pending: self.pending@,
            saw_ee: self.saw_ee,
            alpn: match self.negotiated_alpn {
                None => None,
                Some(p) => Some(p@),
            },
            leaf: match self.leaf {
                None => None,
                Some(l) => Some((l.0@, l.1@)),
            },
            verified: self.verified,
            finished: match self.finished {
                None => None,
                Some(m) => Some(m@),
            },
        }
    }
}

impl FlightView {
    pub open spec fn hash(self) -> SuiteHash {
        hash_for(self.suite)
    }

    /// The state with a message appended to the transcript.
    pub open spec fn with_message(self, msg: Seq<u8>) -> FlightView {
        FlightView { transcript: self.transcript + msg, ..self }
    }

    /// The hash of the transcript.
    pub open spec fn transcript_hash(self) -> Seq<u8> {
        digest_of(self.hash().alg(), self.transcript)
    }
}

/// How a handshake message is answered.
pub enum MessageOutcome {
    /// The handshake goes on in a new state.
    Next(FlightView),
    /// The handshake is aborted.
    Abort(TlsFault),
    /// The certificate is put to the authentication hook; the state holds where it
    /// accepts.
    Ask(Seq<u8>, LeafView, Seq<Seq<u8>>, FlightView),
}

/// The answer to `EncryptedExtensions`.
pub open spec fn on_ee(s: FlightView, body: Seq<u8>, msg: Seq<u8>) -> MessageOutcome {
    if s.saw_ee {
        MessageOutcome::Abort(TlsFault::Protocol("duplicate EncryptedExtensions"@))
    } else {
        match alpn_of(body) {
            Err(f) => MessageOutcome::Abort(f),
            Ok(selected) => if selected is Some && !s.offered_alpn.contains(selected->Some_0) {
                MessageOutcome::Abort(
                    TlsFault::Protocol(
                        "server selected ALPN '"@ + lossy_text(selected->Some_0)
                            + "' which was not offered"@,
                    ),
                )
            } else {
                MessageOutcome::Next(
                    FlightView { saw_ee: true, alpn: selected, ..s.with_message(msg) },
                )
            },
        }
    }
}

/// The answer to `Certificate`.
pub open spec fn on_cert(s: FlightView, body: Seq<u8>, msg: Seq<u8>) -> MessageOutcome {
    if s.leaf is Some {
        MessageOutcome::Abort(TlsFault::Protocol("duplicate Certificate"@))
    } else {
        match chain_of(body) {
            Err(f) => MessageOutcome::Abort(f),
            Ok(chain) => match leaf_read(chain[0]) {
                Err(m) => MessageOutcome::Abort(TlsFault::Certificate(m)),
                Ok(leaf) => MessageOutcome::Ask(
                    chain[0],
                    leaf,
                    chain,
                    FlightView { leaf: Some((chain[0], leaf)), ..s.with_message(msg) },
                ),
            },
        }
    }
}

/// The answer to `CertificateVerify`: the scheme was offered and the signature covers
/// the transcript.
pub open spec fn on_verify(s: FlightView, body: Seq<u8>, msg: Seq<u8>) -> MessageOutcome {
    if s.leaf is None {
        MessageOutcome::Abort(TlsFault::Protocol("CertificateVerify before Certificate"@))
    } else if body.len() < 4 {
        MessageOutcome::Abort(TlsFault::Protocol("truncated CertificateVerify"@))
    } else if body.len() < 4 + u16_at(body, 2) {
        MessageOutcome::Abort(TlsFault::Protocol("truncated CertificateVerify signature"@))
    } else {
        let scheme = u16_at(body, 0) as u16;
        if !s.offered_schemes.contains(scheme) {
            MessageOutcome::Abort(
                TlsFault::Protocol(
                    "server used signature scheme 0x"@ + hex_padded(scheme as nat, 4)
                        + " which was not offered"@,
                ),
            )
        } else if !signature_valid(
            s.leaf->Some_0.1.key,
            scheme,
            verify_content(s.transcript_hash(), false),
            body.subrange(4, 4 + u16_at(body, 2) as int),
        ) {
            MessageOutcome::Abort(
                TlsFault::Certificate(
                    "CertificateVerify signature verification failed (scheme 0x"@ + hex_padded(
                        scheme as nat,
                        4,
                    ) + ", suite 0x"@ + hex_padded(s.suite as nat, 4) + seq![')'],
                ),
            )
        } else {
            MessageOutcome::Next(FlightView { verified: true, ..s.with_message(msg) })
        }
    }
}

/// The verify data of a `Finished` message under a traffic secret.
pub open spec fn finished_data(h: SuiteHash, secret: Seq<u8>, transcript_hash: Seq<u8>) -> Seq<u8> {
    mac_of(
        h.alg(),
        labeled(h, secret, "finished".spec_bytes(), Seq::empty(), h.size()),
        transcript_hash,
    )
}

/// Why a server whose `Finished` is right has not proved that it holds the key of its
/// certificate: nothing where a `CertificateVerify` was verified.
pub open spec fn unproved(s: FlightView) -> Option<TlsFault> {
    if s.leaf is None {
        Some(TlsFault::Certificate("server did not send a Certificate message"@))
    } else if !s.verified {
        Some(TlsFault::Certificate("server did not send a CertificateVerify message"@))
    } else {
        None
    }
}

/// The answer to `Finished`.
pub open spec fn on_finished(s: FlightView, body: Seq<u8>, msg: Seq<u8>) -> MessageOutcome {
    if body.len() != s.hash().size() {
        MessageOutcome::Abort(TlsFault::Protocol("invalid Finished length"@))
    } else if body != finished_data(s.hash(), s.server_secret, s.transcript_hash()) {
        MessageOutcome::Abort(TlsFault::Protocol("server Finished verification failed"@))
    } else {
        match unproved(s) {
            Some(f) => MessageOutcome::Abort(f),
            None => MessageOutcome::Next(FlightView { finished: Some(msg), ..s }),
        }
    }
}

/// The answer to the handshake message `msg` of type `ty`.
pub open spec fn on_hs_message(s: FlightView, ty: u8, msg: Seq<u8>) -> MessageOutcome {
    let body = msg.skip(4);
    if ty == HS_ENCRYPTED_EXTENSIONS {
        on_ee(s, body, msg)
    } else if ty == HS_CERTIFICATE {
        on_cert(s, body, msg)
    } else if ty == HS_CERTIFICATE_VERIFY {
        on_verify(s, body, msg)
    } else if ty == HS_FINISHED {
        on_finished(s, body, msg)
    } else if ty == HS_NEW_SESSION_TICKET {
        MessageOutcome::Next(s)
    } else if ty == HS_KEY_UPDATE {
        MessageOutcome::Abort(TlsFault::Protocol("KeyUpdate before the handshake completed"@))
    } else {
        MessageOutcome::Abort(
            TlsFault::Protocol(
                "unexpected handshake message type "@ + decimal(ty as nat)
                    + " during handshake"@,
            ),
        )
    }
}

/// The verdict of an authentication hook on a certificate.
pub type Verdict = spec_fn(Seq<u8>, LeafView, Seq<Seq<u8>>) -> Option<TlsFault>;

/// `v` may be the verdict of `auth`: the one that it states, or any where it states none.
pub open spec fn may_give<A: ServerAuth>(auth: A, v: Verdict) -> bool {
    auth.states_verdict() ==> v == (|d: Seq<u8>, l: LeafView, c: Seq<Seq<u8>>|
        auth.verdict(d, l, c))
}

/// The state behind the message `msg`, the hook's verdict given, or why the handshake
/// is aborted.
pub open spec fn after_message(s: FlightView, ty: u8, msg: Seq<u8>, v: Verdict) ->
    core::result::Result<FlightView, TlsFault> {
    match on_hs_message(s, ty, msg) {
        MessageOutcome::Next(t) => Ok(t),
        MessageOutcome::Abort(f) => Err(f),
        MessageOutcome::Ask(der, leaf, chain, t) => match v(der, leaf, chain) {
            None => Ok(t),
            Some(f) => Err(f),
        },
    }
}

/// The state behind every complete message that is pending, or why the handshake is
/// aborted.
pub open spec fn after_pending(s: FlightView, v: Verdict) -> core::result::Result<
    FlightView,
    TlsFault,
>
    decreases s.pending.len(),
{
    match hs_at(s.pending) {
        None => Ok(s),
        Some((ty, body)) => {
            let n = 4 + body.len() as int;
            match after_message(s, ty, s.pending.take(n), v) {
                Err(f) => Err(f),
                Ok(t) => {
                    let next = FlightView { pending: s.pending.skip(n), ..t };
                    if next.pending.len() < s.pending.len() {
                        after_pending(next, v)
                    } else {
                        Ok(next)
                    }
                },
            }
        },
    }
}

/// The handshake bytes in a record during the flight, and the state of the protection
/// behind it.
pub open spec fn flight_plaintext(s: FlightView, outer: u8, payload: Seq<u8>) ->
    core::result::Result<Seq<u8>, TlsFault> {
    if outer == CONTENT_CHANGE_CIPHER_SPEC {
        Ok(Seq::empty())
    } else if outer == CONTENT_ALERT {
        Err(alert_fault(payload))
    } else if outer == CONTENT_HANDSHAKE {
        Err(TlsFault::Protocol("unprotected handshake record after ServerHello"@))
    } else if outer == CONTENT_APPLICATION_DATA {
        match s.read.content(payload) {
            Err(f) => Err(f),
            Ok((inner, data)) => if inner == CONTENT_HANDSHAKE {
                Ok(data)
            } else if inner == CONTENT_ALERT {
                Err(alert_fault(data))
            } else {
                Err(
                    TlsFault::Protocol(
                        "unexpected inner content type "@ + decimal(inner as nat)
                            + " during handshake"@,
                    ),
                )
            },
        }
    } else {
        Err(
            TlsFault::Protocol(
                "unexpected record type "@ + decimal(outer as nat) + " during handshake"@,
            ),
        )
    }
}

/// The state behind a record of the flight, the hook's verdict given.
pub open spec fn after_record(s: FlightView, outer: u8, payload: Seq<u8>, v: Verdict) ->
    core::result::Result<FlightView, TlsFault> {
    match flight_plaintext(s, outer, payload) {
        Err(f) => Err(f),
        Ok(data) => if outer == CONTENT_CHANGE_CIPHER_SPEC {
            Ok(s)
        } else {
            after_pending(
                FlightView { read: s.read.after(payload), pending: s.pending + data, ..s },
                v,
            )
        },
    }
}

impl Flight {
    /// The suite is one with keys, and the secrets belong to it.
    pub open spec fn wf(&self) -> bool {
        known_suite(self.suite) && self.secrets.hash == hash_for(self.suite)
    }

    fn on_encrypted_extensions(&mut self, body: &[u8], msg: &[u8]) -> (r: Result<()>)
        requires
            old(self).wf(),
        ensures
            final(self).wf(),
            match on_ee(old(self)@, body@, msg@) {
                MessageOutcome::Next(t) => r is Ok && final(self)@ == t,
                MessageOutcome::Abort(f) => r is Err && r->Err_0@ == f,
                MessageOutcome::Ask(_, _, _, _) => true,
            },
    {
        if self.saw_ee {
            return Err(protocol("duplicate EncryptedExtensions"));
        }
        let selected = match parse_alpn_extension(body) {
            Ok(s) => s,
            Err(e) => return Err(e),
        };
        if let Some(proto) = &selected {
            if !holds_bytes(&self.offered_alpn, proto) {
                let mut m = owned("server selected ALPN '");
                m.append(lossy(proto).as_str());
                m.append("' which was not offered");
                return Err(Tls13Error::Protocol(m));
            }
        }
        let ghost before = self@;
        self.saw_ee = true;
        self.negotiated_alpn = selected;
        extend(&mut self.transcript, msg);
        proof {
            let alpn = self@.alpn;
            assert(self@ =~= FlightView { saw_ee: true, alpn, ..before.with_message(msg@) });
        }
        Ok(())
    }

    /// Read a `Certificate` body: the leaf as sent, the leaf parsed, the chain.
    pub fn read_certificate(body: &[u8]) -> (r: Result<(Vec<u8>, LeafCertificate, Vec<Vec<u8>>)>)
        ensures
            match chain_of(body@) {
                Err(f) => r is Err && r->Err_0@ == f,
                Ok(chain) => match leaf_read(chain[0]) {
                    Err(m) => r is Err && r->Err_0@ == TlsFault::Certificate(m),
                    Ok(leaf) => r is Ok && r->Ok_0.0@ == chain[0] && r->Ok_0.1@ == leaf
                        && lists_view(r->Ok_0.2@) == chain,
                },
            },
    {
        let chain = match parse_certificate_message(body) {
            Ok(c) => c,
            Err(e) => return Err(e),
        };
        proof {
            assert(chain@[0]@ == lists_view(chain@)[0]);
        }
        let der = slice_to_vec(chain[0].as_slice());
        match read_leaf(&der) {
            Ok(leaf) => Ok((der, leaf, chain)),
            Err(m) => Err(Tls13Error::Certificate(m)),
        }
    }

    /// Take the verdict on the certificate of the message `msg`: the leaf is kept where
    /// it was accepted.
    pub fn on_verdict(
        &mut self,
        der: Vec<u8>,
        leaf: LeafCertificate,
        msg: &[u8],
        verdict: Result<()>,
    ) -> (r: Result<()>)
        requires
            old(self).wf(),
        ensures
            final(self).wf(),
            match verdict {
                Ok(_) => r is Ok && final(self)@ == (FlightView {
                    leaf: Some((der@, leaf@)),
                    ..old(self)@.with_message(msg@)
                }),
                Err(e) => r == Err::<(), Tls13Error>(e) && final(self)@ == old(self)@,
            },
    {
        match verdict {
            Ok(_) => {
                let ghost before = self@;
                let ghost kept = (der@, leaf@);
                self.leaf = Some((der, leaf));
                extend(&mut self.transcript, msg);
                proof {
                    assert(self@ =~= FlightView {
                        leaf: Some(kept),
                        ..before.with_message(msg@)
                    });
                }
                Ok(())
            },
            Err(e) => Err(e),
        }
    }

    fn on_certificate_verify(&mut self, body: &[u8], msg: &[u8]) -> (r: Result<()>)
        requires
            old(self).wf(),
        ensures
            final(self).wf(),
            match on_verify(old(self)@, body@, msg@) {
                MessageOutcome::Next(t) => r is Ok && final(self)@ == t,
                MessageOutcome::Abort(f) => r is Err && r->Err_0@ == f,
                MessageOutcome::Ask(_, _, _, _) => true,
            },
    {
        let ghost before = self@;
        let valid: bool = match &self.leaf {
            None => return Err(protocol("CertificateVerify before Certificate")),
            Some((_, cert)) => {
                if body.len() < 4 {
                    return Err(protocol("truncated CertificateVerify"));
                }
                let scheme: u16 = read_u16(body, 0);
                let sig_len: usize = read_u16(body, 2) as usize;
                if body.len() - 4 < sig_len {
                    return Err(protocol("truncated CertificateVerify signature"));
                }
                if !holds_u16(&self.offered_schemes, scheme) {
                    let mut m = owned("server used signature scheme 0x");
                    push_hex_padded(&mut m, scheme as u64, 4);
                    m.append(" which was not offered");
                    return Err(Tls13Error::Protocol(m));
                }
                let th = SuiteHash::for_suite(self.suite).hash(&self.transcript);
                let content = cert_verify_content(&th, false);
                verify_signature(&cert.key, scheme, &content, slice_subrange(body, 4, 4 + sig_len))
            },
        };
        if !valid {
            let mut m = owned("CertificateVerify signature verification failed (scheme 0x");
            push_hex_padded(&mut m, read_u16(body, 0) as u64, 4);
            m.append(", suite 0x");
            push_hex_padded(&mut m, self.suite as u64, 4);
            crate::text::push_char(&mut m, ')');
            proof {
                assert(m@ =~= "CertificateVerify signature verification failed (scheme 0x"@
                    + hex_padded(u16_at(body@, 0), 4) + ", suite 0x"@ + hex_padded(
                    self.suite as nat,
                    4,
                ) + seq![')']);
            }
            return Err(Tls13Error::Certificate(m));
        }
        self.verified = true;
        extend(&mut self.transcript, msg);
        proof {
            assert(self@ =~= FlightView { verified: true, ..before.with_message(msg@) });
        }
        Ok(())
    }

    fn check_proved(&self) -> (r: Option<Tls13Error>)
        ensures
            match unproved(self@) {
                None => r is None,
                Some(f) => r is Some && r->Some_0@ == f,
            },
    {
        if self.leaf.is_none() {
            Some(certificate("server did not send a Certificate message"))
        } else if !self.verified {
            Some(certificate("server did not send a CertificateVerify message"))
        } else {
            None
        }
    }

    fn on_server_finished(&mut self, body: &[u8], msg: &[u8]) -> (r: Result<()>)
        requires
            old(self).wf(),
        ensures
            final(self).wf(),
            match on_finished(old(self)@, body@, msg@) {
                MessageOutcome::Next(t) => r is Ok && final(self)@ == t,
                MessageOutcome::Abort(f) => r is Err && r->Err_0@ == f,
                MessageOutcome::Ask(_, _, _, _) => true,
            },
    {
        let ghost before = self@;
        let hash = SuiteHash::for_suite(self.suite);
        if body.len() != hash.len() {
            return Err(protocol("invalid Finished length"));
        }
        let finished_key = hash.finished_key(&self.secrets.server_hs_traffic);
        let th = hash.hash(&self.transcript);
        let expected = hash.hmac(&finished_key, &th);
        if !ct_eq(&expected, body) {
            return Err(protocol("server Finished verification failed"));
        }
        match self.check_proved() {
            Some(e) => return Err(e),
            None => {},
        }
        self.finished = Some(slice_to_vec(msg));
        proof {
            assert(self@ =~= FlightView { finished: Some(msg@), ..before });
        }
        Ok(())
    }

    /// Take one handshake message of the flight. The hook is asked about a certificate.
    pub fn on_message<A: ServerAuth>(&mut self, ty: u8, msg: &[u8], auth: &mut A) -> (r: Result<()>)
        requires
            old(self).wf(),
            msg@.len() >= 4,
        ensures
            final(self).wf(),
            exists|v: Verdict| #[trigger]
                may_give(*old(auth), v) && match after_message(old(self)@, ty, msg@, v) {
                    Ok(t) => r is Ok && final(self)@ == t,
                    Err(f) => r is Err && r->Err_0@ == f,
                },
            ty != HS_CERTIFICATE ==> *final(auth) == *old(auth),
            ty == HS_CERTIFICATE && r is Ok ==> final(self)@.leaf is Some,
    {
        let ghost stated: Verdict = |d: Seq<u8>, l: LeafView, c: Seq<Seq<u8>>|
            auth.verdict(d, l, c);
        let body = slice_subrange(msg, 4, msg.len());
        proof {
            assert(body@ =~= msg@.skip(4));
            assert(may_give(*auth, stated));
        }
        if ty == HS_ENCRYPTED_EXTENSIONS {
            self.on_encrypted_extensions(body, msg)
        } else if ty == HS_CERTIFICATE {
            if self.leaf.is_some() {
                return Err(protocol("duplicate Certificate"));
            }
            match Self::read_certificate(body) {
                Err(e) => Err(e),
                Ok((der, leaf, chain)) => {
                    let verdict = auth.verify_certificate(&der, &leaf, &chain);
                    proof {
                        let fault: Option<TlsFault> = if verdict is Ok {
                            None
                        } else {
                            Some(verdict->Err_0@)
                        };
                        let given: Verdict = |d: Seq<u8>, l: LeafView, c: Seq<Seq<u8>>| fault;
                        if !old(auth).states_verdict() {
                            assert(may_give(*old(auth), given));
                        }
                    }
                    self.on_verdict(der, leaf, msg, verdict)
                },
            }
        } else if ty == HS_CERTIFICATE_VERIFY {
            self.on_certificate_verify(body, msg)
        } else if ty == HS_FINISHED {
            self.on_server_finished(body, msg)
        } else if ty == HS_NEW_SESSION_TICKET {
            Ok(())
        } else if ty == HS_KEY_UPDATE {
            Err(protocol("KeyUpdate before the handshake completed"))
        } else {
            Err(
                protocol_number(
                    "unexpected handshake message type ",
                    ty,
                    " during handshake",
                ),
            )
        }
    }

    fn drain<A: ServerAuth>(&mut self, auth: &mut A) -> (r: Result<()>)
        requires
            old(self).wf(),
        ensures
            final(self).wf(),
            exists|v: Verdict| #[trigger]
                may_give(*old(auth), v) && match after_pending(old(self)@, v) {
                    Ok(t) => r is Ok && final(self)@ == t,
                    Err(f) => r is Err && r->Err_0@ == f,
                },
    {
        let ghost stated = |d: Seq<u8>, l: LeafView, c: Seq<Seq<u8>>| old(auth).verdict(d, l, c);
        let ghost mut v: Verdict = stated;
        loop
            invariant
                self.wf(),
                may_give(*old(auth), v),
                after_pending(old(self)@, v) == after_pending(self@, v),
                self@.leaf is None ==> *auth == *old(auth) && forall|w: Verdict| #[trigger]
                    after_pending(old(self)@, w) == after_pending(self@, w),
            decreases self.pending@.len(),
        {
            let ghost before = self@;
            let (ty, used): (u8, usize) = match read_hs_message(&self.pending) {
                None => return Ok(()),
                Some((ty, _, used)) => (ty, used),
            };
            let msg = copy_range(&self.pending, 0, used);
            proof {
                assert(msg@ =~= before.pending.take(used as int));
            }
            let ghost asked = *auth;
            let answer = self.on_message(ty, &msg, auth);
            proof {
                let w = choose|w: Verdict| #[trigger]
                    may_give(asked, w) && match after_message(before, ty, msg@, w) {
                        Ok(t) => answer is Ok && self@ == t,
                        Err(f) => answer is Err && answer->Err_0@ == f,
                    };
                if before.leaf is None {
                    v = w;
                    assert(after_pending(old(self)@, w) == after_pending(before, w));
                } else {
                    assert(after_message(before, ty, msg@, w) == after_message(before, ty, msg@, v));
                }
            }
            match answer {
                Ok(_) => {},
                Err(e) => return Err(e),
            }
            let ghost t = self@;
            proof {
                assert(t.pending == before.pending);
            }
            drop_front(&mut self.pending, used);
            proof {
                assert(self@ =~= FlightView { pending: before.pending.skip(used as int), ..t });
                if self@.leaf is None {
                    assert forall|w: Verdict| #[trigger]
                        after_pending(old(self)@, w) == after_pending(self@, w) by {
                        assert(after_pending(old(self)@, w) == after_pending(before, w));
                        assert(after_message(before, ty, msg@, w) == after_message(
                            before,
                            ty,
                            msg@,
                            v,
                        ));
                    }
                }
            }
        }
    }

    /// Take one record of the flight: decrypt it, and take every handshake message that
    /// is complete. The hook is asked about the certificate.
    pub fn on_record<A: ServerAuth>(&mut self, outer: u8, payload: &[u8], auth: &mut A) -> (r: Result<
        (),
    >)
        requires
            old(self).wf(),
        ensures
            final(self).wf(),
            exists|v: Verdict| #[trigger]
                may_give(*old(auth), v) && match after_record(old(self)@, outer, payload@, v) {
                    Ok(t) => r is Ok && final(self)@ == t,
                    Err(f) => r is Err && r->Err_0@ == f,
                },
    {
        let ghost before = self@;
        let ghost stated: Verdict = |d: Seq<u8>, l: LeafView, c: Seq<Seq<u8>>|
            auth.verdict(d, l, c);
        assert(may_give(*auth, stated));
        if outer == CONTENT_CHANGE_CIPHER_SPEC {
            return Ok(());
        }
        if outer == CONTENT_ALERT {
            return Err(alert_error(payload));
        }
        if outer == CONTENT_HANDSHAKE {
            return Err(protocol("unprotected handshake record after ServerHello"));
        }
        if outer != CONTENT_APPLICATION_DATA {
            return Err(protocol_number("unexpected record type ", outer, " during handshake"));
        }
        let (inner, data) = match self.read.open(payload) {
            Ok(p) => p,
            Err(e) => return Err(e),
        };
        if inner == CONTENT_ALERT {
            return Err(alert_error(&data));
        }
        if inner != CONTENT_HANDSHAKE {
            return Err(
                protocol_number("unexpected inner content type ", inner, " during handshake"),
            );
        }
        extend(&mut self.pending, &data);
        proof {
            assert(self@ =~= FlightView {
                read: before.read.after(payload@),
                pending: before.pending + data@,
                ..before
            });
        }
        self.drain(auth)
    }

    /// Whether the server's `Finished` has been verified.
    pub fn is_finished(&self) -> (r: bool)
        ensures
            r == (self@.finished is Some),
    {
        self.finished.is_some()
    }
}

/// What completes a handshake whose server flight has been read: the record with the
/// client's `Finished`, and the state of the stream.
pub open spec fn completion(s: FlightView, server_name: Seq<char>) -> core::result::Result<
    (Seq<u8>, StreamView),
    TlsFault,
> {
    if unproved(s) is Some {
        Err(unproved(s)->Some_0)
    } else {
        let h = s.hash();
        let th = digest_of(h.alg(), s.transcript + s.finished->Some_0);
        let master = master_secret_of(h, s.handshake_secret);
        let client = derived(h, master, "c ap traffic".spec_bytes(), th);
        let server = derived(h, master, "s ap traffic".spec_bytes(), th);
        Ok(
            (
                s.write.record(
                    CONTENT_HANDSHAKE,
                    hs_bytes(HS_FINISHED, finished_data(h, s.client_secret, th)),
                ),
                StreamView {
                    read: fresh_protector(s.suite, server),
                    write: fresh_protector(s.suite, client),
                    read_secret: server,
                    write_secret: client,
                    suite: s.suite,
                    server_name,
                    alpn: s.alpn,
                    certificate: Some(s.leaf->Some_0.0),
                    plaintext: Seq::empty(),
                    read_buf: Seq::empty(),
                    closed: false,
                    peer_closed: false,
                    key_update_response: false,
                },
            ),
        )
    }
}

impl Flight {
    /// Complete the handshake: the record to send, and the established stream.
    pub fn complete(self, server_name: String) -> (r: Result<(Vec<u8>, Tls13Stream)>)
        requires
            self.wf(),
            self@.finished is Some,
        ensures
            match completion(self@, server_name@) {
                Ok((record, stream)) => r is Ok && r->Ok_0.0@ == record && r->Ok_0.1@ == stream
                    && r->Ok_0.1.wf(),
                Err(f) => r is Err && r->Err_0@ == f,
            },
    {
        let ghost s = self@;
        match self.check_proved() {
            Some(e) => return Err(e),
            None => {},
        }
        let (leaf_der, _) = match self.leaf {
            None => return Err(certificate("server did not send a Certificate message")),
            Some(l) => l,
        };
        let finished = match self.finished {
            None => Vec::new(),
            Some(m) => m,
        };
        let mut transcript = self.transcript;
        extend(&mut transcript, &finished);
        let hash = SuiteHash::for_suite(self.suite);
        let th = hash.hash(&transcript);
        let app = self.secrets.application(&th);
        let client_finished_key = hash.finished_key(&self.secrets.client_hs_traffic);
        let verify_data = hash.hmac(&client_finished_key, &th);
        let client_finished = hs_message(HS_FINISHED, &verify_data);
        proof {
            crate::wire::lemma_be_bytes_len(verify_data@.len(), 3);
        }
        let mut write = self.write;
        let record = match write.seal(CONTENT_HANDSHAKE, &client_finished) {
            Ok(r) => r,
            Err(e) => return Err(e),
        };
        let stream = Tls13Stream {
            read: protector_for(self.suite, &app.server_app_traffic),
            write: protector_for(self.suite, &app.client_app_traffic),
            read_secret: app.server_app_traffic,
            write_secret: app.client_app_traffic,
            suite: self.suite,
            server_name,
            negotiated_alpn: self.negotiated_alpn,
            peer_certificate: Some(leaf_der),
            plaintext: Vec::new(),
            read_buf: Vec::new(),
            closed: false,
            peer_closed: false,
            key_update_response: false,
        };
        proof {
            assert(stream@ =~= completion(s, server_name@)->Ok_0.1);
        }
        Ok((record, stream))
    }
}

// ---------------------------------------------------------------------------
// The established stream
// ---------------------------------------------------------------------------

/// An established connection: what is needed to turn records into data and back.
pub struct Tls13Stream {
    pub read: RecordProtector,
    pub write: RecordProtector,
    pub read_secret: Vec<u8>,
    pub write_secret: Vec<u8>,
    pub suite: u16,
    pub server_name: String,
    pub negotiated_alpn: Option<Vec<u8>>,
    pub peer_certificate: Option<Vec<u8>>,
    /// Decrypted data that has not been handed out.
    pub plaintext: Vec<u8>,
    /// Received bytes of an incomplete record.
    pub read_buf: Vec<u8>,
    pub closed: bool,
    pub peer_closed: bool,
    pub key_update_response: bool,
}

/// A stream as a mathematical value.
#[verifier::ext_equal]
pub struct StreamView {
    pub read: ProtectorView,
    pub write: ProtectorView,
    pub read_secret: Seq<u8>,
    pub write_secret: Seq<u8>,
    pub suite: u16,
    pub server_name: Seq<char>,
    pub alpn: Option<Seq<u8>>,
    pub certificate: Option<Seq<u8>>,
    pub plaintext: Seq<u8>,
    pub read_buf: Seq<u8>,
    pub closed: bool,
    pub peer_closed: bool,
    pub key_update_response: bool,
}

impl View for Tls13Stream {
    type V = StreamView;

    open spec fn view(&self) -> StreamView {
        StreamView {
            read: self.read@,
            write: self.write@,
            read_secret: self.read_secret@,
            write_secret: self.write_secret@,
            suite: self.suite,
            server_name: self.server_name@,
            alpn: match self.negotiated_alpn {
                None => None,
                Some(p) => Some(p@),
            },
            certificate: match self.peer_certificate {
                None => None,
                Some(c) => Some(c@),
            },
            plaintext: self.plaintext@,
            read_buf: self.read_buf@,
            closed: self.closed,
            peer_closed: self.peer_closed,
            key_update_response: self.key_update_response,
        }
    }
}

/// The traffic secret behind a `KeyUpdate`.
pub open spec fn next_secret(suite: u16, secret: Seq<u8>) -> Seq<u8> {
    labeled(
        hash_for(suite),
        secret,
        "traffic upd".spec_bytes(),
        Seq::empty(),
        hash_for(suite).size(),
    )
}

/// The state behind a post-handshake message, or why it is refused.
pub open spec fn after_post(s: StreamView, ty: u8, body: Seq<u8>) -> core::result::Result<
    StreamView,
    TlsFault,
> {
    if ty == HS_NEW_SESSION_TICKET {
        Ok(s)
    } else if ty == HS_KEY_UPDATE {
        if body.len() != 1 || body[0] > 1 {
            Err(TlsFault::Protocol("invalid KeyUpdate message"@))
        } else {
            let secret = next_secret(s.suite, s.read_secret);
            Ok(
                StreamView {
                    read_secret: secret,
                    read: fresh_protector(s.suite, secret),
                    key_update_response: s.key_update_response || body[0] == 1,
                    ..s
                },
            )
        }
    } else {
        Err(
            TlsFault::Protocol(
                "unexpected post-handshake message type "@ + decimal(ty as nat) + ""@,
            ),
        )
    }
}

/// The state behind the complete messages of `data` from `pos` on.
pub open spec fn after_posts(s: StreamView, data: Seq<u8>, pos: int) -> core::result::Result<
    StreamView,
    TlsFault,
>
    decreases data.len() - pos,
{
    match hs_at(data.skip(pos)) {
        None => Ok(s),
        Some((ty, body)) => match after_post(s, ty, body) {
            Err(f) => Err(f),
            Ok(t) => if 0 <= pos < data.len() {
                after_posts(t, data, pos + 4 + body.len())
            } else {
                Ok(t)
            },
        },
    }
}

/// The state behind those messages of `data` from `pos` on that stand before the first
/// one that is refused.
pub open spec fn posts_taken(s: StreamView, data: Seq<u8>, pos: int) -> StreamView
    decreases data.len() - pos,
{
    match hs_at(data.skip(pos)) {
        None => s,
        Some((ty, body)) => match after_post(s, ty, body) {
            Err(_) => s,
            Ok(t) => if 0 <= pos < data.len() {
                posts_taken(t, data, pos + 4 + body.len())
            } else {
                t
            },
        },
    }
}

/// What reading from a stream comes to.
pub enum FillOutcome {
    /// New data stands in the plaintext buffer.
    Data,
    /// The peer closed the connection.
    Closed,
    /// The buffered bytes hold no complete record: more have to be received.
    NeedMore,
    /// The connection failed.
    Failed(TlsFault),
}

/// What an alert after the handshake comes to: nothing where it is a warning other than
/// the close alert.
pub open spec fn alert_outcome(payload: Seq<u8>) -> Option<FillOutcome> {
    let (level, description) = alert_of(payload);
    if description == 0 {
        Some(FillOutcome::Closed)
    } else if level == ALERT_FATAL {
        Some(FillOutcome::Failed(TlsFault::Alert(level, description)))
    } else {
        None
    }
}

/// What one record comes to, nothing where reading goes on, and the state behind it.
pub open spec fn take_record(s: StreamView, outer: u8, body: Seq<u8>) -> (
    Option<FillOutcome>,
    StreamView,
) {
    if outer == CONTENT_CHANGE_CIPHER_SPEC {
        (None, s)
    } else if outer == CONTENT_HANDSHAKE {
        (
            Some(
                FillOutcome::Failed(
                    TlsFault::Protocol("unprotected handshake record after the handshake"@),
                ),
            ),
            s,
        )
    } else if outer == CONTENT_ALERT {
        (
            alert_outcome(body),
            StreamView { peer_closed: s.peer_closed || alert_of(body).1 == 0, ..s },
        )
    } else if outer == CONTENT_APPLICATION_DATA {
        let t = StreamView { read: s.read.after(body), ..s };
        match s.read.content(body) {
            Err(f) => (Some(FillOutcome::Failed(f)), t),
            Ok((inner, data)) => if inner == CONTENT_APPLICATION_DATA {
                if data.len() > 0 {
                    (
                        Some(FillOutcome::Data),
                        StreamView { plaintext: s.plaintext + data, ..t },
                    )
                } else {
                    (None, t)
                }
            } else if inner == CONTENT_HANDSHAKE {
                match after_posts(t, data, 0) {
                    Ok(u) => (None, u),
                    Err(f) => (Some(FillOutcome::Failed(f)), posts_taken(t, data, 0)),
                }
            } else if inner == CONTENT_ALERT {
                (
                    alert_outcome(data),
                    StreamView { peer_closed: s.peer_closed || alert_of(data).1 == 0, ..t },
                )
            } else {
                (
                    Some(
                        FillOutcome::Failed(
                            TlsFault::Protocol(
                                "invalid inner content type "@ + decimal(inner as nat) + ""@,
                            ),
                        ),
                    ),
                    t,
                )
            },
        }
    } else {
        (
            Some(
                FillOutcome::Failed(
                    TlsFault::Protocol("unexpected record type "@ + decimal(outer as nat) + ""@),
                ),
            ),
            s,
        )
    }
}

/// What the buffered bytes come to, and the state behind them. Nothing is read once the
/// peer has closed.
pub open spec fn fill(s: StreamView) -> (FillOutcome, StreamView)
    decreases s.read_buf.len(),
{
    if s.peer_closed {
        (FillOutcome::Closed, s)
    } else if s.read_buf.len() < 5 {
        (FillOutcome::NeedMore, s)
    } else {
        match header_at(s.read_buf) {
            Err(f) => (FillOutcome::Failed(f), s),
            Ok((outer, len)) => if s.read_buf.len() < 5 + len {
                (FillOutcome::NeedMore, s)
            } else {
                let t = StreamView { read_buf: s.read_buf.skip(5 + len as int), ..s };
                let (outcome, u) = take_record(t, outer, s.read_buf.subrange(5, 5 + len as int));
                match outcome {
                    Some(o) => (o, u),
                    None => if u.read_buf.len() < s.read_buf.len() {
                        fill(u)
                    } else {
                        (FillOutcome::NeedMore, u)
                    },
                }
            },
        }
    }
}

/// What reading from a stream comes to.
#[derive(Debug, Clone, Copy, PartialEq, Eq, Structural)]
pub enum Fill {
    /// New data stands in the plaintext buffer.
    Data,
    /// The peer closed the connection.
    Closed,
    /// More bytes have to be received.
    NeedMore,
}

/// Whether a result is what [`fill`] says.
pub open spec fn fill_matches(r: Result<Fill>, o: FillOutcome) -> bool {
    match o {
        FillOutcome::Data => r == Ok::<Fill, Tls13Error>(Fill::Data),
        FillOutcome::Closed => r == Ok::<Fill, Tls13Error>(Fill::Closed),
        FillOutcome::NeedMore => r == Ok::<Fill, Tls13Error>(Fill::NeedMore),
        FillOutcome::Failed(f) => r is Err && r->Err_0@ == f,
    }
}

/// The records that carry `data` in pieces of at most the record limit, one after
/// another, and the protection behind them.
pub open spec fn data_records(p: ProtectorView, data: Seq<u8>) -> (Seq<u8>, ProtectorView)
    decreases data.len(),
{
    if data.len() == 0 {
        (Seq::empty(), p)
    } else {
        let n = if data.len() < MAX_PLAINTEXT {
            data.len() as int
        } else {
            MAX_PLAINTEXT as int
        };
        let (rest, q) = data_records(p.next(), data.skip(n));
        (p.record(CONTENT_APPLICATION_DATA, data.take(n)) + rest, q)
    }
}

/// Whether a reader whose protection is `p` gets `data` out of `records`: each record is
/// whole and opens to the next piece of the data.
pub open spec fn carries(p: ProtectorView, records: Seq<u8>, data: Seq<u8>) -> bool
    decreases data.len(),
{
    if data.len() == 0 {
        records.len() == 0
    } else {
        let n = if data.len() < MAX_PLAINTEXT {
            data.len() as int
        } else {
            MAX_PLAINTEXT as int
        };
        match header_at(records) {
            Err(_) => false,
            Ok((outer, len)) => {
                let body = records.subrange(5, 5 + len as int);
                &&& outer == CONTENT_APPLICATION_DATA
                &&& records.len() >= 5 + len
                &&& p.content(body) == Ok::<(u8, Seq<u8>), TlsFault>(
                    (CONTENT_APPLICATION_DATA, data.take(n)),
                )
                &&& p.after(body) == p.next()
                &&& carries(p.next(), records.skip(5 + len as int), data.skip(n))
            },
        }
    }
}

proof fn lemma_carries_first(p: ProtectorView, record: Seq<u8>, rest: Seq<u8>, data: Seq<u8>, n: int)
    requires
        data.len() > 0,
        n == if data.len() < MAX_PLAINTEXT {
            data.len() as int
        } else {
            MAX_PLAINTEXT as int
        },
        record == p.record(CONTENT_APPLICATION_DATA, data.take(n)),
        record.len() == n + 22,
        p.content(record.skip(5)) == Ok::<(u8, Seq<u8>), TlsFault>(
            (CONTENT_APPLICATION_DATA, data.take(n)),
        ),
        p.after(record.skip(5)) == p.next(),
        carries(p.next(), rest, data.skip(n)),
    ensures
        carries(p, record + rest, data),
{
    let len = (n + 17) as nat;
    lemma_pow256();
    crate::wire::lemma_be_round_trip(len, 2);
    let all = record + rest;
    assert(all.subrange(3, 5) =~= crate::wire::be_bytes(len, 2));
    assert(header_at(all) == Ok::<(u8, nat), TlsFault>((CONTENT_APPLICATION_DATA, len)));
    assert(all.subrange(5, 5 + len as int) =~= record.skip(5));
    assert(all.skip(5 + len as int) =~= rest);
}

impl StreamView {
    /// The state after a `KeyUpdate` was sent.
    pub open spec fn updated(self) -> StreamView {
        let secret = next_secret(self.suite, self.write_secret);
        StreamView {
            write_secret: secret,
            write: fresh_protector(self.suite, secret),
            key_update_response: false,
            ..self
        }
    }

    /// The record that announces new keys.
    pub open spec fn key_update_record(self, request: bool) -> Seq<u8> {
        self.write.record(
            CONTENT_HANDSHAKE,
            hs_bytes(
                HS_KEY_UPDATE,
                seq![if request {
                    1u8
                } else {
                    0u8
                }],
            ),
        )
    }

    /// The bytes that carry `data` and the state behind them: a requested `KeyUpdate`
    /// goes out first.
    pub open spec fn sends(self, data: Seq<u8>) -> (Seq<u8>, StreamView) {
        let (first, s) = if self.key_update_response {
            (self.key_update_record(false), self.updated())
        } else {
            (Seq::empty(), self)
        };
        let (records, write) = data_records(s.write, data);
        (first + records, StreamView { write, ..s })
    }
}

impl Tls13Stream {
    pub open spec fn wf(&self) -> bool {
        known_suite(self.suite)
    }

    /// The negotiated cipher suite.
    pub fn suite(&self) -> (r: u16)
        ensures
            r == self@.suite,
    {
        self.suite
    }

    /// The negotiated ALPN protocol, if any.
    pub fn negotiated_alpn(&self) -> (r: Option<&[u8]>)
        ensures
            match self@.alpn {
                None => r is None,
                Some(p) => r is Some && r->Some_0@ == p,
            },
    {
        match &self.negotiated_alpn {
            None => None,
            Some(p) => Some(p.as_slice()),
        }
    }

    /// The server name that the connection was authenticated for.
    pub fn server_name(&self) -> (r: &str)
        ensures
            r@ == self@.server_name,
    {
        self.server_name.as_str()
    }

    /// The leaf certificate as the server sent it.
    pub fn peer_certificate_der(&self) -> (r: Option<&[u8]>)
        ensures
            match self@.certificate {
                None => r is None,
                Some(c) => r is Some && r->Some_0@ == c,
            },
    {
        match &self.peer_certificate {
            None => None,
            Some(c) => Some(c.as_slice()),
        }
    }

    /// Close the write side: the record with the close alert, nothing where it was
    /// closed already.
    pub fn close_notify(&mut self) -> (r: Result<Option<Vec<u8>>>)
        requires
            old(self).wf(),
        ensures
            final(self).wf(),
            r is Ok,
            old(self)@.closed ==> r->Ok_0 is None && final(self)@ == old(self)@,
            !old(self)@.closed ==> {
                &&& r->Ok_0 is Some
                &&& r->Ok_0->Some_0@ == old(self)@.write.record(
                    CONTENT_ALERT,
                    seq![ALERT_WARNING, 0u8],
                )
                &&& final(self)@ == (StreamView {
                    closed: true,
                    write: old(self)@.write.next(),
                    ..old(self)@
                })
            },
    {
        if self.closed {
            return Ok(None);
        }
        let ghost before = self@;
        self.closed = true;
        let alert = [ALERT_WARNING, 0u8];
        proof {
            assert(alert@ =~= seq![ALERT_WARNING, 0u8]);
        }
        let r = match self.write.seal(CONTENT_ALERT, &alert) {
            Ok(record) => Ok(Some(record)),
            Err(e) => Err(e),
        };
        proof {
            assert(self@ =~= StreamView { closed: true, write: before.write.next(), ..before });
        }
        r
    }

    /// Announce new keys and roll the write key: the record to send.
    pub fn key_update(&mut self, request_peer_update: bool) -> (r: Result<Vec<u8>>)
        requires
            old(self).wf(),
        ensures
            final(self).wf(),
            r is Ok,
            r->Ok_0@ == old(self)@.key_update_record(request_peer_update),
            final(self)@ == (StreamView {
                key_update_response: old(self)@.key_update_response,
                ..old(self)@.updated()
            }),
    {
        let ghost before = self@;
        let body: [u8; 1] = if request_peer_update {
            [1u8]
        } else {
            [0u8]
        };
        let msg = hs_message(HS_KEY_UPDATE, &body);
        proof {
            assert(body@ =~= seq![if request_peer_update {
                1u8
            } else {
                0u8
            }]);
            crate::wire::lemma_be_bytes_len(1, 3);
        }
        let record = match self.write.seal(CONTENT_HANDSHAKE, &msg) {
            Ok(r) => r,
            Err(e) => return Err(e),
        };
        let hash = SuiteHash::for_suite(self.suite);
        self.write_secret = hash.next_traffic_secret(&self.write_secret);
        self.write = protector_for(self.suite, &self.write_secret);
        proof {
            assert(self@ =~= StreamView {
                key_update_response: before.key_update_response,
                ..before.updated()
            });
        }
        Ok(record)
    }

    fn on_post_handshake(&mut self, body: &[u8], msg_type: u8) -> (r: Result<()>)
        requires
            old(self).wf(),
        ensures
            final(self).wf(),
            match after_post(old(self)@, msg_type, body@) {
                Ok(t) => r is Ok && final(self)@ == t,
                Err(f) => r is Err && r->Err_0@ == f && final(self)@ == old(self)@,
            },
    {
        let ghost before = self@;
        if msg_type == HS_NEW_SESSION_TICKET {
            Ok(())
        } else if msg_type == HS_KEY_UPDATE {
            if body.len() != 1 || body[0] > 1 {
                return Err(protocol("invalid KeyUpdate message"));
            }
            let hash = SuiteHash::for_suite(self.suite);
            self.read_secret = hash.next_traffic_secret(&self.read_secret);
            self.read = protector_for(self.suite, &self.read_secret);
            if body[0] == 1 {
                self.key_update_response = true;
            }
            proof {
                assert(self@ =~= after_post(before, msg_type, body@)->Ok_0);
            }
            Ok(())
        } else {
            Err(protocol_number("unexpected post-handshake message type ", msg_type, ""))
        }
    }

    fn on_posts(&mut self, data: &[u8]) -> (r: Result<()>)
        requires
            old(self).wf(),
        ensures
            final(self).wf(),
            match after_posts(old(self)@, data@, 0) {
                Ok(t) => r is Ok && final(self)@ == t,
                Err(f) => r is Err && r->Err_0@ == f && final(self)@ == posts_taken(
                    old(self)@,
                    data@,
                    0,
                ),
            },
    {
        let mut pos: usize = 0;
        let ghost goal = after_posts(self@, data@, 0);
        loop
            invariant
                pos <= data.len(),
                self.wf(),
                goal == after_posts(self@, data@, pos as int),
                goal == after_posts(old(self)@, data@, 0),
                posts_taken(old(self)@, data@, 0) == posts_taken(self@, data@, pos as int),
            decreases data.len() - pos,
        {
            let ghost here = pos;
            match take_hs_message(data, &mut pos) {
                None => return Ok(()),
                Some((ty, body)) => {
                    proof {
                        assert(here < data@.len()) by {
                            assert(data@.skip(here as int).len() >= 4);
                        }
                    }
                    match self.on_post_handshake(body, ty) {
                        Ok(_) => {},
                        Err(e) => return Err(e),
                    }
                },
            }
        }
    }

    fn on_alert(&mut self, payload: &[u8]) -> (r: Option<Result<Fill>>)
        ensures
            final(self)@ == (StreamView {
                peer_closed: old(self)@.peer_closed || alert_of(payload@).1 == 0,
                ..old(self)@
            }),
            final(self).suite == old(self).suite,
            match alert_outcome(payload@) {
                None => r is None,
                Some(o) => r is Some && fill_matches(r->Some_0, o),
            },
    {
        let (level, description) = alert_parts(payload);
        if description == 0 {
            self.peer_closed = true;
            return Some(Ok(Fill::Closed));
        }
        if level == ALERT_FATAL {
            return Some(Err(Tls13Error::Alert { level, description }));
        }
        None
    }

    fn on_stream_record(&mut self, outer: u8, body: &[u8]) -> (r: Option<Result<Fill>>)
        requires
            old(self).wf(),
        ensures
            final(self).wf(),
            ({
                let (o, t) = take_record(old(self)@, outer, body@);
                &&& match o {
                    None => r is None,
                    Some(o) => r is Some && fill_matches(r->Some_0, o),
                }
                &&& final(self)@ == t
            }),
    {
        let ghost before = self@;
        if outer == CONTENT_CHANGE_CIPHER_SPEC {
            return None;
        }
        if outer == CONTENT_HANDSHAKE {
            return Some(Err(protocol("unprotected handshake record after the handshake")));
        }
        if outer == CONTENT_ALERT {
            return self.on_alert(body);
        }
        if outer != CONTENT_APPLICATION_DATA {
            return Some(Err(protocol_number("unexpected record type ", outer, "")));
        }
        let (inner, data) = match self.read.open(body) {
            Ok(p) => p,
            Err(e) => return Some(Err(e)),
        };
        let ghost t = StreamView { read: before.read.after(body@), ..before };
        proof {
            assert(self@ =~= t);
        }
        if inner == CONTENT_APPLICATION_DATA {
            if data.len() > 0 {
                extend(&mut self.plaintext, &data);
                proof {
                    assert(self@ =~= StreamView { plaintext: before.plaintext + data@, ..t });
                }
                return Some(Ok(Fill::Data));
            }
            None
        } else if inner == CONTENT_HANDSHAKE {
            match self.on_posts(&data) {
                Ok(_) => None,
                Err(e) => Some(Err(e)),
            }
        } else if inner == CONTENT_ALERT {
            self.on_alert(&data)
        } else {
            Some(Err(protocol_number("invalid inner content type ", inner, "")))
        }
    }

    /// Take the buffered records until they give data, the peer has closed, or more
    /// bytes are needed. What stands behind a close is never read.
    pub fn fill_plaintext(&mut self) -> (r: Result<Fill>)
        requires
            old(self).wf(),
        ensures
            final(self).wf(),
            fill_matches(r, fill(old(self)@).0),
            final(self)@ == fill(old(self)@).1,
            r is Err ==> final(self)@.plaintext == old(self)@.plaintext,
    {
        let ghost goal = fill(self@);
        loop
            invariant
                self.wf(),
                goal == fill(self@),
                goal == fill(old(self)@),
                self@.plaintext == old(self)@.plaintext,
            decreases self.read_buf@.len(),
        {
            let ghost before = self@;
            if self.peer_closed {
                return Ok(Fill::Closed);
            }
            if self.read_buf.len() < 5 {
                return Ok(Fill::NeedMore);
            }
            let (outer, len): (u8, usize) = match parse_record_header(&self.read_buf) {
                Ok(h) => h,
                Err(e) => return Err(e),
            };
            if self.read_buf.len() - 5 < len {
                return Ok(Fill::NeedMore);
            }
            let body = copy_range(&self.read_buf, 5, 5 + len);
            drop_front(&mut self.read_buf, 5 + len);
            let ghost t = self@;
            proof {
                assert(t =~= StreamView {
                    read_buf: before.read_buf.skip(5 + len as int),
                    ..before
                });
                lemma_keeps_buffer(t, outer, body@);
            }
            match self.on_stream_record(outer, &body) {
                Some(r) => return r,
                None => {},
            }
        }
    }

    /// Take bytes from the socket; none mean that the peer closed it, which is an error
    /// in the middle of a record. Returns whether the connection is still open.
    pub fn received(&mut self, chunk: &[u8]) -> (r: Result<bool>)
        requires
            old(self).wf(),
        ensures
            final(self).wf(),
            chunk@.len() > 0 ==> r == Ok::<bool, Tls13Error>(true) && final(self)@ == (StreamView {
                read_buf: old(self)@.read_buf + chunk@,
                ..old(self)@
            }),
            chunk@.len() == 0 && old(self)@.read_buf.len() == 0 ==> r == Ok::<bool, Tls13Error>(
                false,
            ) && final(self)@ == (StreamView { peer_closed: true, ..old(self)@ }),
            chunk@.len() == 0 && old(self)@.read_buf.len() > 0 ==> r is Err && r->Err_0@
                == TlsFault::Protocol("connection closed in the middle of a record"@)
                && final(self)@ == old(self)@,
    {
        let ghost before = self@;
        if chunk.len() == 0 {
            if self.read_buf.len() == 0 {
                self.peer_closed = true;
                return Ok(false);
            }
            return Err(protocol("connection closed in the middle of a record"));
        }
        extend(&mut self.read_buf, chunk);
        proof {
            assert(self@ =~= StreamView { read_buf: before.read_buf + chunk@, ..before });
        }
        Ok(true)
    }

    /// Hand out at most `limit` bytes of decrypted data.
    pub fn take_plaintext(&mut self, limit: usize) -> (r: Vec<u8>)
        requires
            old(self).wf(),
        ensures
            final(self).wf(),
            ({
                let n = if limit < old(self)@.plaintext.len() {
                    limit as int
                } else {
                    old(self)@.plaintext.len() as int
                };
                &&& r@ == old(self)@.plaintext.take(n)
                &&& final(self)@ == (StreamView {
                    plaintext: old(self)@.plaintext.skip(n),
                    ..old(self)@
                })
            }),
    {
        let ghost before = self@;
        let n: usize = if limit < self.plaintext.len() {
            limit
        } else {
            self.plaintext.len()
        };
        let r = copy_range(&self.plaintext, 0, n);
        drop_front(&mut self.plaintext, n);
        proof {
            assert(r@ =~= before.plaintext.take(n as int));
            assert(self@ =~= StreamView { plaintext: before.plaintext.skip(n as int), ..before });
        }
        r
    }

    /// Protect `buf`: the records to send, a requested `KeyUpdate` first. A peer in step
    /// gets `buf` out of the data records. Refused once the write side is closed.
    pub fn write(&mut self, buf: &[u8]) -> (r: Result<Vec<u8>>)
        requires
            old(self).wf(),
        ensures
            final(self).wf(),
            old(self)@.closed ==> r is Err && r->Err_0@ == TlsFault::Closed && final(self)@
                == old(self)@,
            !old(self)@.closed ==> r is Ok && r->Ok_0@ == old(self)@.sends(buf@).0 && final(self)@
                == old(self)@.sends(buf@).1,
            !old(self)@.closed && !old(self)@.key_update_response ==> carries(
                old(self)@.write,
                r->Ok_0@,
                buf@,
            ),
            !old(self)@.closed && old(self)@.key_update_response ==> {
                let first = old(self)@.key_update_record(false);
                &&& r->Ok_0@.take(first.len() as int) == first
                &&& carries(old(self)@.updated().write, r->Ok_0@.skip(first.len() as int), buf@)
            },
    {
        if self.closed {
            return Err(Tls13Error::Closed);
        }
        let ghost start = self@;
        let mut out: Vec<u8> = Vec::new();
        if self.key_update_response {
            self.key_update_response = false;
            let record = match self.key_update(false) {
                Ok(r) => r,
                Err(e) => return Err(e),
            };
            proof {
                assert(self@ =~= start.updated());
                assert(record@ == start.key_update_record(false));
            }
            extend(&mut out, &record);
        }
        let ghost s = self@;
        let ghost first = out@;
        let ghost whole = data_records(s.write, buf@);
        proof {
            assert(first =~= if start.key_update_response {
                start.key_update_record(false)
            } else {
                Seq::empty()
            });
            assert(buf@.skip(0) =~= buf@);
            assert(first + (Seq::empty() + whole.0) =~= first + whole.0);
            assert(out@ =~= first + Seq::empty());
            assert forall|b: Seq<u8>| #[trigger] carries(s.write, b, buf@.skip(0)) implies carries(
                s.write,
                Seq::<u8>::empty() + b,
                buf@,
            ) by {
                assert(Seq::<u8>::empty() + b =~= b);
            }
        }
        let mut at: usize = 0;
        let ghost mut done = Seq::<u8>::empty();
        while at < buf.len()
            invariant
                at <= buf.len(),
                self.wf(),
                self@ == (StreamView { write: self@.write, ..s }),
                out@ == first + done,
                whole.0 == done + data_records(self@.write, buf@.skip(at as int)).0,
                whole.1 == data_records(self@.write, buf@.skip(at as int)).1,
                forall|b: Seq<u8>| #[trigger]
                    carries(self@.write, b, buf@.skip(at as int)) ==> carries(
                        s.write,
                        done + b,
                        buf@,
                    ),
            decreases buf.len() - at,
        {
            let n: usize = if buf.len() - at < MAX_PLAINTEXT {
                buf.len() - at
            } else {
                MAX_PLAINTEXT
            };
            let piece = slice_subrange(buf, at, at + n);
            let ghost p = self@.write;
            let ghost rest = buf@.skip(at as int);
            let record = match self.write.seal(CONTENT_APPLICATION_DATA, piece) {
                Ok(r) => r,
                Err(e) => return Err(e),
            };
            proof {
                assert(piece@ =~= rest.take(n as int));
                assert(rest.skip(n as int) =~= buf@.skip(at + n));
                let tail = data_records(p.next(), rest.skip(n as int));
                assert(data_records(p, rest).0 == record@ + tail.0);
                assert(done + (record@ + tail.0) =~= (done + record@) + tail.0);
                assert(first + done + record@ =~= first + (done + record@));
                assert forall|b: Seq<u8>| #[trigger]
                    carries(p.next(), b, buf@.skip(at + n)) implies carries(
                    s.write,
                    (done + record@) + b,
                    buf@,
                ) by {
                    lemma_carries_first(p, record@, b, rest, n as int);
                    assert(carries(p, record@ + b, buf@.skip(at as int)));
                    assert(done + (record@ + b) =~= (done + record@) + b);
                }
                done = done + record@;
                assert(self@ =~= StreamView { write: p.next(), ..s });
            }
            extend(&mut out, &record);
            at = at + n;
        }
        proof {
            assert(done + Seq::<u8>::empty() =~= done);
            assert(carries(self@.write, Seq::empty(), buf@.skip(at as int)));
            assert(out@.take(first.len() as int) =~= first);
            assert(out@.skip(first.len() as int) =~= done);
            assert(self@ =~= StreamView { write: whole.1, ..s });
        }
        Ok(out)
    }
}

proof fn lemma_posts_keep_buffer(s: StreamView, data: Seq<u8>, pos: int)
    ensures
        after_posts(s, data, pos) is Ok ==> after_posts(s, data, pos)->Ok_0.read_buf == s.read_buf
            && after_posts(s, data, pos)->Ok_0.plaintext == s.plaintext,
        posts_taken(s, data, pos).read_buf == s.read_buf,
        posts_taken(s, data, pos).plaintext == s.plaintext,
    decreases data.len() - pos,
{
    match hs_at(data.skip(pos)) {
        None => {},
        Some((ty, body)) => match after_post(s, ty, body) {
            Err(f) => {},
            Ok(t) => if 0 <= pos < data.len() {
                lemma_posts_keep_buffer(t, data, pos + 4 + body.len());
            },
        },
    }
}

/// Taking a record leaves the received bytes behind it alone, and one that holds no data
/// leaves the decrypted bytes alone.
proof fn lemma_keeps_buffer(s: StreamView, outer: u8, body: Seq<u8>)
    ensures
        take_record(s, outer, body).1.read_buf == s.read_buf,
        take_record(s, outer, body).0 != Some(FillOutcome::Data) ==> take_record(
            s,
            outer,
            body,
        ).1.plaintext == s.plaintext,
{
    if outer == CONTENT_APPLICATION_DATA && s.read.content(body) is Ok {
        let t = StreamView { read: s.read.after(body), ..s };
        lemma_posts_keep_buffer(t, s.read.content(body)->Ok_0.1, 0);
    }
}

/// A close is final: once the peer has closed, by an alert or with its socket, filling
/// answers so for ever, whatever bytes stand behind it.
pub proof fn lemma_close_is_final(s: StreamView, more: Seq<u8>)
    ensures
        fill(s).0 == FillOutcome::Closed ==> fill(s).1.peer_closed,
        s.peer_closed ==> fill(StreamView { read_buf: s.read_buf + more, ..s }) == (
            FillOutcome::Closed,
            StreamView { read_buf: s.read_buf + more, ..s },
        ),
    decreases s.read_buf.len(),
{
    if !s.peer_closed && s.read_buf.len() >= 5 {
        if let Ok((outer, len)) = header_at(s.read_buf) {
            if s.read_buf.len() >= 5 + len {
                let t = StreamView { read_buf: s.read_buf.skip(5 + len as int), ..s };
                let body = s.read_buf.subrange(5, 5 + len as int);
                let (outcome, u) = take_record(t, outer, body);
                if outcome is None && u.read_buf.len() < s.read_buf.len() {
                    lemma_close_is_final(u, more);
                }
            }
        }
    }
}

/// Whether a signature under the key of the accepted certificate, by a scheme that was
/// offered, covers the part `signed` of the transcript.
pub open spec fn possession(s: FlightView, signed: Seq<u8>, scheme: u16, signature: Seq<u8>) -> bool {
    &&& s.leaf is Some
    &&& signed.len() <= s.transcript.len()
    &&& signed == s.transcript.take(signed.len() as int)
    &&& s.offered_schemes.contains(scheme)
    &&& signature_valid(
        s.leaf->Some_0.1.key,
        scheme,
        verify_content(digest_of(s.hash().alg(), signed), false),
        signature,
    )
}

/// Whether the server is taken as verified only where it proved that it holds the key of
/// its certificate.
pub open spec fn proved(s: FlightView) -> bool {
    s.verified ==> exists|signed: Seq<u8>, scheme: u16, signature: Seq<u8>| #[trigger]
        possession(s, signed, scheme, signature)
}

proof fn lemma_possession_kept(s: FlightView, t: FlightView, more: Seq<u8>)
    requires
        proved(s),
        s.verified == t.verified,
        t.transcript == s.transcript + more,
        t.offered_schemes == s.offered_schemes,
        t.suite == s.suite,
        t.leaf == s.leaf,
    ensures
        proved(t),
{
    if s.verified {
        let (signed, scheme, signature) = choose|signed: Seq<u8>, scheme: u16, signature: Seq<u8>|
            #[trigger]
            possession(s, signed, scheme, signature);
        assert(t.transcript.take(signed.len() as int) =~= s.transcript.take(signed.len() as int));
        assert(possession(t, signed, scheme, signature));
    }
}

proof fn lemma_proved_message(s: FlightView, ty: u8, msg: Seq<u8>, v: Verdict)
    requires
        proved(s),
    ensures
        after_message(s, ty, msg, v) is Ok ==> proved(after_message(s, ty, msg, v)->Ok_0),
{
    let after = after_message(s, ty, msg, v);
    if after is Ok {
        let t = after->Ok_0;
        let body = msg.skip(4);
        assert(s.transcript + Seq::<u8>::empty() =~= s.transcript);
        if ty == HS_CERTIFICATE_VERIFY {
            let signature = body.subrange(4, 4 + u16_at(body, 2) as int);
            assert(t.transcript.take(s.transcript.len() as int) =~= s.transcript);
            assert(possession(t, s.transcript, u16_at(body, 0) as u16, signature));
        } else if ty == HS_CERTIFICATE {
            assert(s.verified ==> s.leaf is Some);
        } else if ty == HS_ENCRYPTED_EXTENSIONS {
            lemma_possession_kept(s, t, msg);
        } else {
            lemma_possession_kept(s, t, Seq::empty());
        }
    }
}

proof fn lemma_proved_pending(s: FlightView, v: Verdict)
    requires
        proved(s),
    ensures
        after_pending(s, v) is Ok ==> proved(after_pending(s, v)->Ok_0),
    decreases s.pending.len(),
{
    match hs_at(s.pending) {
        None => {},
        Some((ty, body)) => {
            let n = 4 + body.len() as int;
            lemma_proved_message(s, ty, s.pending.take(n), v);
            match after_message(s, ty, s.pending.take(n), v) {
                Err(_) => {},
                Ok(t) => {
                    let next = FlightView { pending: s.pending.skip(n), ..t };
                    assert(t.transcript + Seq::<u8>::empty() =~= t.transcript);
                    lemma_possession_kept(t, next, Seq::empty());
                    if next.pending.len() < s.pending.len() {
                        lemma_proved_pending(next, v);
                    }
                },
            }
        },
    }
}

/// A handshake completes only with a server that proved to hold the key of its
/// certificate: the flight begins without a proof, no record of the flight brings one but
/// a `CertificateVerify` whose signature covers the transcript before it, and without one
/// neither `Finished` is taken nor the handshake completed.
pub proof fn lemma_possession_proved(
    hello: Seq<u8>,
    private: Seq<u8>,
    offered_alpn: Seq<Seq<u8>>,
    schemes: Seq<u16>,
    server_hello: Seq<u8>,
    s: FlightView,
    outer: u8,
    payload: Seq<u8>,
    v: Verdict,
    server_name: Seq<char>,
)
    ensures
        flight_after(hello, private, offered_alpn, schemes, server_hello) is Ok ==> proved(
            flight_after(hello, private, offered_alpn, schemes, server_hello)->Ok_0,
        ),
        proved(s) && after_record(s, outer, payload, v) is Ok ==> proved(
            after_record(s, outer, payload, v)->Ok_0,
        ),
        proved(s) && completion(s, server_name) is Ok ==> exists|
            signed: Seq<u8>,
            scheme: u16,
            signature: Seq<u8>,
        | #[trigger] possession(s, signed, scheme, signature),
        !s.verified ==> completion(s, server_name) is Err && !(on_finished(
            s,
            payload.skip(4),
            payload,
        ) is Next),
{
    if proved(s) && outer == CONTENT_APPLICATION_DATA {
        match flight_plaintext(s, outer, payload) {
            Err(_) => {},
            Ok(data) => {
                let t = FlightView {
                    read: s.read.after(payload),
                    pending: s.pending + data,
                    ..s
                };
                assert(s.transcript + Seq::<u8>::empty() =~= s.transcript);
                lemma_possession_kept(s, t, Seq::empty());
                lemma_proved_pending(t, v);
            },
        }
    }
}

/// A sent `KeyUpdate` and its receipt keep the two sides in step: a peer whose read side
/// matches the sender's write side matches the sender's new write side afterwards.
pub proof fn lemma_key_update_in_step(sender: StreamView, receiver: StreamView, request: bool)
    requires
        receiver.suite == sender.suite,
        receiver.read_secret == sender.write_secret,
    ensures
        ({
            let body = seq![if request {
                1u8
            } else {
                0u8
            }];
            let after = after_post(receiver, HS_KEY_UPDATE, body);
            &&& after is Ok
            &&& after->Ok_0.read == sender.updated().write
            &&& after->Ok_0.read_secret == sender.updated().write_secret
            &&& after->Ok_0.key_update_response == (receiver.key_update_response || request)
        }),
{
}

} // verus!
